use ohkami::date::{imf_fixdate, moment};
use ohkami::response::body::ResponseBody;
use ohkami::response::content::Content;
use ohkami::response::headers::Headers;
use ohkami::response::status::Status;
use ohkami::response::typed::{
    BadRequest, Created, Forbidden, Found, InternalServerError, IntoResponse, MovedPermanently,
    NoContent, NotFound, NotImplemented, NotModified, SwitchingProtocols, Unauthorized,
    UnprocessableEntity, OK,
};
use ohkami::response::Response;
use std::borrow::Cow;

fn is_reponsebody<T: ResponseBody>() {}

fn text_of(bytes: &[u8]) -> String {
    String::from_utf8(bytes.to_vec()).unwrap()
}

#[test]
fn assert_impls() {
    is_reponsebody::<&'static str>();
    is_reponsebody::<String>();
    is_reponsebody::<&'_ String>();
    is_reponsebody::<Cow<'static, str>>();
    is_reponsebody::<Cow<'_, str>>();
}

#[test]
fn response_bodies_become_plain_text_responses() {
    let owned = String::from("owned");
    let responses = vec![
        ("static", "static".into_response_with(Status::OK)),
        ("owned", owned.clone().into_response_with(Status::OK)),
        ("owned", (&owned).into_response_with(Status::OK)),
        ("cow", Cow::Borrowed("cow").into_response_with(Status::OK)),
        ("grown", Cow::<'static, str>::Owned(String::from("grown")).into_response_with(Status::OK)),
    ];
    for (text, res) in responses {
        assert_eq!(res.status, Status::OK);
        assert_eq!(res.content.as_bytes(), Some(text.as_bytes()));
        assert_eq!(res.headers.get(b"Content-Type"), Some(&b"text/plain; charset=UTF-8"[..]));
        assert_eq!(res.headers.get(b"Content-Length"), Some(text.len().to_string().as_bytes()));
        assert_eq!(res.headers.entries.len(), 2);
    }
    let created = "x".into_response_with(Status::Created);
    assert_eq!(created.status, Status::Created);
}

#[test]
fn an_empty_response_gets_content_length_zero() {
    let bytes = Response::with(Status::OK).into_bytes_dated(b"Sun, 06 Nov 1994 08:49:37 GMT");
    assert_eq!(
        text_of(&bytes),
        "HTTP/1.1 200 OK\r\nDate: Sun, 06 Nov 1994 08:49:37 GMT\r\nContent-Length: 0\r\n\r\n"
    );
    let bytes = Response::with(Status::NotFound).into_bytes_dated(b"D");
    assert_eq!(text_of(&bytes), "HTTP/1.1 404 Not Found\r\nDate: D\r\nContent-Length: 0\r\n\r\n");
}

#[test]
fn a_no_content_response_gets_no_content_length() {
    let bytes = Response::with(Status::NoContent).into_bytes_dated(b"D");
    assert_eq!(text_of(&bytes), "HTTP/1.1 204 No Content\r\nDate: D\r\n\r\n");
}

#[test]
fn a_text_response_is_written_with_its_headers_and_body() {
    let bytes = Response::with(Status::OK).text("Hello!").into_bytes_dated(b"D");
    assert_eq!(
        text_of(&bytes),
        "HTTP/1.1 200 OK\r\nContent-Type: text/plain; charset=UTF-8\r\nContent-Length: 6\r\nDate: D\r\n\r\nHello!"
    );
}

#[test]
fn the_clock_stamps_a_date_header() {
    let bytes = Response::with(Status::OK).into_bytes();
    let text = text_of(&bytes);
    assert!(text.starts_with("HTTP/1.1 200 OK\r\nDate: "));
    assert!(text.ends_with(" GMT\r\nContent-Length: 0\r\n\r\n"));
    let date = &text["HTTP/1.1 200 OK\r\nDate: ".len()..text.len() - "\r\nContent-Length: 0\r\n\r\n".len()];
    assert_eq!(date.len(), 29);
}

#[test]
fn an_existing_date_header_is_replaced_in_place() {
    let mut res = Response::with(Status::OK);
    res.headers.insert(b"date", b"old".to_vec());
    res.headers.insert(b"Server", b"ohkami".to_vec());
    let bytes = res.into_bytes_dated(b"new");
    assert_eq!(
        text_of(&bytes),
        "HTTP/1.1 200 OK\r\ndate: new\r\nServer: ohkami\r\nContent-Length: 0\r\n\r\n"
    );
}

#[test]
fn html_and_json_setters_describe_the_body() {
    let res = Response::with(Status::OK).html("<p>hi</p>");
    assert_eq!(res.headers.get(b"content-type"), Some(&b"text/html; charset=UTF-8"[..]));
    assert_eq!(res.headers.get(b"content-length"), Some(&b"9"[..]));
    assert_eq!(res.content.as_bytes(), Some(&b"<p>hi</p>"[..]));

    let res = Response::with(Status::Created).json_str("{\"id\":1}");
    assert_eq!(res.status, Status::Created);
    assert_eq!(res.headers.get(b"content-type"), Some(&b"application/json; charset=UTF-8"[..]));
    assert_eq!(res.headers.get(b"content-length"), Some(&b"8"[..]));

    let res = Response::with(Status::OK).json(b"[1,2]".to_vec());
    assert_eq!(res.headers.get(b"content-length"), Some(&b"5"[..]));
    assert_eq!(res.content.as_bytes(), Some(&b"[1,2]"[..]));

    let mut res = Response::with(Status::OK);
    res.set_text("a");
    res.set_html("bc");
    assert_eq!(res.headers.entries.len(), 2);
    assert_eq!(res.headers.get(b"content-length"), Some(&b"2"[..]));
    res.set_json_str("{}");
    res.set_json(b"null".to_vec());
    assert_eq!(res.headers.get(b"content-type"), Some(&b"application/json; charset=UTF-8"[..]));
    assert_eq!(res.headers.get(b"content-length"), Some(&b"4"[..]));
}

#[test]
fn dropping_the_content_drops_its_headers() {
    let mut res = Response::with(Status::OK).text("bye");
    res.headers.insert(b"Server", b"ohkami".to_vec());
    res.drop_content();
    assert!(res.content.is_none());
    assert_eq!(res.headers.get(b"Content-Type"), None);
    assert_eq!(res.headers.get(b"Content-Length"), None);
    assert_eq!(res.headers.get(b"Server"), Some(&b"ohkami"[..]));
    assert_eq!(res.status, Status::OK);

    let res = Response::with(Status::OK).text("bye").without_content();
    assert!(res.content.is_none());
    assert_eq!(res.headers.entries.len(), 0);
}

#[test]
fn content_accessors() {
    let mut content = Content::Payload(b"abc".to_vec());
    assert!(!content.is_none());
    assert_eq!(content.as_bytes(), Some(&b"abc"[..]));
    let taken = content.take();
    assert!(content.is_none());
    assert_eq!(taken.into_bytes(), Some(b"abc".to_vec()));
    assert_eq!(Content::Empty.as_bytes(), None);
    assert_eq!(Content::Empty.into_bytes(), None);
    assert_eq!(Content::Stream(vec![b"a".to_vec()]).as_bytes(), None);
    assert_eq!(Content::Upgrade(b"key".to_vec()).into_bytes(), None);
}

#[test]
fn streamed_chunks_follow_the_headers_in_order() {
    let res = Response {
        status: Status::OK,
        headers: Headers::new(),
        content: Content::Stream(vec![b"one ".to_vec(), b"".to_vec(), b"two".to_vec()]),
    };
    assert_eq!(text_of(&res.into_bytes_dated(b"D")), "HTTP/1.1 200 OK\r\nDate: D\r\n\r\none two");
}

#[test]
fn an_upgrade_payload_is_not_written() {
    let res = Response {
        status: Status::SwitchingProtocols,
        headers: Headers::new(),
        content: Content::Upgrade(b"secret".to_vec()),
    };
    assert_eq!(
        text_of(&res.into_bytes_dated(b"D")),
        "HTTP/1.1 101 Switching Protocols\r\nDate: D\r\n\r\n"
    );
}

#[test]
fn headers_are_a_list_with_case_blind_names() {
    let mut headers = Headers::new();
    headers.insert(b"X-A", b"1".to_vec());
    headers.insert(b"X-B", b"2".to_vec());
    headers.insert(b"x-a", b"3".to_vec());
    assert_eq!(headers.entries.len(), 2);
    assert_eq!(headers.get(b"X-A"), Some(&b"3"[..]));
    assert_eq!(headers.entries[0].0, b"X-A".to_vec());
    headers.entries.push((b"X-B".to_vec(), b"4".to_vec()));
    headers.remove(b"x-b");
    assert_eq!(headers.entries.len(), 1);
    assert_eq!(headers.get(b"X-B"), None);
    let mut out = b">".to_vec();
    headers.write_to(&mut out);
    assert_eq!(out, b">X-A: 3\r\n".to_vec());
}

#[test]
fn status_codes_and_lines() {
    let cases = [
        (Status::SwitchingProtocols, 101, "101 Switching Protocols"),
        (Status::OK, 200, "200 OK"),
        (Status::Created, 201, "201 Created"),
        (Status::NoContent, 204, "204 No Content"),
        (Status::MovedPermanently, 301, "301 Moved Permanently"),
        (Status::Found, 302, "302 Found"),
        (Status::NotModified, 304, "304 Not Modified"),
        (Status::BadRequest, 400, "400 Bad Request"),
        (Status::Unauthorized, 401, "401 Unauthorized"),
        (Status::Forbidden, 403, "403 Forbidden"),
        (Status::NotFound, 404, "404 Not Found"),
        (Status::UnprocessableEntity, 422, "422 Unprocessable Entity"),
        (Status::InternalServerError, 500, "500 Internal Server Error"),
        (Status::NotImplemented, 501, "501 Not Implemented"),
    ];
    for (status, code, line) in cases {
        assert_eq!(status.code(), code);
        assert_eq!(status.as_str(), line);
        assert_eq!(status.as_bytes(), line.as_bytes());
        assert!(line.starts_with(&code.to_string()));
        assert_eq!(status.is_no_content(), code == 204);
    }
}

#[test]
fn dates_have_the_fixed_format() {
    assert_eq!(text_of(&imf_fixdate(0)), "Thu, 01 Jan 1970 00:00:00 GMT");
    assert_eq!(text_of(&imf_fixdate(784111777)), "Sun, 06 Nov 1994 08:49:37 GMT");
    assert_eq!(text_of(&imf_fixdate(951782400)), "Tue, 29 Feb 2000 00:00:00 GMT");
    assert_eq!(text_of(&imf_fixdate(951868799)), "Tue, 29 Feb 2000 23:59:59 GMT");
    assert_eq!(text_of(&imf_fixdate(951868800)), "Wed, 01 Mar 2000 00:00:00 GMT");
    assert_eq!(text_of(&imf_fixdate(1735689599)), "Tue, 31 Dec 2024 23:59:59 GMT");
    assert_eq!(text_of(&imf_fixdate(4102444800)), "Fri, 01 Jan 2100 00:00:00 GMT");
    assert_eq!(text_of(&imf_fixdate(4107542400)), "Mon, 01 Mar 2100 00:00:00 GMT");
}

#[test]
fn a_moment_is_broken_down() {
    let m = moment(784111777);
    assert_eq!((m.year, m.month, m.day), (1994, 10, 6));
    assert_eq!((m.hour, m.minute, m.second), (8, 49, 37));
    assert_eq!(m.weekday, 0);
}

#[test]
fn statuses_as_types_become_responses() {
    let with_body = vec![
        (OK("a").into_response(), Status::OK),
        (Created("a").into_response(), Status::Created),
        (BadRequest("a").into_response(), Status::BadRequest),
        (Unauthorized("a").into_response(), Status::Unauthorized),
        (Forbidden("a").into_response(), Status::Forbidden),
        (NotFound("a").into_response(), Status::NotFound),
        (UnprocessableEntity("a").into_response(), Status::UnprocessableEntity),
        (InternalServerError(String::from("a")).into_response(), Status::InternalServerError),
    ];
    for (res, status) in with_body {
        assert_eq!(res.status, status);
        assert_eq!(res.content.as_bytes(), Some(&b"a"[..]));
        assert_eq!(res.headers.get(b"Content-Length"), Some(&b"1"[..]));
    }
    let bare = vec![
        (SwitchingProtocols.into_response(), Status::SwitchingProtocols),
        (NoContent.into_response(), Status::NoContent),
        (NotModified.into_response(), Status::NotModified),
        (NotImplemented.into_response(), Status::NotImplemented),
        (Status::Found.into_response(), Status::Found),
    ];
    for (res, status) in bare {
        assert_eq!(res.status, status);
        assert!(res.content.is_none());
        assert!(res.headers.entries.is_empty());
    }
    let moved = MovedPermanently::to("/new").into_response();
    assert_eq!(moved.status, Status::MovedPermanently);
    assert_eq!(moved.headers.get(b"Location"), Some(&b"/new"[..]));
    let found = Found::at("/there").into_response();
    assert_eq!(found.status, Status::Found);
    assert_eq!(found.headers.get(b"location"), Some(&b"/there"[..]));
    let same = Response::with(Status::OK).text("x").into_response();
    assert_eq!(same.content.as_bytes(), Some(&b"x"[..]));
}

#[test]
fn responses_are_compared_by_status_headers_and_content() {
    let a = Response::with(Status::OK).text("same");
    let b = Response::with(Status::OK).text("same");
    assert!(a.same(&b));
    assert!(!a.same(&Response::with(Status::Created).text("same")));
    assert!(!a.same(&Response::with(Status::OK).text("Same")));
    assert!(!a.same(&Response::with(Status::OK).html("same")));
    let mut c = Response::with(Status::OK).text("same");
    c.headers.insert(b"X-More", b"1".to_vec());
    assert!(!a.same(&c));
    assert!(Content::Empty.same(&Content::Empty));
    assert!(!Content::Empty.same(&Content::Payload(Vec::new())));
    assert!(Content::Stream(vec![b"a".to_vec(), b"b".to_vec()])
        .same(&Content::Stream(vec![b"a".to_vec(), b"b".to_vec()])));
    assert!(!Content::Stream(vec![b"ab".to_vec()])
        .same(&Content::Stream(vec![b"a".to_vec(), b"b".to_vec()])));
    assert!(!Content::Upgrade(b"k".to_vec()).same(&Content::Payload(b"k".to_vec())));
    assert!(Content::Upgrade(b"k".to_vec()).same(&Content::Upgrade(b"k".to_vec())));
    let mut x = Headers::new();
    x.insert(b"A", b"1".to_vec());
    let mut y = Headers::new();
    y.insert(b"a", b"1".to_vec());
    assert!(!x.same(&y));
    assert!(x.same(&x));
}

#[test]
fn a_response_is_written_in_pieces() {
    let res = Response {
        status: Status::OK,
        headers: Headers::new(),
        content: Content::Stream(vec![b"one ".to_vec(), b"two".to_vec()]),
    };
    let (head, chunks) = res.into_parts_dated(b"D");
    assert_eq!(text_of(&head), "HTTP/1.1 200 OK\r\nDate: D\r\n\r\n");
    assert_eq!(chunks, vec![b"one ".to_vec(), b"two".to_vec()]);

    let (head, chunks) = Response::with(Status::OK).text("hi").into_parts_dated(b"D");
    assert_eq!(
        text_of(&head),
        "HTTP/1.1 200 OK\r\nContent-Type: text/plain; charset=UTF-8\r\nContent-Length: 2\r\nDate: D\r\n\r\n"
    );
    assert_eq!(chunks, vec![b"hi".to_vec()]);

    let (head, chunks) = Response::with(Status::NotFound).into_parts_dated(b"D");
    assert_eq!(text_of(&head), "HTTP/1.1 404 Not Found\r\nDate: D\r\nContent-Length: 0\r\n\r\n");
    assert!(chunks.is_empty());

    let (head, chunks) = Response::with(Status::OK).text("x").into_parts();
    assert!(text_of(&head).ends_with(" GMT\r\n\r\n"));
    assert_eq!(chunks.concat(), b"x".to_vec());
}
