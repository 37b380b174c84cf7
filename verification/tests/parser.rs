use ohkami::buffer::{Buffer, InvalidUtf8};
use ohkami::method::Method;
use ohkami::request::grammar::{ContentType, ParseError};
use ohkami::request::parse::{parse, parse_with};
use ohkami::testing::Request as TestRequest;

fn raw(text: &str) -> Buffer {
    Buffer::from_raw_str(text)
}

#[test]
fn how_str_as_ptr_works() {
    assert_eq!("abc".as_ptr(), "abc".as_ptr());

    let abc = "abc";
    let abc2 = "abc";
    assert_eq!(abc.as_ptr(), abc2.as_ptr());

    let string = String::from("abcdef");
    assert_eq!(string, "abcdef");
}

#[test]
fn parses_method_path_query_and_headers() {
    let req = parse(raw(
        "GET /hello/world?a=1&b=two HTTP/1.1\r\nHost: example.com\r\nAccept: */*\r\n\r\n",
    ))
    .unwrap();
    assert_eq!(req.method(), Method::GET);
    assert_eq!(req.path_bytes(), b"/hello/world");
    assert_eq!(req.path(), "/hello/world");
    assert_eq!(req.query("a"), Some("1".to_string()));
    assert_eq!(req.query("b"), Some("two".to_string()));
    assert_eq!(req.query("c"), None);
    assert_eq!(req.header("Host"), Some(&b"example.com"[..]));
    assert_eq!(req.header("Accept"), Some(&b"*/*"[..]));
    assert_eq!(req.header("Cookie"), None);
    assert!(req.payload().is_none());
    assert_eq!(req.queries.len(), 2);
    assert_eq!(req.headers.len(), 2);
}

#[test]
fn parses_every_known_method() {
    let cases = [
        ("GET", Method::GET),
        ("PUT", Method::PUT),
        ("POST", Method::POST),
        ("PATCH", Method::PATCH),
        ("DELETE", Method::DELETE),
        ("HEAD", Method::HEAD),
        ("OPTIONS", Method::OPTIONS),
    ];
    for (token, method) in cases {
        let req = parse(raw(&format!("{token} / HTTP/1.1\r\n\r\n"))).unwrap();
        assert_eq!(req.method(), method);
        assert_eq!(Method::from_bytes(token.as_bytes()), Some(method));
        assert_eq!(method.as_str(), token);
    }
}

#[test]
fn unknown_method_is_an_error() {
    assert_eq!(parse(raw("BREW /pot HTTP/1.1\r\n\r\n")).unwrap_err(), ParseError::UnknownMethod);
    assert_eq!(parse(raw("get / HTTP/1.1\r\n\r\n")).unwrap_err(), ParseError::UnknownMethod);
}

#[test]
fn malformed_start_lines_are_errors() {
    for text in [
        "",
        "GET",
        "GET / HTTP/1.1",
        "GET / HTTP/1.1\n\r\n",
        "GET /\r\n\r\n",
        " / HTTP/1.1\r\n\r\n",
        "GET  HTTP/1.1\r\n\r\n",
        "GET / HTTP/1.0\r\n\r\n",
        "GET / HTTP/1.1 \r\n\r\n",
    ] {
        assert_eq!(parse(raw(text)).unwrap_err(), ParseError::MalformedRequest, "{text:?}");
    }
}

#[test]
fn header_line_without_colon_is_malformed() {
    assert_eq!(
        parse(raw("GET / HTTP/1.1\r\nHost example.com\r\n\r\n")).unwrap_err(),
        ParseError::MalformedRequest
    );
}

#[test]
fn headers_must_end_with_an_empty_line() {
    assert_eq!(
        parse(raw("GET / HTTP/1.1\r\nHost: example.com\r\n")).unwrap_err(),
        ParseError::MalformedRequest
    );
}

#[test]
fn header_names_ignore_case_and_values_are_trimmed() {
    let req = parse(raw("GET / HTTP/1.1\r\nX-Thing:  \t padded value \t \r\n\r\n")).unwrap();
    assert_eq!(req.header("x-thing"), Some(&b"padded value"[..]));
    assert_eq!(req.header("X-THING"), Some(&b"padded value"[..]));
}

#[test]
fn the_first_of_two_equal_headers_wins() {
    let req = parse(raw("GET / HTTP/1.1\r\nA: 1\r\na: 2\r\n\r\n")).unwrap();
    assert_eq!(req.header("a"), Some(&b"1"[..]));
}

#[test]
fn more_query_pairs_than_capacity_is_an_error() {
    assert!(parse(raw("GET /?a=1&b=2&c=3&d=4 HTTP/1.1\r\n\r\n")).is_ok());
    assert_eq!(
        parse(raw("GET /?a=1&b=2&c=3&d=4&e=5 HTTP/1.1\r\n\r\n")).unwrap_err(),
        ParseError::TooManyQueryParams
    );
    assert_eq!(
        parse_with(raw("GET /?a=1&b=2 HTTP/1.1\r\n\r\n"), 1, 32).unwrap_err(),
        ParseError::TooManyQueryParams
    );
    let req = parse_with(raw("GET /?a=1&b=2 HTTP/1.1\r\n\r\n"), 2, 32).unwrap();
    assert_eq!(req.queries.len(), 2);
    assert_eq!(req.query("b"), Some("2".to_string()));
}

#[test]
fn more_headers_than_capacity_is_an_error() {
    let mut text = String::from("GET / HTTP/1.1\r\n");
    for i in 0..32 {
        text.push_str(&format!("H{i}: v\r\n"));
    }
    let full = format!("{text}\r\n");
    let req = parse(raw(&full)).unwrap();
    assert_eq!(req.headers.len(), 32);
    assert_eq!(req.header("H31"), Some(&b"v"[..]));

    let over = format!("{text}One-More: v\r\n\r\n");
    assert_eq!(parse(raw(&over)).unwrap_err(), ParseError::TooManyHeaders);
    assert_eq!(
        parse_with(raw("GET / HTTP/1.1\r\nA: 1\r\nB: 2\r\n\r\n"), 4, 1).unwrap_err(),
        ParseError::TooManyHeaders
    );
}

#[test]
fn query_pieces_are_cut_at_the_first_equals_sign() {
    let req = parse(raw("GET /?k=a=b&flag&=x HTTP/1.1\r\n\r\n")).unwrap();
    assert_eq!(req.query("k"), Some("a=b".to_string()));
    assert_eq!(req.query("flag"), Some(String::new()));
    assert_eq!(req.query(""), Some("x".to_string()));
}

#[test]
fn an_empty_query_has_no_pairs() {
    let req = parse(raw("GET /p? HTTP/1.1\r\n\r\n")).unwrap();
    assert_eq!(req.queries.len(), 0);
    assert_eq!(req.path(), "/p");
}

#[test]
fn path_and_query_are_percent_decoded_on_access() {
    let req = parse(raw("GET /a%20b/%E3%81%82?na%6De=J%C3%BCrgen&x=%zz HTTP/1.1\r\n\r\n")).unwrap();
    assert_eq!(req.path_bytes(), b"/a%20b/%E3%81%82");
    assert_eq!(req.path(), "/a b/\u{3042}");
    assert_eq!(req.query("name"), Some("J\u{fc}rgen".to_string()));
    assert_eq!(req.query("NAME"), Some("J\u{fc}rgen".to_string()));
    assert_eq!(req.query("x"), Some("%zz".to_string()));
}

#[test]
fn invalid_utf8_is_replaced_when_decoding() {
    let req = parse(raw("GET /%ff HTTP/1.1\r\n\r\n")).unwrap();
    assert_eq!(req.path(), "/\u{fffd}");
}

#[test]
fn a_body_needs_content_type_and_content_length() {
    let req = parse(raw(
        "POST /items HTTP/1.1\r\nContent-Type: application/json\r\nContent-Length: 7\r\n\r\n{\"a\":1}trailing",
    ))
    .unwrap();
    let (kind, body) = req.payload().unwrap();
    assert_eq!(kind, ContentType::JSON);
    assert_eq!(body, b"{\"a\":1}");

    let req = parse(raw("POST /items HTTP/1.1\r\nContent-Length: 2\r\n\r\nhi")).unwrap();
    assert!(req.payload().is_none());
    let req = parse(raw("POST /items HTTP/1.1\r\nContent-Type: text/plain\r\n\r\nhi")).unwrap();
    assert!(req.payload().is_none());
}

#[test]
fn content_types_are_recognized_with_parameters_and_any_case() {
    let cases = [
        ("application/json", ContentType::JSON),
        ("Application/JSON; charset=utf-8", ContentType::JSON),
        ("application/x-www-form-urlencoded", ContentType::URLEncoded),
        ("text/plain ; charset=UTF-8", ContentType::Text),
        ("text/html", ContentType::HTML),
    ];
    for (value, kind) in cases {
        assert_eq!(ContentType::from_bytes(value.as_bytes()), Some(kind), "{value}");
        let text = format!("POST / HTTP/1.1\r\nContent-Type: {value}\r\nContent-Length: 0\r\n\r\n");
        let req = parse(raw(&text)).unwrap();
        let (found, body) = req.payload().unwrap();
        assert_eq!(found, kind);
        assert_eq!(body, b"");
    }
}

#[test]
fn unknown_content_type_is_an_error() {
    assert_eq!(
        parse(raw("POST / HTTP/1.1\r\nContent-Type: image/png\r\nContent-Length: 0\r\n\r\n"))
            .unwrap_err(),
        ParseError::InvalidContentType
    );
}

#[test]
fn bad_content_length_is_malformed() {
    for length in ["abc", "", "-1", "5", "99999999999999999999999999"] {
        let text =
            format!("POST / HTTP/1.1\r\nContent-Type: text/plain\r\nContent-Length: {length}\r\n\r\nhi");
        assert_eq!(parse(raw(&text)).unwrap_err(), ParseError::MalformedRequest, "{length:?}");
    }
}

#[test]
fn a_built_request_is_read_back() {
    let built = TestRequest::new(Method::POST, "/users/list")
        .query("page", "2")
        .unwrap()
        .query("sort", "name")
        .unwrap()
        .body(b"{\"name\":\"ohkami\"}".to_vec());
    let buffer = built.into_request_buffer();
    assert_eq!(
        buffer.as_slice(),
        &b"POST /users/list?page=2&sort=name HTTP/1.1\r\nContent-Type: application/json\r\nContent-Length: 17\r\n\r\n{\"name\":\"ohkami\"}"[..]
    );
    let req = parse(buffer).unwrap();
    assert_eq!(req.method(), Method::POST);
    assert_eq!(req.path(), "/users/list");
    assert_eq!(req.query("page"), Some("2".to_string()));
    assert_eq!(req.query("sort"), Some("name".to_string()));
    assert_eq!(req.header("content-length"), Some(&b"17"[..]));
    let (kind, body) = req.payload().unwrap();
    assert_eq!(kind, ContentType::JSON);
    assert_eq!(body, b"{\"name\":\"ohkami\"}");
}

#[test]
fn a_built_request_without_query_or_body() {
    let buffer = TestRequest::new(Method::GET, "/").into_request_buffer();
    assert_eq!(buffer.as_slice(), &b"GET / HTTP/1.1\r\n\r\n"[..]);
    let req = parse(buffer).unwrap();
    assert_eq!(req.method(), Method::GET);
    assert_eq!(req.path(), "/");
    assert_eq!(req.queries.len(), 0);
    assert_eq!(req.headers.len(), 0);
    assert!(req.payload().is_none());
}

fn lines_of(text: &[u8]) -> Vec<Vec<u8>> {
    let buffer = Buffer::new(text.to_vec());
    let lines = buffer.lines().unwrap();
    lines.iter().map(|l| l.into_bytes(buffer.as_slice()).to_vec()).collect()
}

fn std_lines(text: &str) -> Vec<Vec<u8>> {
    text.lines().map(|l| l.as_bytes().to_vec()).collect()
}

#[test]
fn buffer_lines_are_cut_at_line_feeds() {
    assert_eq!(
        lines_of(b"GET / HTTP/1.1\r\nHost: a\n\r\nbody"),
        vec![b"GET / HTTP/1.1".to_vec(), b"Host: a".to_vec(), b"".to_vec(), b"body".to_vec()]
    );
    assert_eq!(lines_of(b"").len(), 0);
    assert_eq!(lines_of(b"a\n"), vec![b"a".to_vec()]);
    assert_eq!(lines_of(b"a\r"), vec![b"a\r".to_vec()]);
    assert_eq!(lines_of(b"a\r\n\r"), vec![b"a".to_vec(), b"\r".to_vec()]);
    assert_eq!(lines_of(b"\r\r\n"), vec![b"\r".to_vec()]);
    for text in ["", "\n", "a", "a\r", "a\r\nb\r", "a\n\nb\n", "\r\n\r\n", "x\ry\nz", "\u{3042}\r\n\u{fc}"] {
        assert_eq!(lines_of(text.as_bytes()), std_lines(text), "{text:?}");
    }
}

#[test]
fn bytes_that_are_no_text_have_no_lines() {
    assert_eq!(Buffer::new(vec![b'a', b'\n', 0xff]).lines(), Err(InvalidUtf8));
    assert_eq!(Buffer::new(vec![0xe3, 0x81]).lines(), Err(InvalidUtf8));
    assert_eq!(Buffer::new(vec![0xc0, 0x80]).lines(), Err(InvalidUtf8));
    assert!(Buffer::new(vec![0xe3, 0x81, 0x82]).lines().is_ok());
    let mut padded = b"GET / HTTP/1.1\n".to_vec();
    padded.resize(1024, b' ');
    assert_eq!(Buffer::new(padded).lines().unwrap().len(), 2);
}

fn with_pairs(pairs: &[(&str, &str)]) -> TestRequest {
    let mut req = TestRequest::new(Method::GET, "/");
    for (key, value) in pairs {
        req = req.query(key, value).unwrap();
    }
    req
}

#[test]
fn a_full_test_request_takes_no_more_pairs() {
    let full = with_pairs(&[("a", "1"), ("b", "2"), ("c", "3"), ("d", "4")]);
    let back = full.query("e", "5").unwrap_err();
    assert_eq!(back.query.len(), 4);
    assert_eq!(back.query[3], (b"d".to_vec(), b"4".to_vec()));
    assert_eq!(back.query[0], (b"a".to_vec(), b"1".to_vec()));
    assert_eq!(back.uri, b"/".to_vec());
    let three = with_pairs(&[("a", "1"), ("b", "2"), ("c", "3")]);
    let four = three.query("d", "4").unwrap();
    assert_eq!(four.query.len(), 4);
    assert_eq!(four.query[3], (b"d".to_vec(), b"4".to_vec()));
    assert!(parse(four.into_request_buffer()).is_ok());
}

#[test]
fn a_written_request_with_too_many_pairs_is_refused() {
    let mut over = TestRequest::new(Method::GET, "/p");
    for (k, v) in [("a", "1"), ("b", "2"), ("c", "3"), ("d", "4"), ("e", "5")] {
        over.query.push((k.as_bytes().to_vec(), v.as_bytes().to_vec()));
    }
    assert_eq!(parse(over.into_request_buffer()).unwrap_err(), ParseError::TooManyQueryParams);
}
