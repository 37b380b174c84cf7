use ohkami::buffer::Buffer;
use ohkami::context::Context;
use ohkami::list::List;
use ohkami::request::parse::parse;
use ohkami::response::status::Status;
use ohkami::router::node::PathParams;
use ohkami::slice::Slice;

#[test]
fn a_list_refuses_what_does_not_fit() {
    let mut list: List<u8> = List::new(2);
    assert_eq!(list.len(), 0);
    assert!(!list.is_full());
    assert!(list.append(7));
    assert!(list.append(8));
    assert!(list.is_full());
    assert!(!list.append(9));
    assert_eq!(list.len(), 2);
    assert_eq!(*list.get(0), 7);
    assert_eq!(*list.get(1), 8);
    let mut none: List<u8> = List::new(0);
    assert!(none.is_full());
    assert!(!none.append(1));
}

#[test]
fn a_view_is_read_against_its_buffer() {
    let bytes = b"hello world";
    let view = Slice::new(6, 11);
    assert_eq!((view.offset, view.len), (6, 5));
    assert_eq!(view.into_bytes(bytes), b"world");
    assert_eq!(Slice::new(3, 3).into_bytes(bytes), b"");
    let all = Slice::from_bytes(bytes);
    assert_eq!(all.into_bytes(bytes), bytes);
}

#[test]
fn captures_are_kept_with_the_path() {
    let mut params = PathParams::new(b"/users/42/posts/7");
    assert_eq!(params.len(), 0);
    assert_eq!(params.get(0), None);
    params.append(7, 9);
    params.append(16, 17);
    assert_eq!(params.len(), 2);
    assert_eq!(params.get(0), Some(&b"42"[..]));
    assert_eq!(params.get(1), Some(&b"7"[..]));
    params.truncate(1);
    assert_eq!(params.len(), 1);
    assert_eq!(params.get(1), None);
}

#[test]
fn the_context_keeps_what_was_stored_last() {
    let mut ctx = Context::new();
    assert_eq!(ctx.get(b"user"), None);
    ctx.set(b"user", b"a".to_vec());
    ctx.set(b"role", b"admin".to_vec());
    ctx.set(b"user", b"b".to_vec());
    assert_eq!(ctx.get(b"user"), Some(&b"b"[..]));
    assert_eq!(ctx.get(b"role"), Some(&b"admin"[..]));
    assert_eq!(ctx.get(b"User"), None);
    ctx.headers.insert(b"X-Trace", b"1".to_vec());
    let res = ctx.respond(Status::Created);
    assert_eq!(res.status, Status::Created);
    assert!(res.content.is_none());
    assert_eq!(res.headers.get(b"x-trace"), Some(&b"1"[..]));
}

#[test]
fn a_parsed_request_is_well_formed() {
    let mut req = parse(Buffer::from_raw_str("GET /a?x=1 HTTP/1.1\r\nHost: h\r\n\r\n")).unwrap();
    assert!(req.is_well_formed());
    req.path = Slice::new(4, 400);
    assert!(!req.is_well_formed());
    req.path = Slice { offset: usize::MAX, len: 2 };
    assert!(!req.is_well_formed());
    req.path = Slice::new(4, 6);
    assert!(req.is_well_formed());
    req.headers.capacity = 0;
    assert!(!req.is_well_formed());
}
