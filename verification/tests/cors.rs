use ohkami::buffer::Buffer;
use ohkami::context::Context;
use ohkami::fang::{split_fangs, BackFang, Fang, Fangs, FrontFang, IntoFang};
use ohkami::method::Method;
use ohkami::request::parse::parse;
use ohkami::request::Request;
use ohkami::response::status::Status;
use ohkami::response::Response;
use ohkami::router::cors::{AllowOrigin, Cors};
use ohkami::router::node::PathParams;
use ohkami::router::table::Router;
use ohkami::address::TCPAddress;

type Front = Box<dyn Fn(Request, Context) -> Result<(Request, Context), Response>>;
type Back = Box<dyn Fn(Response, &Request) -> Response>;
type Handler = Box<dyn Fn(&Request, Context, PathParams) -> Response>;
type TestRouter = Router<Front, Back, Handler>;

fn policy() -> Cors {
    Cors {
        allow_origin: AllowOrigin::Only(vec![b"https://a.example".to_vec(), b"https://b.example".to_vec()]),
        allow_credentials: false,
        allow_methods: Some(vec![Method::GET, Method::POST]),
        allow_headers: Some(vec![b"Content-Type".to_vec(), b"X-Custom".to_vec()]),
    }
}

fn preflight(headers: &[(&str, &str)]) -> Request {
    let mut text = String::from("OPTIONS /anything HTTP/1.1\r\n");
    for (name, value) in headers {
        text.push_str(&format!("{name}: {value}\r\n"));
    }
    text.push_str("\r\n");
    parse(Buffer::from_raw_str(&text)).unwrap()
}

fn answer(router: &TestRouter, headers: &[(&str, &str)]) -> Response {
    router.handle(preflight(headers), Context::new())
}

fn with_policy(cors: Cors) -> TestRouter {
    let mut router = TestRouter::new();
    router.set_cors_policy(
        cors.allow_origin,
        cors.allow_methods,
        cors.allow_headers,
        cors.allow_credentials,
    );
    router
}

#[test]
fn options_without_a_policy_is_a_server_error() {
    let router = TestRouter::new();
    let res = answer(&router, &[("Origin", "https://a.example")]);
    assert_eq!(res.status, Status::InternalServerError);
    assert!(res.content.is_none());
}

#[test]
fn options_without_origin_is_a_bad_request() {
    let router = with_policy(policy());
    let res = answer(&router, &[("Access-Control-Request-Method", "GET")]);
    assert_eq!(res.status, Status::BadRequest);
    assert_eq!(res.headers.get(b"Vary"), Some(&b"Origin"[..]));
}

#[test]
fn options_from_an_unlisted_origin_is_forbidden() {
    let router = with_policy(policy());
    let res = answer(&router, &[("Origin", "https://evil.example")]);
    assert_eq!(res.status, Status::Forbidden);
    assert_eq!(res.headers.get(b"Access-Control-Allow-Origin"), None);
    let res = answer(&router, &[("Origin", "https://a.example/")]);
    assert_eq!(res.status, Status::Forbidden);
}

#[test]
fn an_allowed_preflight_gets_no_content_and_the_cors_headers() {
    let router = with_policy(policy());
    let res = answer(
        &router,
        &[
            ("Origin", "https://b.example"),
            ("Access-Control-Request-Method", "POST"),
            ("Access-Control-Request-Headers", "X-Custom, Content-Type"),
        ],
    );
    assert_eq!(res.status, Status::NoContent);
    assert!(res.content.is_none());
    assert_eq!(res.headers.get(b"Vary"), Some(&b"Origin"[..]));
    assert_eq!(res.headers.get(b"Access-Control-Allow-Origin"), Some(&b"https://b.example"[..]));
    assert_eq!(res.headers.get(b"Access-Control-Allow-Methods"), Some(&b"GET, POST"[..]));
    assert_eq!(
        res.headers.get(b"Access-Control-Allow-Headers"),
        Some(&b"Content-Type, X-Custom"[..])
    );
    assert_eq!(res.headers.get(b"Access-Control-Allow-Credentials"), None);
    assert_eq!(res.headers.get(b"Content-Length"), None);
}

#[test]
fn asking_for_what_the_policy_does_not_allow_is_forbidden() {
    let router = with_policy(policy());
    let origin = ("Origin", "https://a.example");
    for extra in [
        ("Access-Control-Request-Method", "DELETE"),
        ("Access-Control-Request-Method", "BREW"),
        ("Access-Control-Request-Headers", "X-Custom, X-Other"),
        ("Access-Control-Request-Headers", "x-custom"),
        ("Authorization", "Bearer token"),
    ] {
        assert_eq!(answer(&router, &[origin, extra]).status, Status::Forbidden, "{extra:?}");
    }
    assert_eq!(answer(&router, &[origin]).status, Status::NoContent);
}

#[test]
fn a_policy_without_lists_allows_no_asking() {
    let router = with_policy(Cors {
        allow_origin: AllowOrigin::Any,
        allow_credentials: true,
        allow_methods: None,
        allow_headers: None,
    });
    let origin = ("Origin", "https://anyone.example");
    let res = answer(&router, &[origin, ("Authorization", "Bearer token")]);
    assert_eq!(res.status, Status::NoContent);
    assert_eq!(res.headers.get(b"Access-Control-Allow-Origin"), Some(&b"*"[..]));
    assert_eq!(res.headers.get(b"Access-Control-Allow-Credentials"), Some(&b"true"[..]));
    assert_eq!(res.headers.get(b"Access-Control-Allow-Methods"), None);
    assert_eq!(
        answer(&router, &[origin, ("Access-Control-Request-Method", "GET")]).status,
        Status::Forbidden
    );
    assert_eq!(
        answer(&router, &[origin, ("Access-Control-Request-Headers", "X-A")]).status,
        Status::Forbidden
    );
}

#[test]
fn options_has_interceptors_of_its_own() {
    let mut router = with_policy(policy());
    let back: BackFang<Back> = BackFang(Box::new(|mut res, _req| {
        res.headers.insert(b"X-Preflight", b"done".to_vec());
        res
    }));
    router.set_options_fangs(Vec::new(), vec![back]);
    let res = answer(&router, &[("Origin", "https://a.example")]);
    assert_eq!(res.status, Status::NoContent);
    assert_eq!(res.headers.get(b"X-Preflight"), Some(&b"done"[..]));
    let res = answer(&router, &[]);
    assert_eq!(res.status, Status::BadRequest);
    assert_eq!(res.headers.get(b"X-Preflight"), None);

    let front: FrontFang<Front> =
        FrontFang(Box::new(|_req, ctx| Err(ctx.respond(Status::Unauthorized))));
    router.set_options_fangs(vec![front], Vec::new());
    let res = answer(&router, &[("Origin", "https://a.example")]);
    assert_eq!(res.status, Status::Unauthorized);
    assert_eq!(res.headers.get(b"Vary"), None);
}

#[test]
fn the_policy_checks_are_exact() {
    let cors = policy();
    assert!(cors.allows_origin(b"https://a.example"));
    assert!(!cors.allows_origin(b"https://A.example"));
    assert!(cors.allows_method(b"GET"));
    assert!(!cors.allows_method(b"PUT"));
    assert!(cors.allows_headers(b"Content-Type"));
    assert!(cors.allows_headers(b" Content-Type ,  X-Custom"));
    assert!(!cors.allows_headers(b"Content-Type,\tX-Custom"));
    assert!(!cors.allows_headers(b"Content-Type,"));
    assert!(!cors.allows_headers(b""));
}

#[test]
fn fangs_are_sorted_by_kind_in_order() {
    let f = |n: u8| -> Fang<u8, u8> { Fang::front(n) };
    let b = |n: u8| -> Fang<u8, u8> { Fang::back(n) };
    assert!(f(1).is_front());
    assert!(!b(1).is_front());
    let (front, back) = split_fangs(vec![f(1), b(2), b(3), f(4), f(5)]);
    assert_eq!(front.iter().map(|x| x.0).collect::<Vec<u8>>(), vec![1, 4, 5]);
    assert_eq!(back.iter().map(|x| x.0).collect::<Vec<u8>>(), vec![2, 3]);
    let (front, back) = split_fangs(Vec::<Fang<u8, u8>>::new());
    assert!(front.is_empty() && back.is_empty());
}

#[test]
fn fangs_are_collected_in_order() {
    let none: Vec<Fang<u8, u8>> = ().collect();
    assert!(none.is_empty());
    let one: Vec<Fang<u8, u8>> = (FrontFang(1u8),).collect();
    assert_eq!(one.len(), 1);
    assert!(one[0].is_front());
    let three: Vec<Fang<u8, u8>> = (BackFang(1u8), FrontFang(2u8), Fang::back(3u8)).collect();
    assert_eq!(three.iter().map(|x| x.is_front()).collect::<Vec<bool>>(), vec![false, true, false]);
    let four: Vec<Fang<u8, u8>> =
        (FrontFang(1u8), FrontFang(2u8), BackFang(3u8), BackFang(4u8)).collect();
    assert_eq!(four.len(), 4);
    let two: Vec<Fang<u8, u8>> = (FrontFang(1u8), BackFang(2u8)).collect();
    let again: Vec<Fang<u8, u8>> = two.collect();
    assert_eq!(again.len(), 2);
    let made: Fang<u8, u8> = FrontFang(9u8).into_fang();
    assert!(made.is_front());
}

#[test]
fn addresses_to_listen_on() {
    assert_eq!(3000u16.parse(), "0.0.0.0:3000");
    assert_eq!(0u16.parse(), "0.0.0.0:0");
    assert_eq!(49151u16.parse(), "0.0.0.0:49151");
    assert_eq!(TCPAddress::parse(":8080"), "0.0.0.0:8080");
    assert_eq!(TCPAddress::parse("localhost:5000"), "127.0.0.1:5000");
    assert_eq!(TCPAddress::parse("localhost.localhost:1"), "127.0.0.1.127.0.0.1:1");
    assert_eq!(TCPAddress::parse("localhostlocalhos"), "127.0.0.1localhos");
    assert_eq!(TCPAddress::parse("192.168.1.2:80"), "192.168.1.2:80");
    assert_eq!(TCPAddress::parse(""), "");
    assert_eq!(TCPAddress::parse("local"), "local");
}
