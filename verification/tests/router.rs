use ohkami::context::Context;
use ohkami::fang::{BackFang, FrontFang};
use ohkami::method::Method;
use ohkami::request::Request;
use ohkami::response::status::Status;
use ohkami::response::Response;
use ohkami::router::node::PathParams;
use ohkami::router::pattern::{compile, Pattern};
use ohkami::router::table::{RegisterError, Router};
use ohkami::testing::Request as TestRequest;
use ohkami::request::parse::parse;
use std::sync::atomic::{AtomicUsize, Ordering};
use std::sync::Arc;

type Front = Box<dyn Fn(Request, Context) -> Result<(Request, Context), Response>>;
type Back = Box<dyn Fn(Response, &Request) -> Response>;
type Handler = Box<dyn Fn(&Request, Context, PathParams) -> Response>;
type TestRouter = Router<Front, Back, Handler>;

fn says(text: &'static str) -> Handler {
    Box::new(move |_req, ctx, _params| ctx.respond(Status::OK).text(text))
}

fn echoes_params() -> Handler {
    Box::new(|_req, ctx, params| {
        let mut parts: Vec<String> = Vec::new();
        for i in 0..params.len() {
            parts.push(String::from_utf8(params.get(i).unwrap().to_vec()).unwrap());
        }
        ctx.respond(Status::OK).text(&parts.join(","))
    })
}

fn request(method: Method, path: &'static str) -> Request {
    parse(TestRequest::new(method, path).into_request_buffer()).unwrap()
}

fn body_of(res: &Response) -> String {
    String::from_utf8(res.content.as_bytes().unwrap_or(b"").to_vec()).unwrap()
}

fn get(router: &TestRouter, path: &'static str) -> Response {
    router.handle(request(Method::GET, path), Context::new())
}

fn add(router: &mut TestRouter, method: Method, route: &str, handler: Handler) {
    router.register(method, route.as_bytes(), handler, Vec::new(), Vec::new()).unwrap();
}

#[test]
fn literal_routes_resolve_to_their_handlers() {
    let mut router = TestRouter::new();
    let routes = ["/", "/a", "/a/b", "/a/b/c", "/abc", "/a/", "/x/y/z", "/x/y"];
    for route in routes {
        add(&mut router, Method::GET, route, says(route));
    }
    for route in routes {
        let res = get(&router, route);
        assert_eq!(res.status, Status::OK, "{route}");
        assert_eq!(body_of(&res), route);
        let trail = router.get.walk(route.as_bytes());
        assert!(trail.matched);
        assert_eq!(trail.params.len(), 0);
        assert!(trail.nodes.last().unwrap().handler.is_some());
    }
    for path in ["/b", "/a/b/c/d", "/ab", "/x", "/x/", "//", "/a//b", "a"] {
        assert_eq!(get(&router, path).status, Status::NotFound, "{path}");
    }
}

#[test]
fn a_capture_takes_exactly_one_segment() {
    let mut router = TestRouter::new();
    add(&mut router, Method::GET, "/users/:id", echoes_params());
    let res = get(&router, "/users/42");
    assert_eq!(res.status, Status::OK);
    assert_eq!(body_of(&res), "42");

    let trail = router.get.walk(b"/users/42");
    assert!(trail.matched);
    assert_eq!(trail.params.len(), 1);
    assert_eq!(trail.params.get(0), Some(&b"42"[..]));
    assert_eq!(trail.params.get(1), None);

    assert_eq!(get(&router, "/users/42/extra").status, Status::NotFound);
    assert_eq!(get(&router, "/users").status, Status::NotFound);
    let trail = router.get.walk(b"/users/42/extra");
    assert!(!trail.matched);
    assert_eq!(trail.params.len(), 0);

    add(&mut router, Method::GET, "/users/:id/extra", says("deeper"));
    assert_eq!(body_of(&get(&router, "/users/42/extra")), "deeper");
    assert_eq!(body_of(&get(&router, "/users/42")), "42");
}

#[test]
fn several_captures_come_in_route_order() {
    let mut router = TestRouter::new();
    add(&mut router, Method::GET, "/a/:x/b/:y", echoes_params());
    assert_eq!(body_of(&get(&router, "/a/1/b/2")), "1,2");
    assert_eq!(body_of(&get(&router, "/a//b/")), ",");
    assert_eq!(get(&router, "/a/1/c/2").status, Status::NotFound);
}

#[test]
fn a_literal_is_preferred_over_a_capture() {
    let mut router = TestRouter::new();
    add(&mut router, Method::GET, "/a/:x", says("capture"));
    add(&mut router, Method::GET, "/a/b", says("literal"));
    assert_eq!(body_of(&get(&router, "/a/b")), "literal");
    assert_eq!(body_of(&get(&router, "/a/c")), "capture");

    let mut router = TestRouter::new();
    add(&mut router, Method::GET, "/a/b", says("literal"));
    add(&mut router, Method::GET, "/a/:x", says("capture"));
    assert_eq!(body_of(&get(&router, "/a/b")), "literal");
    assert_eq!(body_of(&get(&router, "/a/c")), "capture");
}

#[test]
fn a_walk_does_not_come_back_to_try_a_sibling() {
    let mut router = TestRouter::new();
    add(&mut router, Method::GET, "/a/b/c", says("abc"));
    add(&mut router, Method::GET, "/a/:x/d", says("axd"));
    assert_eq!(body_of(&get(&router, "/a/b/c")), "abc");
    assert_eq!(body_of(&get(&router, "/a/z/d")), "axd");
    assert_eq!(get(&router, "/a/b/d").status, Status::NotFound);
}

#[test]
fn shared_prefixes_are_merged_and_split() {
    let mut router = TestRouter::new();
    add(&mut router, Method::GET, "/api/v1/users", says("users"));
    assert_eq!(router.get.children.len(), 1);
    assert_eq!(router.get.children[0].patterns.len(), 3);

    add(&mut router, Method::GET, "/api/v1/items", says("items"));
    assert_eq!(router.get.children.len(), 1);
    let api = &router.get.children[0];
    assert_eq!(api.patterns.len(), 2);
    assert!(api.handler.is_none());
    assert_eq!(api.children.len(), 2);

    add(&mut router, Method::GET, "/api", says("api"));
    let api = &router.get.children[0];
    assert_eq!(api.patterns.len(), 1);
    assert!(api.handler.is_some());
    assert_eq!(api.children.len(), 1);
    assert_eq!(api.children[0].patterns.len(), 1);

    assert_eq!(body_of(&get(&router, "/api/v1/users")), "users");
    assert_eq!(body_of(&get(&router, "/api/v1/items")), "items");
    assert_eq!(body_of(&get(&router, "/api")), "api");
    assert_eq!(get(&router, "/api/v1").status, Status::NotFound);
}

#[test]
fn methods_have_their_own_routes() {
    let mut router = TestRouter::new();
    add(&mut router, Method::GET, "/r", says("get"));
    add(&mut router, Method::PUT, "/r", says("put"));
    add(&mut router, Method::POST, "/r", says("post"));
    add(&mut router, Method::PATCH, "/r", says("patch"));
    add(&mut router, Method::DELETE, "/r", says("delete"));
    for (method, text) in [
        (Method::GET, "get"),
        (Method::PUT, "put"),
        (Method::POST, "post"),
        (Method::PATCH, "patch"),
        (Method::DELETE, "delete"),
    ] {
        let res = router.handle(request(method, "/r"), Context::new());
        assert_eq!(body_of(&res), text);
        assert!(router.has_route(method, b"/r"));
        assert!(!router.has_route(method, b"/other"));
    }
    let mut only_get = TestRouter::new();
    add(&mut only_get, Method::GET, "/r", says("get"));
    let res = only_get.handle(request(Method::POST, "/r"), Context::new());
    assert_eq!(res.status, Status::NotFound);
}

#[test]
fn registration_errors() {
    let mut router = TestRouter::new();
    let err = |r: Result<(), RegisterError>| r.unwrap_err();
    assert_eq!(
        err(router.register(Method::HEAD, b"/a", says("x"), Vec::new(), Vec::new())),
        RegisterError::NotRoutable
    );
    assert_eq!(
        err(router.register(Method::OPTIONS, b"nonsense", says("x"), Vec::new(), Vec::new())),
        RegisterError::NotRoutable
    );
    assert_eq!(
        err(router.register(Method::GET, b"", says("x"), Vec::new(), Vec::new())),
        RegisterError::InvalidPattern
    );
    assert_eq!(
        err(router.register(Method::GET, b"a/b", says("x"), Vec::new(), Vec::new())),
        RegisterError::InvalidPattern
    );
    add(&mut router, Method::GET, "/a/:id", says("first"));
    assert_eq!(
        err(router.register(Method::GET, b"/a/:other", says("second"), Vec::new(), Vec::new())),
        RegisterError::Duplicate
    );
    assert_eq!(body_of(&get(&router, "/a/1")), "first");
    assert!(router.register(Method::PUT, b"/a/:id", says("put"), Vec::new(), Vec::new()).is_ok());
}

#[test]
fn route_strings_compile_to_patterns() {
    let pats = compile(b"/users/:id/posts/").unwrap();
    assert_eq!(pats.len(), 4);
    assert!(matches!(&pats[0], Pattern::Static(s) if s == b"users"));
    assert!(matches!(&pats[1], Pattern::Param));
    assert!(matches!(&pats[2], Pattern::Static(s) if s == b"posts"));
    assert!(matches!(&pats[3], Pattern::Static(s) if s.is_empty()));
    assert!(matches!(compile(b"/").as_deref(), Some([Pattern::Static(s)]) if s.is_empty()));
    assert!(compile(b"").is_none());
    assert!(compile(b"users").is_none());
}

fn counting_front(counter: &Arc<AtomicUsize>) -> FrontFang<Front> {
    let counter = Arc::clone(counter);
    FrontFang(Box::new(move |req, ctx| {
        counter.fetch_add(1, Ordering::SeqCst);
        Ok((req, ctx))
    }))
}

fn rejecting_front(status: Status, text: &'static str) -> FrontFang<Front> {
    FrontFang(Box::new(move |_req, ctx| Err(ctx.respond(status).text(text))))
}

fn tagging_back(name: &'static str, value: &'static str) -> BackFang<Back> {
    BackFang(Box::new(move |mut res, _req| {
        let mut seen = res.headers.get(b"X-Order").map(|v| v.to_vec()).unwrap_or_default();
        seen.extend_from_slice(value.as_bytes());
        res.headers.insert(b"X-Order", seen);
        res.headers.insert(name.as_bytes(), value.as_bytes().to_vec());
        res
    }))
}

#[test]
fn a_rejecting_front_fang_ends_the_request() {
    let handled = Arc::new(AtomicUsize::new(0));
    let backed = Arc::new(AtomicUsize::new(0));
    let later = Arc::new(AtomicUsize::new(0));
    let mut router = TestRouter::new();
    let handler: Handler = {
        let handled = Arc::clone(&handled);
        Box::new(move |_req, ctx, _params| {
            handled.fetch_add(1, Ordering::SeqCst);
            ctx.respond(Status::OK)
        })
    };
    let back: BackFang<Back> = {
        let backed = Arc::clone(&backed);
        BackFang(Box::new(move |res, _req| {
            backed.fetch_add(1, Ordering::SeqCst);
            res
        }))
    };
    router
        .register(
            Method::GET,
            b"/secret",
            handler,
            vec![rejecting_front(Status::Unauthorized, "who are you?"), counting_front(&later)],
            vec![back],
        )
        .unwrap();
    let res = get(&router, "/secret");
    assert_eq!(res.status, Status::Unauthorized);
    assert_eq!(body_of(&res), "who are you?");
    assert_eq!(res.headers.entries.len(), 2);
    assert_eq!(handled.load(Ordering::SeqCst), 0);
    assert_eq!(backed.load(Ordering::SeqCst), 0);
    assert_eq!(later.load(Ordering::SeqCst), 0);
}

#[test]
fn front_fangs_run_from_the_root_down_and_back_fangs_at_the_leaf_only() {
    let order = Arc::new(std::sync::Mutex::new(Vec::<&'static str>::new()));
    let note = |name: &'static str| -> FrontFang<Front> {
        let order = Arc::clone(&order);
        FrontFang(Box::new(move |req, ctx| {
            order.lock().unwrap().push(name);
            Ok((req, ctx))
        }))
    };
    let mut router = TestRouter::new();
    router
        .register(
            Method::GET,
            b"/a",
            says("a"),
            vec![note("a1"), note("a2")],
            vec![tagging_back("X-A", "A")],
        )
        .unwrap();
    router
        .register(
            Method::GET,
            b"/a/b",
            says("ab"),
            vec![note("b1")],
            vec![tagging_back("X-B1", "1"), tagging_back("X-B2", "2")],
        )
        .unwrap();

    let res = get(&router, "/a/b");
    assert_eq!(body_of(&res), "ab");
    assert_eq!(*order.lock().unwrap(), vec!["a1", "a2", "b1"]);
    assert_eq!(res.headers.get(b"X-Order"), Some(&b"12"[..]));
    assert_eq!(res.headers.get(b"X-A"), None);

    order.lock().unwrap().clear();
    let res = get(&router, "/a");
    assert_eq!(body_of(&res), "a");
    assert_eq!(*order.lock().unwrap(), vec!["a1", "a2"]);
    assert_eq!(res.headers.get(b"X-Order"), Some(&b"A"[..]));

    order.lock().unwrap().clear();
    let res = get(&router, "/a/zzz");
    assert_eq!(res.status, Status::NotFound);
    assert_eq!(*order.lock().unwrap(), vec!["a1", "a2"]);
}

#[test]
fn front_fangs_hand_the_context_on_to_the_handler() {
    let mut router = TestRouter::new();
    let login: FrontFang<Front> = FrontFang(Box::new(|req, mut ctx| {
        ctx.set(b"user", b"ohkami".to_vec());
        ctx.set(b"user", b"wolf".to_vec());
        ctx.headers.insert(b"Server", b"ohkami".to_vec());
        Ok((req, ctx))
    }));
    let handler: Handler = Box::new(|_req, ctx, _params| {
        let user = String::from_utf8(ctx.get(b"user").unwrap().to_vec()).unwrap();
        assert_eq!(ctx.get(b"nobody"), None);
        ctx.respond(Status::OK).text(&user)
    });
    router.register(Method::GET, b"/me", handler, vec![login], Vec::new()).unwrap();
    let res = get(&router, "/me");
    assert_eq!(body_of(&res), "wolf");
    assert_eq!(res.headers.get(b"Server"), Some(&b"ohkami"[..]));
}

#[test]
fn head_mirrors_get_without_content() {
    let mut router = TestRouter::new();
    router
        .register(Method::GET, b"/page", says("a page"), Vec::new(), vec![tagging_back("X-Tag", "t")])
        .unwrap();
    let got = get(&router, "/page");
    let head = router.handle(request(Method::HEAD, "/page"), Context::new());
    assert_eq!(got.status, Status::OK);
    assert_eq!(head.status, Status::NoContent);
    assert!(head.content.is_none());
    assert_eq!(head.headers.entries, got.headers.entries);
    assert_eq!(head.headers.get(b"Content-Length"), Some(&b"6"[..]));
    assert_eq!(head.headers.get(b"X-Tag"), Some(&b"t"[..]));

    let missing_get = get(&router, "/missing");
    let missing_head = router.handle(request(Method::HEAD, "/missing"), Context::new());
    assert_eq!(missing_get.status, Status::NotFound);
    assert_eq!(missing_head.status, Status::NotFound);
}

#[test]
fn head_has_interceptors_of_its_own() {
    let seen = Arc::new(AtomicUsize::new(0));
    let mut router = TestRouter::new();
    add(&mut router, Method::GET, "/page", says("a page"));
    router.set_head_fangs(vec![counting_front(&seen)], vec![tagging_back("X-Head", "yes")]);
    let head = router.handle(request(Method::HEAD, "/page"), Context::new());
    assert_eq!(head.status, Status::NoContent);
    assert_eq!(head.headers.get(b"X-Head"), Some(&b"yes"[..]));
    assert_eq!(seen.load(Ordering::SeqCst), 1);
    let got = get(&router, "/page");
    assert_eq!(got.headers.get(b"X-Head"), None);
    assert_eq!(seen.load(Ordering::SeqCst), 1);

    router.set_head_fangs(vec![rejecting_front(Status::Forbidden, "no")], Vec::new());
    let head = router.handle(request(Method::HEAD, "/page"), Context::new());
    assert_eq!(head.status, Status::Forbidden);
    assert_eq!(body_of(&head), "no");
}

#[test]
fn routes_are_merged_under_a_prefix() {
    let mut api = TestRouter::new();
    add(&mut api, Method::GET, "/users", says("users"));
    add(&mut api, Method::GET, "/users/:id", echoes_params());
    add(&mut api, Method::POST, "/users", says("created"));
    let mut router = TestRouter::new();
    add(&mut router, Method::GET, "/", says("home"));
    add(&mut router, Method::GET, "/api/health", says("ok"));
    router.merge(api, b"/api").unwrap();
    assert_eq!(body_of(&get(&router, "/")), "home");
    assert_eq!(body_of(&get(&router, "/api/health")), "ok");
    assert_eq!(body_of(&get(&router, "/api/users")), "users");
    assert_eq!(body_of(&get(&router, "/api/users/7")), "7");
    assert_eq!(body_of(&router.handle(request(Method::POST, "/api/users"), Context::new())), "created");
    assert_eq!(get(&router, "/users").status, Status::NotFound);

    let mut plain = TestRouter::new();
    add(&mut plain, Method::GET, "/x", says("x"));
    router.merge(plain, b"").unwrap();
    assert_eq!(body_of(&get(&router, "/x")), "x");
}

#[test]
fn a_merge_that_clashes_changes_nothing() {
    let mut router = TestRouter::new();
    add(&mut router, Method::GET, "/api/users", says("mine"));
    let mut api = TestRouter::new();
    add(&mut api, Method::GET, "/items", says("items"));
    add(&mut api, Method::GET, "/users", says("theirs"));
    assert_eq!(router.merge(api, b"/api").unwrap_err(), RegisterError::Duplicate);
    assert_eq!(body_of(&get(&router, "/api/users")), "mine");
    assert_eq!(get(&router, "/api/items").status, Status::NotFound);

    let mut other = TestRouter::new();
    add(&mut other, Method::GET, "/y", says("y"));
    assert_eq!(router.merge(other, b"api").unwrap_err(), RegisterError::InvalidPattern);
}

#[test]
fn merged_routes_keep_their_interceptors() {
    let seen = Arc::new(AtomicUsize::new(0));
    let mut api = TestRouter::new();
    api.register(
        Method::GET,
        b"/guarded",
        says("in"),
        vec![counting_front(&seen)],
        vec![tagging_back("X-Api", "1")],
    )
    .unwrap();
    let mut router = TestRouter::new();
    router.merge(api, b"/v1").unwrap();
    let res = get(&router, "/v1/guarded");
    assert_eq!(body_of(&res), "in");
    assert_eq!(res.headers.get(b"X-Api"), Some(&b"1"[..]));
    assert_eq!(seen.load(Ordering::SeqCst), 1);
}

#[test]
fn a_route_may_not_hold_more_captures_than_a_request_may_capture() {
    let mut router = TestRouter::new();
    assert_eq!(router.params_limit, 2);
    assert_eq!(
        router
            .register(Method::GET, b"/a/:x/:y/:z", echoes_params(), Vec::new(), Vec::new())
            .unwrap_err(),
        RegisterError::TooManyParams
    );
    assert!(!router.has_route(Method::GET, b"/a/:x/:y/:z"));
    add(&mut router, Method::GET, "/a/:x/:y", echoes_params());
    assert_eq!(body_of(&get(&router, "/a/1/2")), "1,2");

    let mut wide = TestRouter::with_capacity(3);
    add(&mut wide, Method::GET, "/a/:x/:y/:z", echoes_params());
    assert_eq!(body_of(&get(&wide, "/a/1/2/3")), "1,2,3");
    let mut none = TestRouter::with_capacity(0);
    assert_eq!(
        none.register(Method::GET, b"/:x", echoes_params(), Vec::new(), Vec::new()).unwrap_err(),
        RegisterError::TooManyParams
    );
    add(&mut none, Method::GET, "/x", says("x"));
}

#[test]
fn a_merge_may_not_make_routes_with_too_many_captures() {
    let mut api = TestRouter::new();
    add(&mut api, Method::GET, "/:a/:b", echoes_params());
    let mut router = TestRouter::new();
    add(&mut router, Method::GET, "/home", says("home"));
    assert_eq!(router.merge(api, b"/:tenant").unwrap_err(), RegisterError::TooManyParams);
    assert_eq!(get(&router, "/t/1/2").status, Status::NotFound);
    assert_eq!(body_of(&get(&router, "/home")), "home");

    let mut api = TestRouter::new();
    add(&mut api, Method::GET, "/:a", echoes_params());
    router.merge(api, b"/:tenant").unwrap();
    assert_eq!(body_of(&get(&router, "/t/1")), "t,1");
}

#[test]
fn unparsable_bytes_are_answered_as_bad_requests() {
    let mut router = TestRouter::new();
    add(&mut router, Method::GET, "/", says("home"));
    let res = router.respond_to(ohkami::buffer::Buffer::from_raw_str("GET / HTTP/1.1\r\n\r\n"));
    assert_eq!(body_of(&res), "home");
    let cases = [
        ("nonsense", "malformed request"),
        ("BREW / HTTP/1.1\r\n\r\n", "unknown method"),
        ("GET /?a&b&c&d&e HTTP/1.1\r\n\r\n", "too many query parameters"),
        (
            "POST / HTTP/1.1\r\nContent-Type: x/y\r\nContent-Length: 0\r\n\r\n",
            "invalid content type",
        ),
    ];
    for (text, why) in cases {
        let res = router.respond_to(ohkami::buffer::Buffer::from_raw_str(text));
        assert_eq!(res.status, Status::BadRequest);
        assert_eq!(body_of(&res), why);
    }
    let mut many = String::from("GET / HTTP/1.1\r\n");
    for i in 0..33 {
        many.push_str(&format!("H{i}: v\r\n"));
    }
    many.push_str("\r\n");
    let res = router.respond_to(ohkami::buffer::Buffer::from_raw_str(&many));
    assert_eq!(res.status, Status::BadRequest);
    assert_eq!(body_of(&res), "too many headers");
}

fn unresolved(router: &TestRouter, path: &'static str) -> Response {
    match router.get.search(request(Method::GET, path), Context::new()) {
        Ok(_) => panic!("resolved: {path}"),
        Err(res) => res,
    }
}

#[test]
fn resolving_gives_the_route_and_the_captures() {
    let mut router = TestRouter::new();
    add(&mut router, Method::GET, "/users/:id", echoes_params());
    router
        .register(
            Method::GET,
            b"/closed",
            says("never"),
            vec![rejecting_front(Status::Forbidden, "closed")],
            Vec::new(),
        )
        .unwrap();
    add(&mut router, Method::GET, "/a/b", says("ab"));

    let found = match router.get.search(request(Method::GET, "/users/42"), Context::new()) {
        Ok(found) => found,
        Err(res) => panic!("not resolved: {:?}", res.status),
    };
    assert_eq!(found.params.len(), 1);
    assert_eq!(found.params.get(0), Some(&b"42"[..]));
    assert_eq!(found.request.path(), "/users/42");
    assert!(found.node.handler.is_some());
    let answered = found.node.handle(&found.request, found.context, found.params);
    assert_eq!(body_of(&answered), "42");

    let missing = unresolved(&router, "/nowhere");
    assert_eq!(missing.status, Status::NotFound);
    let branch = unresolved(&router, "/a");
    assert_eq!(branch.status, Status::NotFound);
    let closed = unresolved(&router, "/closed");
    assert_eq!(closed.status, Status::Forbidden);
    assert_eq!(body_of(&closed), "closed");
}

#[test]
fn a_capture_route_is_found_unless_a_literal_takes_its_place() {
    let mut router = TestRouter::new();
    assert!(router.get.children.is_empty() && router.get.handler.is_none());
    add(&mut router, Method::GET, "/:id", echoes_params());
    assert_eq!(body_of(&get(&router, "/42")), "42");
    add(&mut router, Method::GET, "/42/more", says("more"));
    assert_eq!(get(&router, "/42").status, Status::NotFound);
    assert_eq!(body_of(&get(&router, "/43")), "43");
    assert_eq!(body_of(&get(&router, "/42/more")), "more");
}

#[test]
fn a_literal_child_is_taken_wherever_it_stands() {
    let leaf = |pattern: Pattern, text: &'static str| ohkami::router::node::Node::<Front, Back, Handler> {
        patterns: vec![pattern],
        front: Vec::new(),
        handler: Some(says(text)),
        back: Vec::new(),
        children: Vec::new(),
    };
    let mut root = ohkami::router::node::Node::<Front, Back, Handler>::new();
    root.children.push(leaf(Pattern::Param, "capture"));
    root.children.push(leaf(Pattern::Static(b"b".to_vec()), "literal"));
    root.children.push(leaf(Pattern::Param, "late capture"));
    root.children.push(leaf(Pattern::Static(b"b".to_vec()), "late literal"));
    assert_eq!(root.matchable_child(b"/b", 0), Some(1));
    assert_eq!(root.matchable_child(b"/c", 0), Some(0));
    assert_eq!(root.matchable_child(b"/b/x", 0), Some(1));
    let trail = root.walk(b"/b");
    assert!(trail.matched);
    assert_eq!(trail.params.len(), 0);
    let trail = root.walk(b"/c");
    assert!(trail.matched);
    assert_eq!(trail.params.get(0), Some(&b"c"[..]));
    let mut only = ohkami::router::node::Node::<Front, Back, Handler>::new();
    only.children.push(leaf(Pattern::Static(b"a".to_vec()), "a"));
    assert_eq!(only.matchable_child(b"/b", 0), None);
}

#[test]
fn the_router_resolves_by_method() {
    let mut router = TestRouter::new();
    add(&mut router, Method::PUT, "/things/:id", echoes_params());
    let found = match router.resolve(request(Method::PUT, "/things/9"), Context::new()) {
        Ok(found) => found,
        Err(res) => panic!("not resolved: {:?}", res.status),
    };
    assert_eq!(found.params.get(0), Some(&b"9"[..]));
    assert!(router.resolve(request(Method::GET, "/things/9"), Context::new()).is_err());
}
