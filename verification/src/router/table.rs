//! The router: one routing tree per method, the interceptors of `HEAD` and
//! `OPTIONS`, and the policy for cross-origin requests.

use crate::context::{is_bare, Context};
use crate::fang::{
    back_run, backs_total, front_run, fronts_total, lemma_back_run_none, lemma_front_run_none,
    run_back, run_front, BackFang, FrontFang, State, Verdict,
};
use crate::fields::{lookup, Field};
use crate::method::Method;
use crate::buffer::Buffer;
use crate::request::grammar::parsed;
use crate::request::parse::parse;
use crate::request::{Request, HEADERS_LIMIT, QUERIES_LIMIT};
use crate::response::typed::IntoResponse;
use crate::response::content::Content;
use crate::response::status::Status;
use crate::response::{without_body_headers, Response};
use crate::router::cors::{announced, granted, preflight_status, AllowOrigin, Cors};
use crate::router::dispatch::{
    callable, handled, handler_total, lemma_trail_fangs_none, resolved, served, settled,
    trail_fangs, Resolved, Served,
};
use crate::router::node::{route, Node, PathParams};
use crate::router::pattern::{
    all_static, capture_count, captures, compile, compiled, count_captures, pattern_of, segments,
    PatternView,
};
use crate::router::trie::{
    accepts_all, bounded, entry_at, lemma_route_found, lemma_static_route, lemma_walk_bounded,
    lemma_walk_entries, lemma_walk_sound, unchallenged, way, Entry,
};
use vstd::prelude::*;
use vstd::string::StringSliceAdditionalSpecFns;

verus! {

/// Why a route could not be registered.
#[derive(Clone, Copy, Debug, PartialEq, Eq, Structural)]
pub enum RegisterError {
    /// Routes cannot be registered for `HEAD` or `OPTIONS`: the router
    /// answers these methods itself.
    NotRoutable,
    /// The route string is empty or does not start with `/`.
    InvalidPattern,
    /// The route holds more captures than a request may capture.
    TooManyParams,
    /// The method already has a handler for this route.
    Duplicate,
}

/// How many segments a request may capture by default.
pub const PARAMS_LIMIT: usize = 2;

/// The router.
pub struct Router<F, B, H> {
    /// The routes of `GET`.
    pub get: Node<F, B, H>,
    /// The routes of `PUT`.
    pub put: Node<F, B, H>,
    /// The routes of `POST`.
    pub post: Node<F, B, H>,
    /// The routes of `PATCH`.
    pub patch: Node<F, B, H>,
    /// The routes of `DELETE`.
    pub delete: Node<F, B, H>,
    /// The front interceptors of `HEAD`.
    pub head_front: Vec<FrontFang<F>>,
    /// The back interceptors of `HEAD`.
    pub head_back: Vec<BackFang<B>>,
    /// The front interceptors of `OPTIONS`.
    pub options_front: Vec<FrontFang<F>>,
    /// The back interceptors of `OPTIONS`.
    pub options_back: Vec<BackFang<B>>,
    /// The policy for cross-origin requests, if one was set.
    pub cors: Option<Cors>,
    /// How many segments a request may capture.
    pub params_limit: usize,
}

/// Whether routes can be registered for `method`.
pub open spec fn routable(method: Method) -> bool {
    method != Method::HEAD && method != Method::OPTIONS
}

/// Whether `res` answers a `HEAD` request whose lookup in the `GET` tree
/// gave `got`: where a handler ran, `res` is what the back interceptors of
/// `HEAD` make of the bare "no content" response with the headers of `got`;
/// otherwise it is `got` itself.
pub open spec fn head_finish<B: Fn(Response, &Request) -> Response>(
    head_back: Seq<BackFang<B>>,
    got: Response,
    after: Option<Request>,
    res: Response,
) -> bool {
    match after {
        None => res == got,
        Some(req) => exists|bare: Response, trace: Seq<Response>|
            is_bare(bare, Status::NoContent, got.headers@) && #[trigger] back_run(
                head_back,
                req,
                bare,
                trace,
                res,
            ),
    }
}

/// Whether `res` answers a preflight that got through the front
/// interceptors of `OPTIONS` as `state`.
///
/// The context's headers announce the policy.  A preflight that the policy
/// turns down gets the bare response with the status that says so.  An
/// allowed one gets what the back interceptors of `OPTIONS` make of the
/// bare "no content" response, whose headers also grant the origin and
/// describe no content.
pub open spec fn options_finish<B: Fn(Response, &Request) -> Response>(
    options_back: Seq<BackFang<B>>,
    cors: Cors,
    state: State,
    res: Response,
) -> bool {
    let status = preflight_status(cors@, state.0@.headers);
    let base = announced(cors@, state.1.headers@);
    if status == Status::NoContent {
        exists|bare: Response, trace: Seq<Response>|
            is_bare(
                bare,
                Status::NoContent,
                without_body_headers(
                    granted(cors@, base, lookup(state.0@.headers, "Origin".spec_bytes())->0),
                ),
            ) && #[trigger] back_run(options_back, state.0, bare, trace, res)
    } else {
        is_bare(res, status, base)
    }
}

impl<
    F: Fn(Request, Context) -> Verdict,
    B: Fn(Response, &Request) -> Response,
    H: Fn(&Request, Context, PathParams) -> Response,
> Router<F, B, H> {
    /// The tree that holds the routes of `method`.  `HEAD` requests are
    /// looked up among the routes of `GET`.
    pub open spec fn tree(&self, method: Method) -> Node<F, B, H> {
        match method {
            Method::GET => self.get,
            Method::PUT => self.put,
            Method::POST => self.post,
            Method::PATCH => self.patch,
            Method::DELETE => self.delete,
            Method::HEAD => self.get,
            Method::OPTIONS => self.get,
        }
    }

    /// Whether `root` is the root of a tree as registration keeps it: it
    /// has the shape that insertion keeps and no patterns of its own, and
    /// no route holds more captures than a request may capture.
    pub open spec fn root_ok(&self, root: Node<F, B, H>) -> bool {
        root.wf() && root.patterns@.len() == 0 && bounded(root, self.params_limit as int)
    }

    /// Every tree is as registration keeps it.
    pub open spec fn wf(&self) -> bool {
        &&& self.root_ok(self.get)
        &&& self.root_ok(self.put)
        &&& self.root_ok(self.post)
        &&& self.root_ok(self.patch)
        &&& self.root_ok(self.delete)
    }

    /// Whether the router holds nothing: every tree is a bare root.
    pub open spec fn is_empty(&self) -> bool {
        &&& self.get.is_bare()
        &&& self.put.is_bare()
        &&& self.post.is_bare()
        &&& self.patch.is_bare()
        &&& self.delete.is_bare()
    }

    /// Every interceptor and handler of the router may be called.
    pub open spec fn sound(&self) -> bool {
        &&& callable(self.get)
        &&& callable(self.put)
        &&& callable(self.post)
        &&& callable(self.patch)
        &&& callable(self.delete)
        &&& fronts_total(self.head_front@)
        &&& backs_total(self.head_back@)
        &&& fronts_total(self.options_front@)
        &&& backs_total(self.options_back@)
    }

    /// Whether `res` answers a `HEAD` request that got through the front
    /// interceptors of `HEAD` with `verdict`.
    pub open spec fn head_after(&self, verdict: Verdict, res: Response) -> bool {
        match verdict {
            Err(r) => res == r,
            Ok(state) => exists|got: Response, after: Option<Request>|
                #[trigger] served(self.get, state.0, state.1, got, after) && head_finish(
                    self.head_back@,
                    got,
                    after,
                    res,
                ),
        }
    }

    /// Whether `res` answers an `OPTIONS` request that got through the
    /// front interceptors of `OPTIONS` with `verdict`, under the policy
    /// `cors`.
    pub open spec fn options_after(&self, cors: Cors, verdict: Verdict, res: Response) -> bool {
        match verdict {
            Err(r) => res == r,
            Ok(state) => options_finish(self.options_back@, cors, state, res),
        }
    }

    /// Whether `res` is a response of this router to the request.
    ///
    /// `HEAD`: the front interceptors of `HEAD` run, then the request is
    /// served from the routes of `GET`, and the answer is stripped of its
    /// content.  `OPTIONS`: without a policy the answer is the bare
    /// "internal server error"; with one, the front interceptors of
    /// `OPTIONS` run and the preflight is checked.  Any other method is
    /// served from its own routes.
    pub open spec fn answered(&self, req: Request, ctx: Context, res: Response) -> bool {
        match req@.method {
            Method::HEAD => exists|trace: Seq<State>, verdict: Verdict|
                #[trigger] front_run(self.head_front@, (req, ctx), trace, verdict)
                    && self.head_after(verdict, res),
            Method::OPTIONS => match self.cors {
                None => is_bare(res, Status::InternalServerError, ctx.headers@),
                Some(cors) => exists|trace: Seq<State>, verdict: Verdict|
                    #[trigger] front_run(self.options_front@, (req, ctx), trace, verdict)
                        && self.options_after(cors, verdict, res),
            },
            method => exists|after: Option<Request>|
                #[trigger] served(self.tree(method), req, ctx, res, after),
        }
    }

    /// A router without routes, interceptors or policy, whose requests may
    /// capture `PARAMS_LIMIT` segments.
    pub fn new() -> (r: Self)
        ensures
            r.wf(),
            r.sound(),
            r.is_empty(),
            r.cors is None,
            r.params_limit == PARAMS_LIMIT,
            r.head_front@.len() == 0,
            r.head_back@.len() == 0,
            r.options_front@.len() == 0,
            r.options_back@.len() == 0,
            forall|m: Method, q: Seq<PatternView>| #[trigger] entry_at(r.tree(m), q) is None,
    {
        Self::with_capacity(PARAMS_LIMIT)
    }

    /// A router without routes, interceptors or policy, whose requests may
    /// capture `params_limit` segments.
    pub fn with_capacity(params_limit: usize) -> (r: Self)
        ensures
            r.wf(),
            r.sound(),
            r.is_empty(),
            r.cors is None,
            r.params_limit == params_limit,
            r.head_front@.len() == 0,
            r.head_back@.len() == 0,
            r.options_front@.len() == 0,
            r.options_back@.len() == 0,
            forall|m: Method, q: Seq<PatternView>| #[trigger] entry_at(r.tree(m), q) is None,
    {
        let r = Router {
            get: Node::new(),
            put: Node::new(),
            post: Node::new(),
            patch: Node::new(),
            delete: Node::new(),
            head_front: Vec::new(),
            head_back: Vec::new(),
            options_front: Vec::new(),
            options_back: Vec::new(),
            cors: None,
            params_limit,
        };
        proof {
            assert(r.get.pats() =~= Seq::<PatternView>::empty());
            assert(r.put.pats() =~= Seq::<PatternView>::empty());
            assert(r.post.pats() =~= Seq::<PatternView>::empty());
            assert(r.patch.pats() =~= Seq::<PatternView>::empty());
            assert(r.delete.pats() =~= Seq::<PatternView>::empty());
        }
        r
    }

    /// Sets the policy for cross-origin requests: which origins may make
    /// requests, which methods and headers they may ask for, and whether
    /// they may send credentials.
    pub fn set_cors_policy(
        &mut self,
        allow_origin: AllowOrigin,
        allow_methods: Option<Vec<Method>>,
        allow_headers: Option<Vec<Vec<u8>>>,
        allow_credentials: bool,
    )
        ensures
            final(self).cors == Some(
                Cors { allow_origin, allow_credentials, allow_methods, allow_headers },
            ),
            final(self).get == old(self).get,
            final(self).put == old(self).put,
            final(self).post == old(self).post,
            final(self).patch == old(self).patch,
            final(self).delete == old(self).delete,
            final(self).head_front == old(self).head_front,
            final(self).head_back == old(self).head_back,
            final(self).options_front == old(self).options_front,
            final(self).options_back == old(self).options_back,
            final(self).params_limit == old(self).params_limit,
    {
        self.cors = Some(Cors { allow_origin, allow_credentials, allow_methods, allow_headers });
    }

    /// Sets the interceptors that run around every `HEAD` request.
    pub fn set_head_fangs(&mut self, front: Vec<FrontFang<F>>, back: Vec<BackFang<B>>)
        ensures
            final(self).head_front == front,
            final(self).head_back == back,
            final(self).get == old(self).get,
            final(self).put == old(self).put,
            final(self).post == old(self).post,
            final(self).patch == old(self).patch,
            final(self).delete == old(self).delete,
            final(self).options_front == old(self).options_front,
            final(self).options_back == old(self).options_back,
            final(self).cors == old(self).cors,
            final(self).params_limit == old(self).params_limit,
    {
        self.head_front = front;
        self.head_back = back;
    }

    /// Sets the interceptors that run around every `OPTIONS` request.
    pub fn set_options_fangs(&mut self, front: Vec<FrontFang<F>>, back: Vec<BackFang<B>>)
        ensures
            final(self).options_front == front,
            final(self).options_back == back,
            final(self).get == old(self).get,
            final(self).put == old(self).put,
            final(self).post == old(self).post,
            final(self).patch == old(self).patch,
            final(self).delete == old(self).delete,
            final(self).head_front == old(self).head_front,
            final(self).head_back == old(self).head_back,
            final(self).cors == old(self).cors,
            final(self).params_limit == old(self).params_limit,
    {
        self.options_front = front;
        self.options_back = back;
    }

    /// Whether `method` has a handler for the route string `route`.
    pub fn has_route(&self, method: Method, route: &[u8]) -> (r: bool)
        ensures
            r == (routable(method) && compiled(route@) is Some && entry_at(
                self.tree(method),
                compiled(route@)->0,
            ) is Some),
    {
        let pats = match compile(route) {
            None => {
                return false;
            },
            Some(pats) => pats,
        };
        assert(pats.deep_view().skip(0) =~= pats.deep_view());
        match method {
            Method::GET => self.get.has_route(&pats, 0),
            Method::PUT => self.put.has_route(&pats, 0),
            Method::POST => self.post.has_route(&pats, 0),
            Method::PATCH => self.patch.has_route(&pats, 0),
            Method::DELETE => self.delete.has_route(&pats, 0),
            Method::HEAD => false,
            Method::OPTIONS => false,
        }
    }

    /// Registers a route: `handler` answers requests of `method` whose path
    /// matches the route string `route`, with `front` running before it and
    /// `back` after it.
    ///
    /// A route string is made of `/`-introduced segments; a segment that
    /// starts with `:` captures the segment of the path in its place.  The
    /// route is refused when the method is `HEAD` or `OPTIONS`, when the
    /// route string is empty or does not start with `/`, when it holds
    /// more captures than a request may capture, and when the method
    /// already has a handler for the same patterns, in this order; the
    /// router then stays as it was.  Otherwise the route is added and every
    /// route that was there stays.
    pub fn register(
        &mut self,
        method: Method,
        route: &[u8],
        handler: H,
        front: Vec<FrontFang<F>>,
        back: Vec<BackFang<B>>,
    ) -> (r: Result<(), RegisterError>)
        requires
            old(self).wf(),
        ensures
            r == (if !routable(method) {
                Err::<(), RegisterError>(RegisterError::NotRoutable)
            } else if compiled(route@) is None {
                Err::<(), RegisterError>(RegisterError::InvalidPattern)
            } else if capture_count(compiled(route@)->0) > old(self).params_limit {
                Err::<(), RegisterError>(RegisterError::TooManyParams)
            } else if entry_at(old(self).tree(method), compiled(route@)->0) is Some {
                Err::<(), RegisterError>(RegisterError::Duplicate)
            } else {
                Ok::<(), RegisterError>(())
            }),
            r is Err ==> *final(self) == *old(self),
            r is Ok ==> final(self).wf(),
            r is Ok ==> forall|q: Seq<PatternView>|
                #[trigger] entry_at(final(self).tree(method), q) == if q == compiled(route@)->0 {
                    Some(Entry { handler, front: front@, back: back@ })
                } else {
                    entry_at(old(self).tree(method), q)
                },
            r is Ok ==> forall|m: Method|
                routable(m) && m != method ==> #[trigger] final(self).tree(m) == old(self).tree(m),
            final(self).head_front == old(self).head_front,
            final(self).head_back == old(self).head_back,
            final(self).options_front == old(self).options_front,
            final(self).options_back == old(self).options_back,
            final(self).cors == old(self).cors,
            final(self).params_limit == old(self).params_limit,
            r is Ok && old(self).sound() && fronts_total(front@) && backs_total(back@)
                && handler_total(handler) ==> final(self).sound(),
    {
        match method {
            Method::HEAD => {
                return Err(RegisterError::NotRoutable);
            },
            Method::OPTIONS => {
                return Err(RegisterError::NotRoutable);
            },
            _ => {},
        }
        let pats = match compile(route) {
            None => {
                return Err(RegisterError::InvalidPattern);
            },
            Some(pats) => pats,
        };
        assert(pats.deep_view().skip(0) =~= pats.deep_view());
        if count_captures(&pats) > self.params_limit {
            return Err(RegisterError::TooManyParams);
        }
        let taken = match method {
            Method::GET => self.get.has_route(&pats, 0),
            Method::PUT => self.put.has_route(&pats, 0),
            Method::POST => self.post.has_route(&pats, 0),
            Method::PATCH => self.patch.has_route(&pats, 0),
            _ => self.delete.has_route(&pats, 0),
        };
        if taken {
            return Err(RegisterError::Duplicate);
        }
        let mut root: Node<F, B, H> = Node::new();
        match method {
            Method::GET => core::mem::swap(&mut self.get, &mut root),
            Method::PUT => core::mem::swap(&mut self.put, &mut root),
            Method::POST => core::mem::swap(&mut self.post, &mut root),
            Method::PATCH => core::mem::swap(&mut self.patch, &mut root),
            _ => core::mem::swap(&mut self.delete, &mut root),
        }
        assert(root == old(self).tree(method));
        let mut grown = root.insert_below(&pats, 0, handler, front, back);
        proof {
            assert(grown.pats().len() == grown.patterns@.len());
            assert(root.pats().len() == root.patterns@.len());
            assert(root.pats() =~= Seq::<PatternView>::empty());
            assert(bounded(root, self.params_limit as int));
            assert(bounded(grown, self.params_limit as int));
        }
        match method {
            Method::GET => core::mem::swap(&mut self.get, &mut grown),
            Method::PUT => core::mem::swap(&mut self.put, &mut grown),
            Method::POST => core::mem::swap(&mut self.post, &mut grown),
            Method::PATCH => core::mem::swap(&mut self.patch, &mut grown),
            _ => core::mem::swap(&mut self.delete, &mut grown),
        }
        Ok(())
    }

    /// Resolves a request: searches the routes of its method for the route
    /// of its path, running the front interceptors on the way.  `HEAD` and
    /// `OPTIONS` are searched for among the routes of `GET`.
    pub fn resolve<'a>(&'a self, req: Request, ctx: Context) -> (out: Result<
        Resolved<'a, F, B, H>,
        Response,
    >)
        requires
            self.sound(),
            req.wf(),
        ensures
            resolved(self.tree(req@.method), req, ctx, out),
            out is Ok ==> out->Ok_0.request.wf() && callable(*out->Ok_0.node),
    {
        match req.method() {
            Method::PUT => self.put.search(req, ctx),
            Method::POST => self.post.search(req, ctx),
            Method::PATCH => self.patch.search(req, ctx),
            Method::DELETE => self.delete.search(req, ctx),
            _ => self.get.search(req, ctx),
        }
    }

    /// Answers a request.
    ///
    /// Whatever the interceptors and handlers return, the response is one
    /// that `answered` describes.
    pub fn handle(&self, req: Request, ctx: Context) -> (res: Response)
        requires
            self.sound(),
            req.wf(),
        ensures
            self.answered(req, ctx, res),
    {
        match req.method() {
            Method::GET => {
                let out = self.get.serve(req, ctx);
                assert(served(self.tree(Method::GET), req, ctx, out.response, out.request));
                out.response
            },
            Method::PUT => {
                let out = self.put.serve(req, ctx);
                assert(served(self.tree(Method::PUT), req, ctx, out.response, out.request));
                out.response
            },
            Method::POST => {
                let out = self.post.serve(req, ctx);
                assert(served(self.tree(Method::POST), req, ctx, out.response, out.request));
                out.response
            },
            Method::PATCH => {
                let out = self.patch.serve(req, ctx);
                assert(served(self.tree(Method::PATCH), req, ctx, out.response, out.request));
                out.response
            },
            Method::DELETE => {
                let out = self.delete.serve(req, ctx);
                assert(served(self.tree(Method::DELETE), req, ctx, out.response, out.request));
                out.response
            },
            Method::HEAD => self.handle_head(req, ctx),
            Method::OPTIONS => self.handle_options(req, ctx),
        }
    }

    /// Answers what was read from a connection: parses the bytes and
    /// answers the request with a fresh context.  Bytes that do not parse
    /// are answered with the response that stands for the parse error, and
    /// do not reach the routes.
    pub fn respond_to(&self, buffer: Buffer) -> (res: Response)
        requires
            self.sound(),
        ensures
            match parsed(buffer@, QUERIES_LIMIT as nat, HEADERS_LIMIT as nat) {
                Ok(v) => exists|req: Request, ctx: Context|
                    req@ == v && req.wf() && req.buffer@ == buffer@ && ctx.headers@ == Seq::<
                        Field,
                    >::empty() && ctx.store@.len() == 0 && #[trigger] self.answered(req, ctx, res),
                Err(e) => e.describes(res),
            },
    {
        match parse(buffer) {
            Err(e) => e.into_response(),
            Ok(req) => {
                let ctx = Context::new();
                let res = self.handle(req, ctx);
                assert(req@ == parsed(buffer@, QUERIES_LIMIT as nat, HEADERS_LIMIT as nat)->Ok_0
                    && req.wf() && self.answered(req, ctx, res));
                res
            },
        }
    }

    /// Answers a `HEAD` request.
    pub fn handle_head(&self, req: Request, ctx: Context) -> (res: Response)
        requires
            self.sound(),
            req.wf(),
        ensures
            exists|trace: Seq<State>, verdict: Verdict|
                #[trigger] front_run(self.head_front@, (req, ctx), trace, verdict)
                    && self.head_after(verdict, res),
    {
        let verdict = run_front(&self.head_front, req, ctx);
        let ghost trace = choose|t: Seq<State>| front_run(self.head_front@, (req, ctx), t, verdict);
        match verdict {
            Err(res) => {
                assert(front_run(self.head_front@, (req, ctx), trace, verdict) && self.head_after(
                    verdict,
                    res,
                ));
                res
            },
            Ok((req1, ctx1)) => {
                let Served { response, request } = self.get.serve(req1, ctx1);
                let ghost got = response;
                let res = match request {
                    None => response,
                    Some(req2) => {
                        let Response { status: _, headers, content: _ } = response;
                        let bare = Response {
                            status: Status::NoContent,
                            headers,
                            content: Content::Empty,
                        };
                        let res = run_back(&self.head_back, &req2, bare);
                        proof {
                            let bt = choose|bt: Seq<Response>|
                                back_run(self.head_back@, req2, bare, bt, res);
                            assert(is_bare(bare, Status::NoContent, got.headers@) && back_run(
                                self.head_back@,
                                req2,
                                bare,
                                bt,
                                res,
                            ));
                        }
                        res
                    },
                };
                proof {
                    assert(served(self.get, req1, ctx1, got, request) && head_finish(
                        self.head_back@,
                        got,
                        request,
                        res,
                    ));
                    assert(front_run(self.head_front@, (req, ctx), trace, verdict)
                        && self.head_after(verdict, res));
                }
                res
            },
        }
    }

    /// Answers an `OPTIONS` request.
    pub fn handle_options(&self, req: Request, ctx: Context) -> (res: Response)
        requires
            self.sound(),
            req.wf(),
        ensures
            match self.cors {
                None => is_bare(res, Status::InternalServerError, ctx.headers@),
                Some(cors) => exists|trace: Seq<State>, verdict: Verdict|
                    #[trigger] front_run(self.options_front@, (req, ctx), trace, verdict)
                        && self.options_after(cors, verdict, res),
            },
    {
        let cors = match &self.cors {
            None => {
                return ctx.respond(Status::InternalServerError);
            },
            Some(cors) => cors,
        };
        let verdict = run_front(&self.options_front, req, ctx);
        let ghost trace = choose|t: Seq<State>|
            front_run(self.options_front@, (req, ctx), t, verdict);
        match verdict {
            Err(res) => {
                assert(front_run(self.options_front@, (req, ctx), trace, verdict)
                    && self.options_after(*cors, verdict, res));
                res
            },
            Ok((req1, handed)) => {
                let ghost state = (req1, handed);
                let mut ctx1 = handed;
                cors.announce(&mut ctx1.headers);
                let status = cors.check(&req1);
                let res = match status {
                    Status::NoContent => {
                        match req1.header("Origin") {
                            Some(origin) => {
                                cors.grant(&mut ctx1.headers, origin);
                            },
                            None => {},
                        }
                        let mut bare = ctx1.respond(Status::NoContent);
                        bare.drop_content();
                        let res = run_back(&self.options_back, &req1, bare);
                        proof {
                            let bt = choose|bt: Seq<Response>|
                                back_run(self.options_back@, req1, bare, bt, res);
                            assert(is_bare(
                                bare,
                                Status::NoContent,
                                without_body_headers(
                                    granted(
                                        cors@,
                                        announced(cors@, handed.headers@),
                                        lookup(req1@.headers, "Origin".spec_bytes())->0,
                                    ),
                                ),
                            ) && back_run(self.options_back@, req1, bare, bt, res));
                        }
                        res
                    },
                    other => ctx1.respond(other),
                };
                proof {
                    assert(options_finish(self.options_back@, *cors, state, res));
                    assert(front_run(self.options_front@, (req, ctx), trace, verdict)
                        && self.options_after(*cors, verdict, res));
                }
                res
            },
        }
    }
}

/// A registered route without captures is found by its own route string:
/// resolving the string as a path ends at the node that holds the route's
/// entry, and captures nothing.
pub proof fn lemma_literal_route_resolves<
    F: Fn(Request, Context) -> Verdict,
    B: Fn(Response, &Request) -> Response,
    H: Fn(&Request, Context, PathParams) -> Response,
>(router: Router<F, B, H>, method: Method, path: Seq<u8>, e: Entry<F, B, H>)
    requires
        router.wf(),
        compiled(path) is Some,
        all_static(compiled(path)->0),
        entry_at(router.tree(method), compiled(path)->0) == Some(e),
    ensures
        route(router.tree(method), path).matched,
        route(router.tree(method), path).params == Seq::<Seq<u8>>::empty(),
        route(router.tree(method), path).nodes.last().entry() == Some(e),
{
    let root = router.tree(method);
    let pats = compiled(path)->0;
    let segs = segments(path)->0;
    assert(root.pats().len() == root.patterns@.len());
    assert(root.pats() =~= pats.take(0));
    assert(pats.skip(0) =~= pats);
    assert forall|i: int| 0 <= i < pats.len() implies pats[i] == PatternView::Static(segs[i]) by {
        assert(pats[i] == pattern_of(segs[i]));
        assert(pats[i] is Static);
    }
    lemma_static_route(root, pats, segs, e);
}

/// A registered route is found by every path that it matches, with the
/// captures that its patterns make, unless another route takes its place:
/// a route that runs along it up to a capture and goes on with the
/// captured segment as a literal.
pub proof fn lemma_route_resolves<
    F: Fn(Request, Context) -> Verdict,
    B: Fn(Response, &Request) -> Response,
    H: Fn(&Request, Context, PathParams) -> Response,
>(router: Router<F, B, H>, method: Method, path: Seq<u8>, pats: Seq<PatternView>, e: Entry<F, B, H>)
    requires
        router.wf(),
        segments(path) is Some,
        accepts_all(pats, segments(path)->0),
        entry_at(router.tree(method), pats) == Some(e),
        unchallenged(router.tree(method), pats, segments(path)->0),
    ensures
        route(router.tree(method), path).matched,
        route(router.tree(method), path).nodes.last().entry() == Some(e),
        captures(pats, segments(path)->0) == Some(route(router.tree(method), path).params),
{
    let root = router.tree(method);
    let segs = segments(path)->0;
    assert(root.pats().len() == root.patterns@.len());
    assert(root.pats() =~= pats.take(0));
    assert(pats.skip(0) =~= pats);
    assert(segs.skip(0) =~= segs);
    lemma_route_found(root, pats, segs, e);
}

/// Whether `res` is what the route with the entry `e` answers: what its
/// back interceptors, run in order, make of what its handler returns for
/// the request, the context and the captures.
pub open spec fn route_answers<
    F: Fn(Request, Context) -> Verdict,
    B: Fn(Response, &Request) -> Response,
    H: Fn(&Request, Context, PathParams) -> Response,
>(e: Entry<F, B, H>, req: Request, ctx: Context, params: PathParams, res: Response) -> bool {
    exists|mid: Response, trace: Seq<Response>|
        call_ensures(e.handler, (&req, ctx, params), mid) && #[trigger] back_run(
            e.back,
            req,
            mid,
            trace,
            res,
        )
}

/// A request for the route string of a registered route without captures
/// is answered by that route: its handler gets the request with no
/// captures, and its back interceptors run on what the handler returns.
/// This is stated of routers whose routes have no front interceptors, so
/// that the request reaches the handler as it came.
pub proof fn lemma_literal_route_answers<
    F: Fn(Request, Context) -> Verdict,
    B: Fn(Response, &Request) -> Response,
    H: Fn(&Request, Context, PathParams) -> Response,
>(router: Router<F, B, H>, req: Request, ctx: Context, res: Response, e: Entry<F, B, H>)
    requires
        router.wf(),
        routable(req@.method),
        compiled(req@.path) is Some,
        all_static(compiled(req@.path)->0),
        entry_at(router.tree(req@.method), compiled(req@.path)->0) == Some(e),
        forall|q: Seq<PatternView>|
            (#[trigger] entry_at(router.tree(req@.method), q)) is Some ==> entry_at(
                router.tree(req@.method),
                q,
            )->0.front.len() == 0,
        router.answered(req, ctx, res),
    ensures
        exists|params: PathParams|
            params@ == Seq::<Seq<u8>>::empty() && #[trigger] route_answers(
                e,
                req,
                ctx,
                params,
                res,
            ),
{
    let root = router.tree(req@.method);
    let path = req@.path;
    lemma_literal_route_resolves(router, req@.method, path, e);
    let w = route(root, path);
    let segs = segments(path)->0;
    assert forall|i: int| 0 <= i < w.nodes.len() implies (#[trigger] w.nodes[i]).front@.len()
        == 0 by {
        lemma_walk_entries(root, segs, i);
    }
    lemma_trail_fangs_none(w.nodes);
    let after = choose|after: Option<Request>| #[trigger] served(root, req, ctx, res, after);
    let (run, verdict) = choose|run: Seq<State>, verdict: Verdict|
        #[trigger] front_run(trail_fangs(w.nodes), (req, ctx), run, verdict) && settled(
            w,
            verdict,
            res,
            after,
        );
    lemma_front_run_none::<F>((req, ctx), run, verdict);
    let params = choose|params: PathParams|
        params@ == w.params && params.wf() && #[trigger] handled(
            w.nodes.last(),
            req,
            ctx,
            params,
            res,
        );
    let (mid, trace) = choose|mid: Response, trace: Seq<Response>|
        call_ensures(e.handler, (&req, ctx, params), mid) && #[trigger] back_run(
            w.nodes.last().back@,
            req,
            mid,
            trace,
            res,
        );
    assert(call_ensures(e.handler, (&req, ctx, params), mid) && back_run(
        e.back,
        req,
        mid,
        trace,
        res,
    ));
    assert(params@ == Seq::<Seq<u8>>::empty() && route_answers(e, req, ctx, params, res));
}

/// Whatever resolving a path finds is a registered route that matches the
/// path: where the walk matches and ends at a node with a handler, the
/// patterns on the way to that node are a route of the tree with the
/// node's entry, they take the segments of the path one for one, and the
/// walk captured what they capture.
pub proof fn lemma_resolution_is_sound<
    F: Fn(Request, Context) -> Verdict,
    B: Fn(Response, &Request) -> Response,
    H: Fn(&Request, Context, PathParams) -> Response,
>(router: Router<F, B, H>, method: Method, path: Seq<u8>)
    requires
        router.wf(),
        route(router.tree(method), path).matched,
        route(router.tree(method), path).nodes.last().handler is Some,
    ensures
        segments(path) is Some,
        ({
            let w = route(router.tree(method), path);
            let found = way(w.nodes, w.nodes.len() - 1);
            &&& entry_at(router.tree(method), found) == w.nodes.last().entry()
            &&& found.len() == segments(path)->0.len()
            &&& captures(found, segments(path)->0) == Some(w.params)
        }),
{
    let root = router.tree(method);
    let segs = segments(path)->0;
    let w = route(root, path);
    crate::router::node::lemma_walk_shape(root, segs);
    lemma_walk_entries(root, segs, w.nodes.len() - 1);
    lemma_walk_sound(root, segs);
    assert(root.pats() =~= Seq::<PatternView>::empty());
    assert(root.pats() + way(w.nodes, w.nodes.len() - 1) =~= way(w.nodes, w.nodes.len() - 1));
}

/// Resolving a path never captures more segments than a request may
/// capture.
pub proof fn lemma_params_within_capacity<
    F: Fn(Request, Context) -> Verdict,
    B: Fn(Response, &Request) -> Response,
    H: Fn(&Request, Context, PathParams) -> Response,
>(router: Router<F, B, H>, method: Method, path: Seq<u8>)
    requires
        router.wf(),
    ensures
        route(router.tree(method), path).params.len() <= router.params_limit,
{
    match segments(path) {
        Some(segs) => {
            lemma_walk_bounded(router.tree(method), segs, router.params_limit as int);
        },
        None => {},
    }
}

/// Without interceptors of its own, `HEAD` mirrors `GET`: where a handler
/// answers, the response has the headers of the handler's answer, no
/// content and the status "no content"; otherwise it is what the routes of
/// `GET` answer, status included.
pub proof fn lemma_head_mirrors_get<
    F: Fn(Request, Context) -> Verdict,
    B: Fn(Response, &Request) -> Response,
    H: Fn(&Request, Context, PathParams) -> Response,
>(router: Router<F, B, H>, req: Request, ctx: Context, res: Response)
    requires
        req@.method == Method::HEAD,
        router.head_front@.len() == 0,
        router.head_back@.len() == 0,
        router.answered(req, ctx, res),
    ensures
        exists|got: Response, after: Option<Request>|
            #[trigger] served(router.get, req, ctx, got, after) && match after {
                Some(_) => res.status == Status::NoContent && res.headers@ == got.headers@
                    && res.content is Empty,
                None => res == got,
            },
{
    let (trace, verdict) = choose|trace: Seq<State>, verdict: Verdict|
        #[trigger] front_run(router.head_front@, (req, ctx), trace, verdict) && router.head_after(
            verdict,
            res,
        );
    assert(router.head_front@ =~= Seq::<FrontFang<F>>::empty());
    lemma_front_run_none::<F>((req, ctx), trace, verdict);
    let (got, after) = choose|got: Response, after: Option<Request>|
        #[trigger] served(router.get, req, ctx, got, after) && head_finish(
            router.head_back@,
            got,
            after,
            res,
        );
    match after {
        None => {},
        Some(seen) => {
            let (bare, bt) = choose|bare: Response, bt: Seq<Response>|
                is_bare(bare, Status::NoContent, got.headers@) && #[trigger] back_run(
                    router.head_back@,
                    seen,
                    bare,
                    bt,
                    res,
                );
            assert(router.head_back@ =~= Seq::<BackFang<B>>::empty());
            lemma_back_run_none::<B>(seen, bare, bt, res);
        },
    }
    assert(served(router.get, req, ctx, got, after));
}

/// Whether two requests differ in nothing but, possibly, the method.
pub open spec fn same_but_method(a: Request, b: Request) -> bool {
    &&& a.buffer == b.buffer
    &&& a.path == b.path
    &&& a.queries == b.queries
    &&& a.headers == b.headers
    &&& a.payload == b.payload
}

/// Whether the handler and the back interceptors of a route do not look at
/// the method of the request: what they may return for a request, they may
/// return for every request that differs from it in the method only.
pub open spec fn method_blind<
    F: Fn(Request, Context) -> Verdict,
    B: Fn(Response, &Request) -> Response,
    H: Fn(&Request, Context, PathParams) -> Response,
>(e: Entry<F, B, H>) -> bool {
    &&& forall|a: Request, b: Request, ctx: Context, params: PathParams, out: Response|
        #![trigger call_ensures(e.handler, (&a, ctx, params), out), same_but_method(a, b)]
        same_but_method(a, b) && call_ensures(e.handler, (&a, ctx, params), out) ==> call_ensures(
            e.handler,
            (&b, ctx, params),
            out,
        )
    &&& forall|i: int, a: Request, b: Request, res: Response, out: Response|
        #![trigger call_ensures(e.back[i].0, (res, &a), out), same_but_method(a, b)]
        0 <= i < e.back.len() && same_but_method(a, b) && call_ensures(e.back[i].0, (res, &a), out)
            ==> call_ensures(e.back[i].0, (res, &b), out)
}

/// Whether no route of the tree has front interceptors, and every route is
/// blind to the method.
pub open spec fn plain_routes<
    F: Fn(Request, Context) -> Verdict,
    B: Fn(Response, &Request) -> Response,
    H: Fn(&Request, Context, PathParams) -> Response,
>(root: Node<F, B, H>) -> bool {
    forall|q: Seq<PatternView>|
        (#[trigger] entry_at(root, q)) is Some ==> entry_at(root, q)->0.front.len() == 0
            && method_blind(entry_at(root, q)->0)
}

/// What a tree answers to a request, it answers to every request that
/// differs from it in the method only, where its routes are blind to the
/// method and have no front interceptors.
pub proof fn lemma_served_whatever_method<
    F: Fn(Request, Context) -> Verdict,
    B: Fn(Response, &Request) -> Response,
    H: Fn(&Request, Context, PathParams) -> Response,
>(root: Node<F, B, H>, a: Request, b: Request, ctx: Context, got: Response, after: Option<Request>)
    requires
        root.wf(),
        same_but_method(a, b),
        plain_routes(root),
        served(root, a, ctx, got, after),
    ensures
        served(
            root,
            b,
            ctx,
            got,
            match after {
                Some(_) => Some(b),
                None => None,
            },
        ),
{
    let w = route(root, a@.path);
    assert(a@.path == b@.path);
    let (run, verdict) = choose|run: Seq<State>, verdict: Verdict|
        #[trigger] front_run(trail_fangs(w.nodes), (a, ctx), run, verdict) && settled(
            w,
            verdict,
            got,
            after,
        );
    match segments(a@.path) {
        Some(segs) => {
            assert forall|i: int| 0 <= i < w.nodes.len() implies (#[trigger] w.nodes[i]).front@.len()
                == 0 by {
                lemma_walk_entries(root, segs, i);
            }
            lemma_walk_entries(root, segs, w.nodes.len() - 1);
        },
        None => {
            assert(w.nodes =~= seq![root]);
            assert(entry_at(root, Seq::<PatternView>::empty()) == root.entry());
            assert forall|i: int| 0 <= i < w.nodes.len() implies (#[trigger] w.nodes[i]).front@.len()
                == 0 by {
                assert(w.nodes[i] == root);
            }
        },
    }
    lemma_trail_fangs_none(w.nodes);
    lemma_front_run_none::<F>((a, ctx), run, verdict);
    let other = Ok::<(Request, Context), Response>((b, ctx));
    let after_b = match after {
        Some(_) => Some(b),
        None => None,
    };
    let start = seq![(b, ctx)];
    assert(front_run(trail_fangs(w.nodes), (b, ctx), start, other));
    if w.matched && w.nodes.last().handler is Some {
        let last = w.nodes.last();
        let e = last.entry()->0;
        assert(method_blind(e));
        let params = choose|params: PathParams|
            params@ == w.params && params.wf() && #[trigger] handled(last, a, ctx, params, got);
        let (mid, trace) = choose|mid: Response, trace: Seq<Response>|
            call_ensures(e.handler, (&a, ctx, params), mid) && #[trigger] back_run(
                last.back@,
                a,
                mid,
                trace,
                got,
            );
        assert(same_but_method(a, b));
        assert(call_ensures(e.handler, (&b, ctx, params), mid));
        assert forall|j: int| 0 <= j < last.back@.len() implies call_ensures(
            last.back@[j].0,
            (#[trigger] trace[j], &b),
            trace[j + 1],
        ) by {
            assert(call_ensures(e.back[j].0, (trace[j], &a), trace[j + 1]));
            assert(same_but_method(a, b));
        }
        assert(call_ensures(e.handler, (&b, ctx, params), mid) && back_run(
            last.back@,
            b,
            mid,
            trace,
            got,
        ));
        let state = other->Ok_0;
        assert(state == (b, ctx));
        assert(params@ == w.params && params.wf() && handled(
            w.nodes.last(),
            state.0,
            state.1,
            params,
            got,
        ));
        assert(settled(w, other, got, after_b));
    } else {
        assert(settled(w, other, got, after_b));
    }
}

/// `HEAD` gives the headers of what `GET` gives: where the routes of `GET`
/// are blind to the method and have no front interceptors, and `HEAD` has
/// no interceptors of its own, the answer to a `HEAD` request is an answer
/// to the same request sent as `GET`, without its content and with the
/// status "no content" where a handler answered, and as it is otherwise.
pub proof fn lemma_head_as_get<
    F: Fn(Request, Context) -> Verdict,
    B: Fn(Response, &Request) -> Response,
    H: Fn(&Request, Context, PathParams) -> Response,
>(router: Router<F, B, H>, head: Request, get: Request, ctx: Context, res: Response)
    requires
        router.wf(),
        head@.method == Method::HEAD,
        get@.method == Method::GET,
        same_but_method(head, get),
        router.head_front@.len() == 0,
        router.head_back@.len() == 0,
        plain_routes(router.get),
        router.answered(head, ctx, res),
    ensures
        exists|got: Response, after: Option<Request>|
            #[trigger] served(router.get, get, ctx, got, after) && router.answered(get, ctx, got)
                && match after {
                Some(_) => res.status == Status::NoContent && res.headers@ == got.headers@
                    && res.content is Empty,
                None => res == got,
            },
{
    lemma_head_mirrors_get(router, head, ctx, res);
    let (got, after) = choose|got: Response, after: Option<Request>|
        #[trigger] served(router.get, head, ctx, got, after) && match after {
            Some(_) => res.status == Status::NoContent && res.headers@ == got.headers@
                && res.content is Empty,
            None => res == got,
        };
    lemma_served_whatever_method(router.get, head, get, ctx, got, after);
    let after_get = match after {
        Some(_) => Some(get),
        None => None,
    };
    assert(served(router.tree(Method::GET), get, ctx, got, after_get));
    assert(served(router.get, get, ctx, got, after_get) && router.answered(get, ctx, got));
}

/// Without interceptors of its own, `OPTIONS` answers with the status of
/// the preflight check: a bare response whose headers announce the policy
/// and, where the preflight is allowed, grant the origin.
pub proof fn lemma_options_answer<
    F: Fn(Request, Context) -> Verdict,
    B: Fn(Response, &Request) -> Response,
    H: Fn(&Request, Context, PathParams) -> Response,
>(router: Router<F, B, H>, req: Request, ctx: Context, res: Response)
    requires
        req@.method == Method::OPTIONS,
        router.options_front@.len() == 0,
        router.options_back@.len() == 0,
        router.answered(req, ctx, res),
    ensures
        router.cors is None ==> res.status == Status::InternalServerError,
        router.cors is Some ==> res.status == preflight_status(router.cors->0@, req@.headers),
        router.cors is Some ==> res.content is Empty,
        router.cors is Some && res.status != Status::NoContent ==> res.headers@ == announced(
            router.cors->0@,
            ctx.headers@,
        ),
        router.cors is Some && res.status == Status::NoContent ==> res.headers@
            == without_body_headers(
            granted(
                router.cors->0@,
                announced(router.cors->0@, ctx.headers@),
                lookup(req@.headers, "Origin".spec_bytes())->0,
            ),
        ),
{
    match router.cors {
        None => {},
        Some(cors) => {
            let (trace, verdict) = choose|trace: Seq<State>, verdict: Verdict|
                #[trigger] front_run(router.options_front@, (req, ctx), trace, verdict)
                    && router.options_after(cors, verdict, res);
            assert(router.options_front@ =~= Seq::<FrontFang<F>>::empty());
            lemma_front_run_none::<F>((req, ctx), trace, verdict);
            let status = preflight_status(cors@, req@.headers);
            if status == Status::NoContent {
                let (bare, bt) = choose|bare: Response, bt: Seq<Response>|
                    is_bare(
                        bare,
                        Status::NoContent,
                        without_body_headers(
                            granted(
                                cors@,
                                announced(cors@, ctx.headers@),
                                lookup(req@.headers, "Origin".spec_bytes())->0,
                            ),
                        ),
                    ) && #[trigger] back_run(router.options_back@, req, bare, bt, res);
                assert(router.options_back@ =~= Seq::<BackFang<B>>::empty());
                lemma_back_run_none::<B>(req, bare, bt, res);
            }
        },
    }
}

} // verus!
