//! Dispatch: from a request to its response.

use crate::context::{is_bare, Context};
use crate::fang::{
    back_run, backs_total, front_run, fronts_total, lemma_front_run_stops, lemma_front_run_then,
    run_back, run_front, FrontFang, State, Verdict,
};
use crate::request::Request;
use crate::response::status::Status;
use crate::response::Response;
use crate::router::node::{
    first_match, lemma_walk_shape, route, targets, walk, Node, PathParams, Trail, Walk,
};
use crate::router::pattern::{captures, segments};
use vstd::prelude::*;

verus! {

/// Whether `h` may be called on every well-formed request, whatever the
/// context and the captures.
pub open spec fn handler_total<H: Fn(&Request, Context, PathParams) -> Response>(h: H) -> bool {
    forall|req: &Request, ctx: Context, params: PathParams|
        req.wf() && params.wf() ==> call_requires(h, (req, ctx, params))
}

/// Whether all the interceptors and handlers of the tree may be called.
pub open spec fn callable<
    F: Fn(Request, Context) -> Verdict,
    B: Fn(Response, &Request) -> Response,
    H: Fn(&Request, Context, PathParams) -> Response,
>(node: Node<F, B, H>) -> bool
    decreases node,
{
    &&& fronts_total(node.front@)
    &&& backs_total(node.back@)
    &&& match node.handler {
        Some(h) => handler_total(h),
        None => true,
    }
    &&& forall|i: int| 0 <= i < node.children@.len() ==> callable(#[trigger] node.children@[i])
}

/// The front interceptors of `nodes`, node after node.
pub open spec fn trail_fangs<F, B, H>(nodes: Seq<Node<F, B, H>>) -> Seq<FrontFang<F>>
    decreases nodes.len(),
{
    if nodes.len() == 0 {
        Seq::empty()
    } else {
        trail_fangs(nodes.drop_last()) + nodes.last().front@
    }
}

/// The interceptors of a trail are those of its first `k` nodes followed by
/// those of the rest.
pub proof fn lemma_trail_fangs_split<F, B, H>(nodes: Seq<Node<F, B, H>>, k: int)
    requires
        0 <= k <= nodes.len(),
    ensures
        trail_fangs(nodes) == trail_fangs(nodes.take(k)) + trail_fangs(nodes.skip(k)),
    decreases nodes.len(),
{
    if k == nodes.len() {
        assert(nodes.take(k) =~= nodes);
        assert(nodes.skip(k) =~= Seq::<Node<F, B, H>>::empty());
        assert(trail_fangs(nodes) + Seq::<FrontFang<F>>::empty() =~= trail_fangs(nodes));
    } else {
        let dl = nodes.drop_last();
        lemma_trail_fangs_split(dl, k);
        assert(dl.take(k) =~= nodes.take(k));
        assert(nodes.skip(k).drop_last() =~= dl.skip(k));
        assert(nodes.skip(k).last() == nodes.last());
        assert(trail_fangs(nodes) =~= trail_fangs(nodes.take(k)) + trail_fangs(nodes.skip(k)));
    }
}

/// Nodes without front interceptors make a trail without front
/// interceptors.
pub proof fn lemma_trail_fangs_none<F, B, H>(nodes: Seq<Node<F, B, H>>)
    requires
        forall|i: int| 0 <= i < nodes.len() ==> (#[trigger] nodes[i]).front@.len() == 0,
    ensures
        trail_fangs(nodes) == Seq::<FrontFang<F>>::empty(),
    decreases nodes.len(),
{
    if nodes.len() > 0 {
        lemma_trail_fangs_none(nodes.drop_last());
        assert(nodes.last().front@ =~= Seq::<FrontFang<F>>::empty());
        assert(trail_fangs(nodes) =~= Seq::<FrontFang<F>>::empty());
    }
}

/// Every node that a walk reaches in a callable tree is callable.
pub proof fn lemma_walk_callable<
    F: Fn(Request, Context) -> Verdict,
    B: Fn(Response, &Request) -> Response,
    H: Fn(&Request, Context, PathParams) -> Response,
>(node: Node<F, B, H>, segs: Seq<Seq<u8>>)
    requires
        callable(node),
    ensures
        forall|i: int|
            0 <= i < walk(node, segs).nodes.len() ==> callable(#[trigger] walk(node, segs).nodes[i]),
    decreases node,
{
    match captures(node.pats(), segs) {
        None => {},
        Some(caps) => {
            let rest = segs.skip(node.pats().len() as int);
            if rest.len() != 0 {
                match first_match(node.children@, rest[0], 0) {
                    Some(i) => {
                        if 0 <= i < node.children@.len() {
                            lemma_walk_callable(node.children@[i], rest);
                            let below = walk(node.children@[i], rest);
                            assert forall|j: int| 0 <= j < walk(node, segs).nodes.len() implies callable(
                                #[trigger] walk(node, segs).nodes[j],
                            ) by {
                                if j > 0 {
                                    assert(walk(node, segs).nodes[j] == below.nodes[j - 1]);
                                }
                            }
                        }
                    },
                    None => {},
                }
            }
        },
    }
}

/// Whether `res` is what the handler stage of `node` makes of the request:
/// the response of the node's handler after the node's back interceptors
/// have run on it in order, or the bare "not found" where the node has no
/// handler.
pub open spec fn handled<
    F: Fn(Request, Context) -> Verdict,
    B: Fn(Response, &Request) -> Response,
    H: Fn(&Request, Context, PathParams) -> Response,
>(node: Node<F, B, H>, req: Request, ctx: Context, params: PathParams, res: Response) -> bool {
    match node.handler {
        Some(h) => exists|mid: Response, trace: Seq<Response>|
            call_ensures(h, (&req, ctx, params), mid) && #[trigger] back_run(
                node.back@,
                req,
                mid,
                trace,
                res,
            ),
        None => is_bare(res, Status::NotFound, ctx.headers@),
    }
}

/// Whether `res` settles a request whose walk was `w` and whose front
/// interceptors gave `verdict`.
///
/// A response given by an interceptor is the response, and nothing else
/// runs.  Otherwise the handler stage of the last node answers, if the walk
/// matched and the node has a handler, and `after` is the request that the
/// handler saw.  Otherwise the answer is the bare "not found".
pub open spec fn settled<
    F: Fn(Request, Context) -> Verdict,
    B: Fn(Response, &Request) -> Response,
    H: Fn(&Request, Context, PathParams) -> Response,
>(w: Walk<F, B, H>, verdict: Verdict, res: Response, after: Option<Request>) -> bool {
    match verdict {
        Err(r) => res == r && after is None,
        Ok(state) => if w.matched && w.nodes.last().handler is Some {
            &&& after == Some(state.0)
            &&& exists|params: PathParams|
                params@ == w.params && params.wf() && #[trigger] handled(
                    w.nodes.last(),
                    state.0,
                    state.1,
                    params,
                    res,
                )
        } else {
            after is None && is_bare(res, Status::NotFound, state.1.headers@)
        },
    }
}

/// Whether `res` is a response of the tree under `root` to the request:
/// the front interceptors of the nodes on the walk of the request's path
/// run in order, from the root down, and what they give is settled.
pub open spec fn served<
    F: Fn(Request, Context) -> Verdict,
    B: Fn(Response, &Request) -> Response,
    H: Fn(&Request, Context, PathParams) -> Response,
>(root: Node<F, B, H>, req: Request, ctx: Context, res: Response, after: Option<Request>) -> bool {
    let w = route(root, req@.path);
    exists|trace: Seq<State>, verdict: Verdict|
        #[trigger] front_run(trail_fangs(w.nodes), (req, ctx), trace, verdict) && settled(
            w,
            verdict,
            res,
            after,
        )
}

/// A request that got through to a route: the request and the context as
/// the front interceptors left them, the node whose handler is to answer,
/// and the captured segments.
pub struct Resolved<'a, F, B, H> {
    /// The request, as the front interceptors left it.
    pub request: Request,
    /// The context, as the front interceptors left it.
    pub context: Context,
    /// The node that the path led to; it has a handler.
    pub node: &'a Node<F, B, H>,
    /// The captured segments.
    pub params: PathParams,
}

/// Whether `out` is what resolving a request gives when its walk was `w`
/// and its front interceptors gave `verdict`.
///
/// A response given by an interceptor ends the request.  Otherwise the
/// request is resolved if the walk matched and led to a node with a
/// handler, and else ends with the bare "not found".
pub open spec fn resolved_as<
    F: Fn(Request, Context) -> Verdict,
    B: Fn(Response, &Request) -> Response,
    H: Fn(&Request, Context, PathParams) -> Response,
>(w: Walk<F, B, H>, verdict: Verdict, out: Result<Resolved<F, B, H>, Response>) -> bool {
    match verdict {
        Err(r) => out is Err && out->Err_0 == r,
        Ok(state) => if w.matched && w.nodes.last().handler is Some {
            &&& out is Ok
            &&& out->Ok_0.request == state.0
            &&& out->Ok_0.context == state.1
            &&& *out->Ok_0.node == w.nodes.last()
            &&& out->Ok_0.params@ == w.params
            &&& out->Ok_0.params.wf()
        } else {
            out is Err && is_bare(out->Err_0, Status::NotFound, state.1.headers@)
        },
    }
}

/// Whether `out` is what resolving the request in the tree under `root`
/// gives: the front interceptors of the nodes on the walk of the request's
/// path run in order, from the root down.
pub open spec fn resolved<
    F: Fn(Request, Context) -> Verdict,
    B: Fn(Response, &Request) -> Response,
    H: Fn(&Request, Context, PathParams) -> Response,
>(root: Node<F, B, H>, req: Request, ctx: Context, out: Result<Resolved<F, B, H>, Response>) -> bool {
    let w = route(root, req@.path);
    exists|trace: Seq<State>, verdict: Verdict|
        #[trigger] front_run(trail_fangs(w.nodes), (req, ctx), trace, verdict) && resolved_as(
            w,
            verdict,
            out,
        )
}

/// What a tree made of a request.
pub struct Served {
    /// The response.
    pub response: Response,
    /// The request as the handler saw it, when a handler ran.
    pub request: Option<Request>,
}

impl<
    F: Fn(Request, Context) -> Verdict,
    B: Fn(Response, &Request) -> Response,
    H: Fn(&Request, Context, PathParams) -> Response,
> Node<F, B, H> {
    /// Runs the handler of this node and then its back interceptors, in
    /// registration order.  A node without handler answers "not found".
    pub fn handle(&self, req: &Request, ctx: Context, params: PathParams) -> (res: Response)
        requires
            callable(*self),
            req.wf(),
            params.wf(),
        ensures
            handled(*self, *req, ctx, params, res),
    {
        match &self.handler {
            Some(h) => {
                assert(handler_total(*h));
                let mid = h(req, ctx, params);
                let res = run_back(&self.back, req, mid);
                proof {
                    let trace = choose|trace: Seq<Response>|
                        back_run(self.back@, *req, mid, trace, res);
                    assert(call_ensures(*h, (req, ctx, params), mid) && back_run(
                        self.back@,
                        *req,
                        mid,
                        trace,
                        res,
                    ));
                }
                res
            },
            None => ctx.respond(Status::NotFound),
        }
    }

    /// Searches the tree under this node for the route of the request.
    ///
    /// The path of the request is walked; the front interceptors of the
    /// nodes on the way run from the root down, each on what the one before
    /// handed on.  The first response that one of them gives ends the
    /// request.  If none does, the request is resolved where the path led
    /// to a node with a handler, and else ends with "not found".
    pub fn search<'a>(&'a self, req: Request, ctx: Context) -> (out: Result<
        Resolved<'a, F, B, H>,
        Response,
    >)
        requires
            callable(*self),
            req.wf(),
        ensures
            resolved(*self, req, ctx, out),
            out is Ok ==> out->Ok_0.request.wf() && callable(*out->Ok_0.node),
    {
        let ghost w = route(*self, req@.path);
        let ghost start = (req, ctx);
        let Trail { nodes, matched, params } = self.walk(req.path_bytes());
        proof {
            match segments(req@.path) {
                Some(segs) => {
                    lemma_walk_callable(*self, segs);
                    lemma_walk_shape(*self, segs);
                },
                None => {},
            }
            assert(w.nodes.take(0) =~= Seq::<Node<F, B, H>>::empty());
        }
        let n: usize = nodes.len();
        let mut state = (req, ctx);
        let ghost mut trace: Seq<State> = seq![start];
        let mut k: usize = 0;
        while k < n
            invariant
                k <= n,
                n == nodes@.len(),
                n == w.nodes.len(),
                w == route(*self, req@.path),
                start == (req, ctx),
                targets(nodes@) == w.nodes,
                forall|i: int| 0 <= i < w.nodes.len() ==> callable(#[trigger] w.nodes[i]),
                state.0.wf(),
                front_run(
                    trail_fangs(w.nodes.take(k as int)),
                    start,
                    trace,
                    Ok::<(Request, Context), Response>(state),
                ),
            decreases n - k,
        {
            let node = nodes[k];
            let ghost done = trail_fangs(w.nodes.take(k as int));
            let ghost mid = state;
            let (r, c) = state;
            proof {
                assert(*node == w.nodes[k as int]);
                assert(callable(w.nodes[k as int]));
                assert(w.nodes.take(k + 1).drop_last() =~= w.nodes.take(k as int));
                assert(w.nodes.take(k + 1).last() == *node);
                assert(trail_fangs(w.nodes.take(k + 1)) == done + node.front@);
            }
            let verdict = run_front(&node.front, r, c);
            proof {
                let second = choose|t: Seq<State>| front_run(node.front@, mid, t, verdict);
                lemma_front_run_then(done, node.front@, start, trace, mid, second, verdict);
                trace = trace + second.skip(1);
            }
            match verdict {
                Err(res) => {
                    let out = Err(res);
                    proof {
                        lemma_trail_fangs_split(w.nodes, k + 1);
                        lemma_front_run_stops(
                            trail_fangs(w.nodes.take(k + 1)),
                            trail_fangs(w.nodes.skip(k + 1)),
                            start,
                            trace,
                            res,
                        );
                        assert(resolved_as(w, verdict, out));
                    }
                    return out;
                },
                Ok(next) => {
                    state = next;
                },
            }
            k += 1;
        }
        proof {
            assert(w.nodes.take(n as int) =~= w.nodes);
        }
        let ghost verdict = Ok::<(Request, Context), Response>(state);
        let (request, context) = state;
        if matched {
            let node = nodes[n - 1];
            assert(*node == w.nodes.last());
            if node.handler.is_some() {
                let out = Ok(Resolved { request, context, node, params });
                assert(resolved_as(w, verdict, out));
                return out;
            }
        }
        let out = Err(context.respond(Status::NotFound));
        assert(resolved_as(w, verdict, out));
        out
    }

    /// Answers the request from the tree under this node: resolves it and,
    /// where it is resolved, lets the handler stage of the route answer.
    pub fn serve(&self, req: Request, ctx: Context) -> (out: Served)
        requires
            callable(*self),
            req.wf(),
        ensures
            served(*self, req, ctx, out.response, out.request),
            out.request is Some ==> out.request->0.wf(),
    {
        let ghost w = route(*self, req@.path);
        let found = self.search(req, ctx);
        let ghost (trace, verdict) = choose|trace: Seq<State>, verdict: Verdict|
            #[trigger] front_run(trail_fangs(w.nodes), (req, ctx), trace, verdict) && resolved_as(
                w,
                verdict,
                found,
            );
        match found {
            Err(response) => {
                assert(settled(w, verdict, response, None));
                Served { response, request: None }
            },
            Ok(Resolved { request, context, node, params }) => {
                let response = node.handle(&request, context, params);
                proof {
                    assert(params@ == w.params && params.wf() && handled(
                        w.nodes.last(),
                        request,
                        context,
                        params,
                        response,
                    ));
                    assert(settled(w, verdict, response, Some(request)));
                }
                Served { response, request: Some(request) }
            },
        }
    }
}

/// A response given by a front interceptor on the way is a response of the
/// tree, and no handler ran for it.
pub proof fn lemma_rejection_is_served<
    F: Fn(Request, Context) -> Verdict,
    B: Fn(Response, &Request) -> Response,
    H: Fn(&Request, Context, PathParams) -> Response,
>(root: Node<F, B, H>, req: Request, ctx: Context, trace: Seq<State>, rejection: Response)
    requires
        front_run(
            trail_fangs(route(root, req@.path).nodes),
            (req, ctx),
            trace,
            Err::<(Request, Context), Response>(rejection),
        ),
    ensures
        served(root, req, ctx, rejection, None),
{
    let w = route(root, req@.path);
    let verdict = Err::<(Request, Context), Response>(rejection);
    assert(front_run(trail_fangs(w.nodes), (req, ctx), trace, verdict) && settled(
        w,
        verdict,
        rejection,
        None,
    ));
}

/// Where the front interceptors on the way cannot but end the request with
/// `rejection`, every response of the tree is `rejection`, exactly as the
/// interceptor gave it: neither the handler nor a back interceptor ran.
pub proof fn lemma_rejection_is_verbatim<
    F: Fn(Request, Context) -> Verdict,
    B: Fn(Response, &Request) -> Response,
    H: Fn(&Request, Context, PathParams) -> Response,
>(
    root: Node<F, B, H>,
    req: Request,
    ctx: Context,
    rejection: Response,
    res: Response,
    after: Option<Request>,
)
    requires
        served(root, req, ctx, res, after),
        forall|trace: Seq<State>, verdict: Verdict| #[trigger]
            front_run(trail_fangs(route(root, req@.path).nodes), (req, ctx), trace, verdict)
                ==> verdict == Err::<(Request, Context), Response>(rejection),
    ensures
        res == rejection,
        after is None,
{
}


/// The first front interceptor that gives a response ends the search: where
/// the interceptors on the way cannot but end the request with `rejection`,
/// the search gives `rejection`, exactly as the interceptor gave it, and no
/// route.
pub proof fn lemma_rejection_ends_search<
    F: Fn(Request, Context) -> Verdict,
    B: Fn(Response, &Request) -> Response,
    H: Fn(&Request, Context, PathParams) -> Response,
>(
    root: Node<F, B, H>,
    req: Request,
    ctx: Context,
    rejection: Response,
    out: Result<Resolved<F, B, H>, Response>,
)
    requires
        resolved(root, req, ctx, out),
        forall|trace: Seq<State>, verdict: Verdict| #[trigger]
            front_run(trail_fangs(route(root, req@.path).nodes), (req, ctx), trace, verdict)
                ==> verdict == Err::<(Request, Context), Response>(rejection),
    ensures
        out is Err,
        out->Err_0 == rejection,
{
}

/// What a run that an interceptor ended says: the interceptors before the
/// one that ended it ran in order, each on what the one before handed on;
/// that one gave the response; none after it ran.
pub proof fn lemma_rejecting_run<F: Fn(Request, Context) -> Verdict>(
    fangs: Seq<FrontFang<F>>,
    start: State,
    trace: Seq<State>,
    rejection: Response,
)
    requires
        front_run(fangs, start, trace, Err(rejection)),
    ensures
        1 <= trace.len() <= fangs.len(),
        trace[0] == start,
        forall|j: int|
            0 <= j < trace.len() - 1 ==> call_ensures(
                fangs[j].0,
                #[trigger] trace[j],
                Ok::<(Request, Context), Response>(trace[j + 1]),
            ),
        call_ensures(
            fangs[trace.len() - 1].0,
            trace.last(),
            Err::<(Request, Context), Response>(rejection),
        ),
{
}

} // verus!
