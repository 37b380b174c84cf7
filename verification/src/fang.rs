//! Interceptors ("fangs"): hooks that run before and after a route's handler.

use crate::context::Context;
use crate::request::Request;
use crate::response::Response;
use vstd::prelude::*;

verus! {

/// A hook that runs before the handler.
///
/// It receives the request and the per-request context, and either hands
/// both on, possibly changed, or ends the request with a response of its
/// own.
pub struct FrontFang<F>(pub F);

/// A hook that runs after the handler and may reshape the response.
pub struct BackFang<B>(pub B);

/// What a [`Fang`] does: it is either a front or a back hook.
pub enum FangProc<F, B> {
    /// Runs before the handler.
    Front(FrontFang<F>),
    /// Runs after the handler.
    Back(BackFang<B>),
}

/// One registered interceptor.
pub struct Fang<F, B> {
    /// The hook itself.
    pub proc: FangProc<F, B>,
}

impl<F, B> Fang<F, B> {
    /// A front interceptor made of `f`.
    pub fn front(f: F) -> (r: Self)
        ensures
            r.proc == FangProc::<F, B>::Front(FrontFang(f)),
    {
        Fang { proc: FangProc::Front(FrontFang(f)) }
    }

    /// A back interceptor made of `b`.
    pub fn back(b: B) -> (r: Self)
        ensures
            r.proc == FangProc::<F, B>::Back(BackFang(b)),
    {
        Fang { proc: FangProc::Back(BackFang(b)) }
    }

    /// Whether this interceptor runs before the handler.
    pub fn is_front(&self) -> (r: bool)
        ensures
            r == (self.proc is Front),
    {
        match self.proc {
            FangProc::Front(_) => true,
            FangProc::Back(_) => false,
        }
    }
}


/// The state that front interceptors pass along: the request and the context.
pub type State = (Request, Context);

/// What running front interceptors gives: the state to go on with, or the
/// response that ends the request.
pub type Verdict = Result<(Request, Context), Response>;

/// Whether `f` may be called on every well-formed request, whatever the
/// context, and hands on none but well-formed requests.
pub open spec fn front_total<F: Fn(Request, Context) -> Verdict>(f: FrontFang<F>) -> bool {
    &&& forall|req: Request, ctx: Context| req.wf() ==> call_requires(f.0, (req, ctx))
    &&& forall|req: Request, ctx: Context, next: State|
        req.wf() && call_ensures(f.0, (req, ctx), Ok::<(Request, Context), Response>(next))
            ==> next.0.wf()
}

/// Whether `b` may be called on every response to every well-formed request.
pub open spec fn back_total<B: Fn(Response, &Request) -> Response>(b: BackFang<B>) -> bool {
    forall|res: Response, req: &Request| req.wf() ==> call_requires(b.0, (res, req))
}

/// Whether every interceptor of `fangs` may be called on every state.
pub open spec fn fronts_total<F: Fn(Request, Context) -> Verdict>(fangs: Seq<FrontFang<F>>) -> bool {
    forall|i: int| 0 <= i < fangs.len() ==> front_total(#[trigger] fangs[i])
}

/// Whether every interceptor of `fangs` may be called on every response and request.
pub open spec fn backs_total<B: Fn(Response, &Request) -> Response>(fangs: Seq<BackFang<B>>) -> bool {
    forall|i: int| 0 <= i < fangs.len() ==> back_total(#[trigger] fangs[i])
}

/// Whether `trace` records a run of `fangs` from `start` that ends in `out`.
///
/// The interceptors run in order, each on the state that the one before it
/// handed on; `trace` holds these states, beginning with `start`.  The run
/// ends with the state that the last interceptor hands on, or with the
/// response of the first interceptor that gives one, after which no
/// interceptor runs.
pub open spec fn front_run<F: Fn(Request, Context) -> Verdict>(
    fangs: Seq<FrontFang<F>>,
    start: State,
    trace: Seq<State>,
    out: Verdict,
) -> bool {
    &&& 1 <= trace.len() <= fangs.len() + 1
    &&& trace[0] == start
    &&& forall|j: int|
        0 <= j < trace.len() - 1 ==> call_ensures(
            fangs[j].0,
            #[trigger] trace[j],
            Ok::<(Request, Context), Response>(trace[j + 1]),
        )
    &&& match out {
        Ok(end) => trace.len() == fangs.len() + 1 && end == trace.last(),
        Err(res) => trace.len() <= fangs.len() && call_ensures(
            fangs[trace.len() - 1].0,
            trace.last(),
            Err::<(Request, Context), Response>(res),
        ),
    }
}

/// Whether `trace` records the run of `fangs` on the response `start` to
/// the request `req`: each interceptor gets the response that the one
/// before it returned, and `out` is what the last returns.
pub open spec fn back_run<B: Fn(Response, &Request) -> Response>(
    fangs: Seq<BackFang<B>>,
    req: Request,
    start: Response,
    trace: Seq<Response>,
    out: Response,
) -> bool {
    &&& trace.len() == fangs.len() + 1
    &&& trace[0] == start
    &&& out == trace.last()
    &&& forall|j: int|
        0 <= j < fangs.len() ==> call_ensures(fangs[j].0, (#[trigger] trace[j], &req), trace[j + 1])
}

/// A run that ends well, followed by a run from where it ended, is a run of
/// both lists of interceptors.
pub proof fn lemma_front_run_then<F: Fn(Request, Context) -> Verdict>(
    a: Seq<FrontFang<F>>,
    b: Seq<FrontFang<F>>,
    start: State,
    first: Seq<State>,
    mid: State,
    second: Seq<State>,
    out: Verdict,
)
    requires
        front_run(a, start, first, Ok(mid)),
        front_run(b, mid, second, out),
    ensures
        front_run(a + b, start, first + second.skip(1), out),
{
    let all = a + b;
    let trace = first + second.skip(1);
    let n = a.len() as int;
    assert(first.len() == n + 1);
    assert forall|j: int| 0 <= j < trace.len() - 1 implies call_ensures(
        all[j].0,
        #[trigger] trace[j],
        Ok::<(Request, Context), Response>(trace[j + 1]),
    ) by {
        if j < n {
            assert(trace[j] == first[j]);
            if j + 1 <= n {
                assert(trace[j + 1] == first[j + 1]);
            }
            assert(all[j] == a[j]);
        } else {
            assert(all[j] == b[j - n]);
            assert(second[j - n] == trace[j]) by {
                if j == n {
                    assert(trace[n] == first[n]);
                } else {
                    assert(trace[j] == second.skip(1)[j - n - 1]);
                }
            }
            assert(trace[j + 1] == second.skip(1)[j - n]);
            assert(second[j - n + 1] == trace[j + 1]);
        }
    }
    match out {
        Ok(end) => {
            if second.len() == 1 {
                assert(trace =~= first);
            } else {
                assert(trace.last() == second.last());
            }
        },
        Err(res) => {
            let k = second.len() as int;
            assert(trace.len() == n + k);
            assert(all[n + k - 1] == b[k - 1]);
            if k == 1 {
                assert(trace =~= first);
            } else {
                assert(trace.last() == second.last());
            }
        },
    }
}

/// Runs `fangs` in order from the state `(req, ctx)`.
///
/// Whatever the interceptors return, the result is the end of a run of
/// them: the state that the last hands on, or the response of the first
/// that gives one.
pub fn run_front<F: Fn(Request, Context) -> Verdict>(
    fangs: &Vec<FrontFang<F>>,
    req: Request,
    ctx: Context,
) -> (out: Verdict)
    requires
        fronts_total(fangs@),
        req.wf(),
    ensures
        exists|trace: Seq<State>| front_run(fangs@, (req, ctx), trace, out),
        out is Ok ==> out->Ok_0.0.wf(),
{
    let mut state = (req, ctx);
    let ghost mut trace: Seq<State> = seq![(req, ctx)];
    let mut i: usize = 0;
    while i < fangs.len()
        invariant
            i <= fangs@.len(),
            fronts_total(fangs@),
            trace.len() == i + 1,
            trace[0] == (req, ctx),
            trace.last() == state,
            state.0.wf(),
            forall|j: int|
                0 <= j < trace.len() - 1 ==> call_ensures(
                    fangs@[j].0,
                    #[trigger] trace[j],
                    Ok::<(Request, Context), Response>(trace[j + 1]),
                ),
        decreases fangs@.len() - i,
    {
        let (r, c) = state;
        assert(front_total(fangs@[i as int]));
        match (fangs[i].0)(r, c) {
            Ok(next) => {
                proof {
                    let before = trace;
                    trace = trace.push(next);
                    assert forall|j: int| 0 <= j < trace.len() - 1 implies call_ensures(
                        fangs@[j].0,
                        #[trigger] trace[j],
                        Ok::<(Request, Context), Response>(trace[j + 1]),
                    ) by {
                        if j < before.len() - 1 {
                            assert(trace[j] == before[j]);
                            assert(trace[j + 1] == before[j + 1]);
                        }
                    }
                }
                state = next;
            },
            Err(res) => {
                assert(front_run(fangs@, (req, ctx), trace, Err::<(Request, Context), Response>(res)));
                return Err(res);
            },
        }
        i += 1;
    }
    assert(front_run(fangs@, (req, ctx), trace, Ok::<(Request, Context), Response>(state)));
    Ok(state)
}

/// Runs `fangs` in order on the response `res` to the request `req`.
pub fn run_back<B: Fn(Response, &Request) -> Response>(
    fangs: &Vec<BackFang<B>>,
    req: &Request,
    res: Response,
) -> (out: Response)
    requires
        backs_total(fangs@),
        req.wf(),
    ensures
        exists|trace: Seq<Response>| back_run(fangs@, *req, res, trace, out),
{
    let mut cur = res;
    let ghost mut trace: Seq<Response> = seq![res];
    let mut i: usize = 0;
    while i < fangs.len()
        invariant
            i <= fangs@.len(),
            backs_total(fangs@),
            req.wf(),
            trace.len() == i + 1,
            trace[0] == res,
            trace.last() == cur,
            forall|j: int|
                0 <= j < i ==> call_ensures(fangs@[j].0, (#[trigger] trace[j], req), trace[j + 1]),
        decreases fangs@.len() - i,
    {
        assert(back_total(fangs@[i as int]));
        let next = (fangs[i].0)(cur, req);
        proof {
            let before = trace;
            trace = trace.push(next);
            assert forall|j: int| 0 <= j < i + 1 implies call_ensures(
                fangs@[j].0,
                (#[trigger] trace[j], req),
                trace[j + 1],
            ) by {
                if j < i {
                    assert(trace[j] == before[j]);
                    assert(trace[j + 1] == before[j + 1]);
                }
            }
        }
        cur = next;
        i += 1;
    }
    assert(back_run(fangs@, *req, res, trace, cur));
    cur
}


/// A run that an interceptor ends is also a run of any longer list that
/// starts with the same interceptors: those that follow never run.
pub proof fn lemma_front_run_stops<F: Fn(Request, Context) -> Verdict>(
    a: Seq<FrontFang<F>>,
    b: Seq<FrontFang<F>>,
    start: State,
    trace: Seq<State>,
    res: Response,
)
    requires
        front_run(a, start, trace, Err(res)),
    ensures
        front_run(a + b, start, trace, Err(res)),
{
    let all = a + b;
    assert forall|j: int| 0 <= j < trace.len() - 1 implies call_ensures(
        all[j].0,
        #[trigger] trace[j],
        Ok::<(Request, Context), Response>(trace[j + 1]),
    ) by {
        assert(all[j] == a[j]);
    }
    assert(all[trace.len() - 1] == a[trace.len() - 1]);
}

/// No interceptors: the run ends where it started.
pub proof fn lemma_front_run_none<F: Fn(Request, Context) -> Verdict>(
    start: State,
    trace: Seq<State>,
    out: Verdict,
)
    requires
        front_run(Seq::<FrontFang<F>>::empty(), start, trace, out),
    ensures
        out == Ok::<(Request, Context), Response>(start),
{
}

/// No interceptors: the response stays as it is.
pub proof fn lemma_back_run_none<B: Fn(Response, &Request) -> Response>(
    req: Request,
    start: Response,
    trace: Seq<Response>,
    out: Response,
)
    requires
        back_run(Seq::<BackFang<B>>::empty(), req, start, trace, out),
    ensures
        out == start,
{
}


/// Things that can be made into an interceptor.
pub trait IntoFang<F, B>: Sized {
    /// The interceptor that `self` is made into.
    spec fn as_fang(self) -> Fang<F, B>;

    /// Makes the interceptor.
    fn into_fang(self) -> (r: Fang<F, B>)
        ensures
            r == self.as_fang(),
    ;
}

impl<F, B> IntoFang<F, B> for Fang<F, B> {
    open spec fn as_fang(self) -> Fang<F, B> {
        self
    }

    fn into_fang(self) -> (r: Fang<F, B>) {
        self
    }
}

impl<F, B> IntoFang<F, B> for FrontFang<F> {
    open spec fn as_fang(self) -> Fang<F, B> {
        Fang { proc: FangProc::Front(self) }
    }

    fn into_fang(self) -> (r: Fang<F, B>) {
        Fang { proc: FangProc::Front(self) }
    }
}

impl<F, B> IntoFang<F, B> for BackFang<B> {
    open spec fn as_fang(self) -> Fang<F, B> {
        Fang { proc: FangProc::Back(self) }
    }

    fn into_fang(self) -> (r: Fang<F, B>) {
        Fang { proc: FangProc::Back(self) }
    }
}

/// Collections of things that can be made into interceptors.
pub trait Fangs<F, B>: Sized {
    /// The interceptors of the collection, in order.
    spec fn as_fangs(self) -> Seq<Fang<F, B>>;

    /// Makes the interceptors, in order.
    fn collect(self) -> (r: Vec<Fang<F, B>>)
        ensures
            r@ == self.as_fangs(),
    ;
}

impl<F, B> Fangs<F, B> for () {
    open spec fn as_fangs(self) -> Seq<Fang<F, B>> {
        Seq::empty()
    }

    fn collect(self) -> (r: Vec<Fang<F, B>>) {
        Vec::new()
    }
}

impl<F, B> Fangs<F, B> for Vec<Fang<F, B>> {
    open spec fn as_fangs(self) -> Seq<Fang<F, B>> {
        self@
    }

    fn collect(self) -> (r: Vec<Fang<F, B>>) {
        self
    }
}

impl<F, B, T1: IntoFang<F, B>> Fangs<F, B> for (T1,) {
    open spec fn as_fangs(self) -> Seq<Fang<F, B>> {
        seq![self.0.as_fang()]
    }

    fn collect(self) -> (r: Vec<Fang<F, B>>) {
        let mut r: Vec<Fang<F, B>> = Vec::new();
        r.push(self.0.into_fang());
        assert(r@ =~= seq![self.0.as_fang()]);
        r
    }
}

impl<F, B, T1: IntoFang<F, B>, T2: IntoFang<F, B>> Fangs<F, B> for (T1, T2) {
    open spec fn as_fangs(self) -> Seq<Fang<F, B>> {
        seq![self.0.as_fang(), self.1.as_fang()]
    }

    fn collect(self) -> (r: Vec<Fang<F, B>>) {
        let mut r: Vec<Fang<F, B>> = Vec::new();
        r.push(self.0.into_fang());
        r.push(self.1.into_fang());
        assert(r@ =~= seq![self.0.as_fang(), self.1.as_fang()]);
        r
    }
}

impl<F, B, T1: IntoFang<F, B>, T2: IntoFang<F, B>, T3: IntoFang<F, B>> Fangs<F, B> for (T1, T2, T3) {
    open spec fn as_fangs(self) -> Seq<Fang<F, B>> {
        seq![self.0.as_fang(), self.1.as_fang(), self.2.as_fang()]
    }

    fn collect(self) -> (r: Vec<Fang<F, B>>) {
        let mut r: Vec<Fang<F, B>> = Vec::new();
        r.push(self.0.into_fang());
        r.push(self.1.into_fang());
        r.push(self.2.into_fang());
        assert(r@ =~= seq![self.0.as_fang(), self.1.as_fang(), self.2.as_fang()]);
        r
    }
}

impl<
    F,
    B,
    T1: IntoFang<F, B>,
    T2: IntoFang<F, B>,
    T3: IntoFang<F, B>,
    T4: IntoFang<F, B>,
> Fangs<F, B> for (T1, T2, T3, T4) {
    open spec fn as_fangs(self) -> Seq<Fang<F, B>> {
        seq![self.0.as_fang(), self.1.as_fang(), self.2.as_fang(), self.3.as_fang()]
    }

    fn collect(self) -> (r: Vec<Fang<F, B>>) {
        let mut r: Vec<Fang<F, B>> = Vec::new();
        r.push(self.0.into_fang());
        r.push(self.1.into_fang());
        r.push(self.2.into_fang());
        r.push(self.3.into_fang());
        assert(r@ =~= seq![
            self.0.as_fang(),
            self.1.as_fang(),
            self.2.as_fang(),
            self.3.as_fang(),
        ]);
        r
    }
}

/// The front interceptors among `fangs`, in order.
pub open spec fn fronts_of<F, B>(fangs: Seq<Fang<F, B>>) -> Seq<FrontFang<F>>
    decreases fangs.len(),
{
    if fangs.len() == 0 {
        Seq::empty()
    } else {
        match fangs.last().proc {
            FangProc::Front(f) => fronts_of(fangs.drop_last()).push(f),
            FangProc::Back(_) => fronts_of(fangs.drop_last()),
        }
    }
}

/// The back interceptors among `fangs`, in order.
pub open spec fn backs_of<F, B>(fangs: Seq<Fang<F, B>>) -> Seq<BackFang<B>>
    decreases fangs.len(),
{
    if fangs.len() == 0 {
        Seq::empty()
    } else {
        match fangs.last().proc {
            FangProc::Front(_) => backs_of(fangs.drop_last()),
            FangProc::Back(b) => backs_of(fangs.drop_last()).push(b),
        }
    }
}

/// Sorts interceptors into those that run before the handler and those
/// that run after it, each kind in its registration order.
pub fn split_fangs<F, B>(fangs: Vec<Fang<F, B>>) -> (r: (Vec<FrontFang<F>>, Vec<BackFang<B>>))
    ensures
        r.0@ == fronts_of(fangs@),
        r.1@ == backs_of(fangs@),
{
    let mut rest = fangs;
    let mut front: Vec<FrontFang<F>> = Vec::new();
    let mut back: Vec<BackFang<B>> = Vec::new();
    let ghost mut seen: int = 0;
    proof {
        assert(fangs@.take(0) =~= Seq::<Fang<F, B>>::empty());
        assert(fangs@.skip(0) =~= fangs@);
    }
    while rest.len() > 0
        invariant
            0 <= seen <= fangs@.len(),
            rest@ == fangs@.skip(seen),
            front@ == fronts_of(fangs@.take(seen)),
            back@ == backs_of(fangs@.take(seen)),
        decreases rest@.len(),
    {
        let fang = rest.remove(0);
        proof {
            assert(fang == fangs@[seen]);
            assert(fangs@.take(seen + 1).drop_last() =~= fangs@.take(seen));
            assert(fangs@.take(seen + 1).last() == fang);
            assert(rest@ =~= fangs@.skip(seen + 1));
        }
        match fang.proc {
            FangProc::Front(f) => {
                front.push(f);
            },
            FangProc::Back(b) => {
                back.push(b);
            },
        }
        proof {
            seen = seen + 1;
        }
    }
    proof {
        assert(fangs@.take(seen) =~= fangs@);
    }
    (front, back)
}

} // verus!
