//! Merging the routes of one router into another, under a path prefix.

use crate::context::Context;
use crate::fang::{backs_total, fronts_total, BackFang, FrontFang, Verdict};
use crate::method::Method;
use crate::request::Request;
use crate::response::Response;
use crate::router::dispatch::{callable, handler_total};
use crate::router::node::{child_with, lemma_child_with, Node, PathParams};
use crate::router::pattern::{
    capture_count, compile, compiled, count_captures, Pattern, PatternView,
};
use crate::router::table::{routable, RegisterError, Router};
use crate::router::trie::{bounded, entry_at, is_prefix, lemma_child_with_unique, Entry};
use vstd::prelude::*;

verus! {

/// A route taken out of a tree: its patterns from the root, its handler and
/// its interceptors.
pub struct Route<F, B, H> {
    /// The patterns of the route, from the root.
    pub patterns: Vec<Pattern>,
    /// The handler of the route.
    pub handler: H,
    /// The front interceptors of the route.
    pub front: Vec<FrontFang<F>>,
    /// The back interceptors of the route.
    pub back: Vec<BackFang<B>>,
}

/// A route, as a mathematical value.
pub ghost struct RouteView<F, B, H> {
    /// The patterns of the route, from the root.
    pub pats: Seq<PatternView>,
    /// What the tree stored for the route.
    pub entry: Entry<F, B, H>,
}

impl<F, B, H> View for Route<F, B, H> {
    type V = RouteView<F, B, H>;

    open spec fn view(&self) -> RouteView<F, B, H> {
        RouteView {
            pats: self.patterns.deep_view(),
            entry: Entry { handler: self.handler, front: self.front@, back: self.back@ },
        }
    }
}

/// The mathematical values of `routes`.
pub open spec fn route_views<F, B, H>(routes: Seq<Route<F, B, H>>) -> Seq<RouteView<F, B, H>> {
    routes.map_values(|r: Route<F, B, H>| r@)
}

/// The route that ends at `node`, if one does; `pre` are the patterns from
/// the root to the node.
pub open spec fn own_route<F, B, H>(node: Node<F, B, H>, pre: Seq<PatternView>) -> Seq<
    RouteView<F, B, H>,
> {
    match node.entry() {
        Some(e) => seq![RouteView { pats: pre, entry: e }],
        None => Seq::empty(),
    }
}

/// The route that ends at `node` followed by the routes below its first
/// `upto` children, child after child.
pub open spec fn routes_upto<F, B, H>(node: Node<F, B, H>, pre: Seq<PatternView>, upto: nat) -> Seq<
    RouteView<F, B, H>,
>
    decreases node, upto,
{
    if upto == 0 {
        own_route(node, pre)
    } else if upto <= node.children@.len() {
        let child = node.children@[upto - 1];
        routes_upto(node, pre, (upto - 1) as nat) + routes_upto(
            child,
            pre + child.pats(),
            child.children@.len(),
        )
    } else {
        own_route(node, pre)
    }
}

/// The routes of the tree under `node`, in the order of a walk that visits a
/// node before its children; `pre` are the patterns from the root to the
/// node.
pub open spec fn routes_of<F, B, H>(node: Node<F, B, H>, pre: Seq<PatternView>) -> Seq<
    RouteView<F, B, H>,
> {
    routes_upto(node, pre, node.children@.len())
}

/// The entry of the route `q` after `routes`, each under the prefix `pre`,
/// have been set one after the other in the tree under `base`.
pub open spec fn merged_entry<F, B, H>(
    routes: Seq<RouteView<F, B, H>>,
    pre: Seq<PatternView>,
    base: Node<F, B, H>,
    q: Seq<PatternView>,
) -> Option<Entry<F, B, H>>
    decreases routes.len(),
{
    if routes.len() == 0 {
        entry_at(base, q)
    } else if pre + routes.last().pats == q {
        Some(routes.last().entry)
    } else {
        merged_entry(routes.drop_last(), pre, base, q)
    }
}

/// Whether one of `routes`, under the prefix `pre`, is a route of the tree
/// under `base`.
pub open spec fn clashes<F, B, H>(
    routes: Seq<RouteView<F, B, H>>,
    pre: Seq<PatternView>,
    base: Node<F, B, H>,
) -> bool {
    exists|i: int| 0 <= i < routes.len() && entry_at(base, pre + (#[trigger] routes[i]).pats) is Some
}

/// Whether one of `routes`, under the prefix `pre`, holds more than `limit`
/// captures.
pub open spec fn too_deep<F, B, H>(
    routes: Seq<RouteView<F, B, H>>,
    pre: Seq<PatternView>,
    limit: int,
) -> bool {
    exists|i: int| 0 <= i < routes.len() && capture_count(pre + (#[trigger] routes[i]).pats) > limit
}

/// Whether one of `routes`, under `prefix`, holds more than `limit`
/// captures.
pub fn any_too_deep<F, B, H>(prefix: &Vec<Pattern>, routes: &Vec<Route<F, B, H>>, limit: usize) -> (r:
    bool)
    ensures
        r == too_deep(route_views(routes@), prefix.deep_view(), limit as int),
{
    let ghost views = route_views(routes@);
    let ghost pre = prefix.deep_view();
    let mut i: usize = 0;
    while i < routes.len()
        invariant
            i <= routes@.len(),
            views == route_views(routes@),
            pre == prefix.deep_view(),
            forall|j: int| 0 <= j < i ==> capture_count(pre + (#[trigger] views[j]).pats) <= limit,
        decreases routes@.len() - i,
    {
        let full = joined(prefix, &routes[i].patterns);
        assert(views[i as int].pats == routes@[i as int].patterns.deep_view());
        if count_captures(&full) > limit {
            return true;
        }
        i += 1;
    }
    false
}

/// Whether the handlers and interceptors of `routes` may be called.
pub open spec fn routes_total<
    F: Fn(Request, Context) -> Verdict,
    B: Fn(Response, &Request) -> Response,
    H: Fn(&Request, Context, PathParams) -> Response,
>(routes: Seq<RouteView<F, B, H>>) -> bool {
    forall|i: int|
        0 <= i < routes.len() ==> fronts_total((#[trigger] routes[i]).entry.front) && backs_total(
            routes[i].entry.back,
        ) && handler_total(routes[i].entry.handler)
}

/// The routes of a callable tree may be called.
pub proof fn lemma_routes_total<
    F: Fn(Request, Context) -> Verdict,
    B: Fn(Response, &Request) -> Response,
    H: Fn(&Request, Context, PathParams) -> Response,
>(node: Node<F, B, H>, pre: Seq<PatternView>, upto: nat)
    requires
        callable(node),
        upto <= node.children@.len(),
    ensures
        routes_total(routes_upto(node, pre, upto)),
    decreases node, upto,
{
    if upto > 0 {
        let child = node.children@[upto - 1];
        lemma_routes_total(node, pre, (upto - 1) as nat);
        lemma_routes_total(child, pre + child.pats(), child.children@.len());
        let a = routes_upto(node, pre, (upto - 1) as nat);
        let b = routes_upto(child, pre + child.pats(), child.children@.len());
        assert forall|i: int| 0 <= i < (a + b).len() implies fronts_total(
            (#[trigger] (a + b)[i]).entry.front,
        ) && backs_total((a + b)[i].entry.back) && handler_total((a + b)[i].entry.handler) by {
            if i < a.len() {
                assert((a + b)[i] == a[i]);
            } else {
                assert((a + b)[i] == b[i - a.len()]);
            }
        }
    }
}

/// The patterns `a` followed by copies of the patterns `b`.
pub fn joined(a: &Vec<Pattern>, b: &Vec<Pattern>) -> (r: Vec<Pattern>)
    ensures
        r.deep_view() == a.deep_view() + b.deep_view(),
{
    let mut r: Vec<Pattern> = Vec::new();
    let mut i: usize = 0;
    while i < a.len()
        invariant
            i <= a@.len(),
            r@.len() == i,
            forall|j: int| 0 <= j < i ==> (#[trigger] r@[j])@ == a@[j]@,
        decreases a@.len() - i,
    {
        r.push(a[i].duplicate());
        i += 1;
    }
    let mut k: usize = 0;
    while k < b.len()
        invariant
            k <= b@.len(),
            r@.len() == a@.len() + k,
            forall|j: int| 0 <= j < a@.len() ==> (#[trigger] r@[j])@ == a@[j]@,
            forall|j: int| 0 <= j < k ==> (#[trigger] r@[a@.len() + j])@ == b@[j]@,
        decreases b@.len() - k,
    {
        r.push(b[k].duplicate());
        k += 1;
    }
    proof {
        let want = a.deep_view() + b.deep_view();
        assert forall|j: int| 0 <= j < r@.len() implies r.deep_view()[j] == want[j] by {
            if j < a@.len() {
                assert(r@[j]@ == a@[j]@);
            } else {
                let k = j - a@.len();
                assert(r@[a@.len() + k]@ == b@[k]@);
            }
        }
        assert(r.deep_view() =~= want);
    }
    r
}

impl<
    F: Fn(Request, Context) -> Verdict,
    B: Fn(Response, &Request) -> Response,
    H: Fn(&Request, Context, PathParams) -> Response,
> Node<F, B, H> {
    /// Takes the tree under this node apart and adds its routes to `out`, a
    /// node's route before the routes below it; `here` are the patterns from
    /// the root to this node.
    pub fn drain(self, here: &Vec<Pattern>, out: &mut Vec<Route<F, B, H>>)
        ensures
            route_views(final(out)@) == route_views(old(out)@) + routes_of(self, here.deep_view()),
        decreases self,
    {
        let ghost node = self;
        let ghost pre = here.deep_view();
        let ghost start = route_views(out@);
        let Node { patterns, front, handler, back, children } = self;
        match handler {
            Some(h) => {
                let copy = Self::copy_patterns(here, 0);
                assert(here.deep_view().skip(0) =~= here.deep_view());
                let route = Route { patterns: copy, handler: h, front, back };
                out.push(route);
                assert(route_views(out@) =~= start + own_route(node, pre));
            },
            None => {
                assert(route_views(out@) =~= start + own_route(node, pre));
            },
        }
        let mut rest = children;
        let mut i: usize = 0;
        let n: usize = rest.len();
        proof {
            assert(node.children@.skip(0) =~= node.children@);
        }
        while i < n
            invariant
                i <= n,
                n == node.children@.len(),
                node == self,
                pre == here.deep_view(),
                rest@ == node.children@.skip(i as int),
                route_views(out@) == start + routes_upto(node, pre, i as nat),
            decreases n - i,
        {
            let ghost before = route_views(out@);
            let child = rest.remove(0);
            proof {
                assert(child == node.children@[i as int]);
                assert(rest@ =~= node.children@.skip(i + 1));
                vstd::std_specs::vec::axiom_vec_index_decreases(node.children, i as int);
            }
            let path = joined(here, &child.patterns);
            child.drain(&path, out);
            proof {
                assert(route_views(out@) =~= start + routes_upto(node, pre, (i + 1) as nat));
            }
            i += 1;
        }
    }

    /// Whether one of `routes`, under `prefix`, is a route of this tree.
    pub fn clashes_with(&self, prefix: &Vec<Pattern>, routes: &Vec<Route<F, B, H>>) -> (r: bool)
        ensures
            r == clashes(route_views(routes@), prefix.deep_view(), *self),
    {
        let ghost views = route_views(routes@);
        let ghost pre = prefix.deep_view();
        let mut i: usize = 0;
        while i < routes.len()
            invariant
                i <= routes@.len(),
                views == route_views(routes@),
                pre == prefix.deep_view(),
                forall|j: int| 0 <= j < i ==> entry_at(*self, pre + (#[trigger] views[j]).pats) is None,
            decreases routes@.len() - i,
        {
            let full = joined(prefix, &routes[i].patterns);
            assert(full.deep_view().skip(0) =~= full.deep_view());
            assert(views[i as int].pats == routes@[i as int].patterns.deep_view());
            if self.has_route(&full, 0) {
                return true;
            }
            i += 1;
        }
        false
    }

    /// Sets each of `routes`, under `prefix`, in this tree, one after the
    /// other.
    pub fn absorb(self, prefix: &Vec<Pattern>, routes: Vec<Route<F, B, H>>) -> (r: Self)
        requires
            self.wf(),
        ensures
            r.wf(),
            r.pats() == self.pats(),
            forall|q: Seq<PatternView>|
                #[trigger] entry_at(r, q) == merged_entry(
                    route_views(routes@),
                    prefix.deep_view(),
                    self,
                    q,
                ),
            callable(self) && routes_total(route_views(routes@)) ==> callable(r),
            forall|budget: int|
                bounded(self, budget) && !too_deep(
                    route_views(routes@),
                    prefix.deep_view(),
                    budget - capture_count(self.pats()),
                ) ==> #[trigger] bounded(r, budget),
    {
        let ghost views = route_views(routes@);
        let ghost pre = prefix.deep_view();
        let ghost sound = callable(self) && routes_total(views);
        let mut node = self;
        let mut rest = routes;
        let n: usize = rest.len();
        let mut i: usize = 0;
        proof {
            assert(routes@.skip(0) =~= routes@);
            assert(views.take(0) =~= Seq::<RouteView<F, B, H>>::empty());
        }
        while i < n
            invariant
                i <= n,
                n == routes@.len(),
                views == route_views(routes@),
                pre == prefix.deep_view(),
                rest@ == routes@.skip(i as int),
                node.wf(),
                node.pats() == self.pats(),
                sound ==> callable(node),
                sound == (callable(self) && routes_total(views)),
                forall|q: Seq<PatternView>|
                    #[trigger] entry_at(node, q) == merged_entry(views.take(i as int), pre, self, q),
                forall|budget: int|
                    bounded(self, budget) && !too_deep(
                        views,
                        pre,
                        budget - capture_count(self.pats()),
                    ) ==> #[trigger] bounded(node, budget),
            decreases n - i,
        {
            let ghost before = node;
            let route = rest.remove(0);
            proof {
                assert(route == routes@[i as int]);
                assert(rest@ =~= routes@.skip(i + 1));
                assert(views[i as int] == route@);
                assert(views.take(i + 1).drop_last() =~= views.take(i as int));
                assert(views.take(i + 1).last() == route@);
            }
            let Route { patterns, handler, front, back } = route;
            let full = joined(prefix, &patterns);
            proof {
                assert(full.deep_view().skip(0) =~= full.deep_view());
                if sound {
                    assert(fronts_total(views[i as int].entry.front));
                }
            }
            node = node.insert_below(&full, 0, handler, front, back);
            proof {
                assert forall|q: Seq<PatternView>|
                    #[trigger] entry_at(node, q) == merged_entry(
                        views.take(i + 1),
                        pre,
                        self,
                        q,
                    ) by {
                    assert(entry_at(before, q) == merged_entry(views.take(i as int), pre, self, q));
                }
                assert forall|budget: int|
                    bounded(self, budget) && !too_deep(
                        views,
                        pre,
                        budget - capture_count(self.pats()),
                    ) implies #[trigger] bounded(node, budget) by {
                    assert(bounded(before, budget));
                    assert(capture_count(pre + views[i as int].pats) <= budget - capture_count(
                        self.pats(),
                    ));
                }
            }
            i += 1;
        }
        proof {
            assert(views.take(n as int) =~= views);
        }
        node
    }
}


/// Whether some route of the tree `sub` is, under the prefix `pre`, a route
/// of the tree `base`.
pub open spec fn overlaps<F, B, H>(sub: Node<F, B, H>, pre: Seq<PatternView>, base: Node<F, B, H>) -> bool {
    exists|q: Seq<PatternView>| entry_at(sub, q) is Some && #[trigger] entry_at(base, pre + q) is Some
}

/// The entry of the route `q` after the routes of the tree `sub` have been
/// moved, under the prefix `pre`, into the tree `base`: the entry that `q`
/// has in `sub` without the prefix, if it has one there, and else the entry
/// that it had in `base`.
pub open spec fn merged<F, B, H>(
    sub: Node<F, B, H>,
    pre: Seq<PatternView>,
    base: Node<F, B, H>,
    q: Seq<PatternView>,
) -> Option<Entry<F, B, H>> {
    if is_prefix(pre, q) && entry_at(sub, q.skip(pre.len() as int)) is Some {
        entry_at(sub, q.skip(pre.len() as int))
    } else {
        entry_at(base, q)
    }
}

/// Whether some route of the tree `sub` holds, under the prefix `pre`, more
/// than `limit` captures.
pub open spec fn deeper<F, B, H>(sub: Node<F, B, H>, pre: Seq<PatternView>, limit: int) -> bool {
    exists|q: Seq<PatternView>| #[trigger] entry_at(sub, q) is Some && capture_count(pre + q) > limit
}

/// The patterns of a path prefix: none for the empty prefix, else those
/// that the prefix denotes as a route string.
pub open spec fn prefix_patterns(prefix: Seq<u8>) -> Option<Seq<PatternView>> {
    if prefix.len() == 0 {
        Some(Seq::empty())
    } else {
        compiled(prefix)
    }
}

impl<
    F: Fn(Request, Context) -> Verdict,
    B: Fn(Response, &Request) -> Response,
    H: Fn(&Request, Context, PathParams) -> Response,
> Router<F, B, H> {
    /// Whether a route of `other`, under the prefix `pre`, is a route of
    /// this router for the same method.
    pub open spec fn clashes_with(&self, other: Router<F, B, H>, pre: Seq<PatternView>) -> bool {
        ||| overlaps(other.get, pre, self.get)
        ||| overlaps(other.put, pre, self.put)
        ||| overlaps(other.post, pre, self.post)
        ||| overlaps(other.patch, pre, self.patch)
        ||| overlaps(other.delete, pre, self.delete)
    }

    /// Whether a route of `other`, under the prefix `pre`, holds more
    /// captures than a request to this router may capture.
    pub open spec fn outgrown_by(&self, other: Router<F, B, H>, pre: Seq<PatternView>) -> bool {
        ||| deeper(other.get, pre, self.params_limit as int)
        ||| deeper(other.put, pre, self.params_limit as int)
        ||| deeper(other.post, pre, self.params_limit as int)
        ||| deeper(other.patch, pre, self.params_limit as int)
        ||| deeper(other.delete, pre, self.params_limit as int)
    }

    /// Moves the routes of `other` into this router, each under the path
    /// prefix `prefix`.
    ///
    /// The merge is refused when the prefix is neither empty nor a route
    /// string, when a route of `other` would hold too many captures under
    /// the prefix, and when a route of `other` would take the place of a
    /// route of this router, in this order; the router then stays as it
    /// was.  Only routes are
    /// merged: the policy of `other` and its interceptors for `HEAD` and
    /// `OPTIONS` are left behind.
    pub fn merge(&mut self, other: Router<F, B, H>, prefix: &[u8]) -> (r: Result<(), RegisterError>)
        requires
            old(self).wf(),
            other.wf(),
        ensures
            r == (if prefix_patterns(prefix@) is None {
                Err::<(), RegisterError>(RegisterError::InvalidPattern)
            } else if old(self).outgrown_by(other, prefix_patterns(prefix@)->0) {
                Err::<(), RegisterError>(RegisterError::TooManyParams)
            } else if old(self).clashes_with(other, prefix_patterns(prefix@)->0) {
                Err::<(), RegisterError>(RegisterError::Duplicate)
            } else {
                Ok::<(), RegisterError>(())
            }),
            r is Err ==> *final(self) == *old(self),
            r is Ok ==> final(self).wf(),
            r is Ok ==> forall|m: Method, q: Seq<PatternView>|
                routable(m) ==> #[trigger] entry_at(final(self).tree(m), q) == merged(
                    other.tree(m),
                    prefix_patterns(prefix@)->0,
                    old(self).tree(m),
                    q,
                ),
            final(self).head_front == old(self).head_front,
            final(self).head_back == old(self).head_back,
            final(self).options_front == old(self).options_front,
            final(self).options_back == old(self).options_back,
            final(self).cors == old(self).cors,
            final(self).params_limit == old(self).params_limit,
            r is Ok && old(self).sound() && other.sound() ==> final(self).sound(),
    {
        let pre: Vec<Pattern> = if prefix.len() == 0 {
            let none: Vec<Pattern> = Vec::new();
            assert(none.deep_view() =~= Seq::<PatternView>::empty());
            none
        } else {
            match compile(prefix) {
                None => {
                    return Err(RegisterError::InvalidPattern);
                },
                Some(pats) => pats,
            }
        };
        let root: Vec<Pattern> = Vec::new();
        assert(root.deep_view() =~= Seq::<PatternView>::empty());
        let Router { get, put, post, patch, delete, .. } = other;
        let mut gets: Vec<Route<F, B, H>> = Vec::new();
        let mut puts: Vec<Route<F, B, H>> = Vec::new();
        let mut posts: Vec<Route<F, B, H>> = Vec::new();
        let mut patches: Vec<Route<F, B, H>> = Vec::new();
        let mut deletes: Vec<Route<F, B, H>> = Vec::new();
        get.drain(&root, &mut gets);
        put.drain(&root, &mut puts);
        post.drain(&root, &mut posts);
        patch.drain(&root, &mut patches);
        delete.drain(&root, &mut deletes);
        proof {
            let none = Seq::<RouteView<F, B, H>>::empty();
            assert(route_views(gets@) =~= none + routes_of(other.get, Seq::empty()));
            assert(route_views(puts@) =~= none + routes_of(other.put, Seq::empty()));
            assert(route_views(posts@) =~= none + routes_of(other.post, Seq::empty()));
            assert(route_views(patches@) =~= none + routes_of(other.patch, Seq::empty()));
            assert(route_views(deletes@) =~= none + routes_of(other.delete, Seq::empty()));
            let limit = self.params_limit as int;
            lemma_too_deep(other.get, pre.deep_view(), limit);
            lemma_too_deep(other.put, pre.deep_view(), limit);
            lemma_too_deep(other.post, pre.deep_view(), limit);
            lemma_too_deep(other.patch, pre.deep_view(), limit);
            lemma_too_deep(other.delete, pre.deep_view(), limit);
            lemma_clashes(other.get, pre.deep_view(), self.get);
            lemma_clashes(other.put, pre.deep_view(), self.put);
            lemma_clashes(other.post, pre.deep_view(), self.post);
            lemma_clashes(other.patch, pre.deep_view(), self.patch);
            lemma_clashes(other.delete, pre.deep_view(), self.delete);
            if other.sound() {
                lemma_routes_total(other.get, Seq::empty(), other.get.children@.len());
                lemma_routes_total(other.put, Seq::empty(), other.put.children@.len());
                lemma_routes_total(other.post, Seq::empty(), other.post.children@.len());
                lemma_routes_total(other.patch, Seq::empty(), other.patch.children@.len());
                lemma_routes_total(other.delete, Seq::empty(), other.delete.children@.len());
            }
        }
        let limit: usize = self.params_limit;
        if any_too_deep(&pre, &gets, limit) || any_too_deep(&pre, &puts, limit) || any_too_deep(
            &pre,
            &posts,
            limit,
        ) || any_too_deep(&pre, &patches, limit) || any_too_deep(&pre, &deletes, limit) {
            return Err(RegisterError::TooManyParams);
        }
        if self.get.clashes_with(&pre, &gets) || self.put.clashes_with(&pre, &puts)
            || self.post.clashes_with(&pre, &posts) || self.patch.clashes_with(&pre, &patches)
            || self.delete.clashes_with(&pre, &deletes) {
            return Err(RegisterError::Duplicate);
        }
        Self::grow(&mut self.get, &pre, gets, limit);
        Self::grow(&mut self.put, &pre, puts, limit);
        Self::grow(&mut self.post, &pre, posts, limit);
        Self::grow(&mut self.patch, &pre, patches, limit);
        Self::grow(&mut self.delete, &pre, deletes, limit);
        proof {
            assert forall|m: Method, q: Seq<PatternView>| routable(m) implies #[trigger] entry_at(
                self.tree(m),
                q,
            ) == merged(other.tree(m), pre.deep_view(), old(self).tree(m), q) by {
                lemma_merged_routes(other.tree(m), pre.deep_view(), old(self).tree(m), q);
            }
        }
        Ok(())
    }

    /// Sets each of `routes`, under `prefix`, in the tree `slot`, none of
    /// whose routes holds more than `limit` captures.
    pub fn grow(
        slot: &mut Node<F, B, H>,
        prefix: &Vec<Pattern>,
        routes: Vec<Route<F, B, H>>,
        limit: usize,
    )
        requires
            old(slot).wf(),
            old(slot).patterns@.len() == 0,
            bounded(*old(slot), limit as int),
            !too_deep(route_views(routes@), prefix.deep_view(), limit as int),
        ensures
            final(slot).wf(),
            final(slot).patterns@.len() == 0,
            bounded(*final(slot), limit as int),
            forall|q: Seq<PatternView>|
                #[trigger] entry_at(*final(slot), q) == merged_entry(
                    route_views(routes@),
                    prefix.deep_view(),
                    *old(slot),
                    q,
                ),
            callable(*old(slot)) && routes_total(route_views(routes@)) ==> callable(*final(slot)),
    {
        let mut tree: Node<F, B, H> = Node::new();
        core::mem::swap(slot, &mut tree);
        let ghost before = tree;
        let mut grown = tree.absorb(prefix, routes);
        proof {
            assert(grown.pats().len() == grown.patterns@.len());
            assert(before.pats().len() == before.patterns@.len());
            assert(before.pats() =~= Seq::<PatternView>::empty());
            assert(bounded(grown, limit as int));
        }
        core::mem::swap(slot, &mut grown);
    }
}


/// The routes listed up to a child are the first of the routes listed up to
/// a later child.
pub proof fn lemma_routes_grow<F, B, H>(node: Node<F, B, H>, pre: Seq<PatternView>, k: nat, m: nat)
    requires
        k <= m <= node.children@.len(),
    ensures
        routes_upto(node, pre, k).len() <= routes_upto(node, pre, m).len(),
        forall|i: int|
            0 <= i < routes_upto(node, pre, k).len() ==> routes_upto(node, pre, m)[i]
                == #[trigger] routes_upto(node, pre, k)[i],
    decreases m - k,
{
    if k < m {
        lemma_routes_grow(node, pre, k, (m - 1) as nat);
    }
}

/// Every listed route is a route of the tree: its patterns start with the
/// patterns that lead to the node, and what follows them leads from the
/// node to the route's entry.
pub proof fn lemma_routes_sound<F, B, H>(
    node: Node<F, B, H>,
    pre: Seq<PatternView>,
    upto: nat,
    i: int,
)
    requires
        node.wf(),
        upto <= node.children@.len(),
        0 <= i < routes_upto(node, pre, upto).len(),
    ensures
        is_prefix(pre, routes_upto(node, pre, upto)[i].pats),
        entry_at(node, routes_upto(node, pre, upto)[i].pats.skip(pre.len() as int)) == Some(
            routes_upto(node, pre, upto)[i].entry,
        ),
    decreases node, upto,
{
    let r = routes_upto(node, pre, upto)[i];
    if upto == 0 {
        assert(r.pats.take(pre.len() as int) =~= pre);
        assert(r.pats.skip(pre.len() as int) =~= Seq::<PatternView>::empty());
    } else {
        let child = node.children@[upto - 1];
        let cp = child.pats();
        let a = routes_upto(node, pre, (upto - 1) as nat);
        let b = routes_upto(child, pre + cp, child.children@.len());
        if i < a.len() {
            lemma_routes_sound(node, pre, (upto - 1) as nat, i);
        } else {
            let j = i - a.len();
            assert(r == b[j]);
            lemma_routes_sound(child, pre + cp, child.children@.len(), j);
            let q = r.pats.skip(pre.len() as int);
            let n = pre.len() as int;
            assert(r.pats.take(n) =~= pre) by {
                assert(r.pats.take(n + cp.len()) == pre + cp);
                assert forall|x: int| 0 <= x < n implies r.pats.take(n)[x] == pre[x] by {
                    assert(r.pats.take(n + cp.len())[x] == (pre + cp)[x]);
                }
            }
            assert(q.take(cp.len() as int) =~= cp) by {
                assert forall|x: int| 0 <= x < cp.len() implies q.take(cp.len() as int)[x]
                    == cp[x] by {
                    assert(r.pats.take(n + cp.len())[n + x] == (pre + cp)[n + x]);
                }
            }
            assert(cp.len() > 0);
            assert(q[0] == cp[0]) by {
                assert(q.take(cp.len() as int)[0] == cp[0]);
            }
            lemma_child_with_unique(node.children@, q[0], upto - 1);
            assert(q.skip(cp.len() as int) =~= r.pats.skip((pre + cp).len() as int));
        }
    }
}

/// Every route of the tree is listed: the route that `q` leads to from the
/// node stands in the list, with the patterns that lead to the node before
/// `q`.
pub proof fn lemma_routes_complete<F, B, H>(
    node: Node<F, B, H>,
    pre: Seq<PatternView>,
    q: Seq<PatternView>,
    e: Entry<F, B, H>,
)
    requires
        node.wf(),
        entry_at(node, q) == Some(e),
    ensures
        exists|i: int|
            0 <= i < routes_of(node, pre).len() && #[trigger] routes_of(node, pre)[i] == (RouteView {
                pats: pre + q,
                entry: e,
            }),
    decreases node,
{
    let all = routes_of(node, pre);
    let n = node.children@.len();
    if q.len() == 0 {
        lemma_routes_grow(node, pre, 0, n);
        assert(pre + q =~= pre);
        assert(routes_upto(node, pre, 0)[0] == RouteView { pats: pre, entry: e });
        assert(all[0] == RouteView { pats: pre + q, entry: e });
    } else {
        lemma_child_with(node.children@, q[0], 0);
        let c = child_with(node.children@, q[0], 0)->0;
        let child = node.children@[c];
        let cp = child.pats();
        let rest = q.skip(cp.len() as int);
        lemma_routes_complete(child, pre + cp, rest, e);
        let below = routes_of(child, pre + cp);
        let j = choose|j: int|
            0 <= j < below.len() && #[trigger] below[j] == (RouteView {
                pats: (pre + cp) + rest,
                entry: e,
            });
        assert((pre + cp) + rest =~= pre + q) by {
            assert(q.take(cp.len() as int) == cp);
            assert(q =~= q.take(cp.len() as int) + rest);
        }
        let a = routes_upto(node, pre, c as nat);
        let upto = routes_upto(node, pre, (c + 1) as nat);
        assert(upto == a + below);
        assert(upto[a.len() + j] == below[j]);
        lemma_routes_grow(node, pre, (c + 1) as nat, n);
        assert(all[a.len() + j] == upto[a.len() + j]);
    }
}

/// What `merged_entry` gives: the entry of the last of `routes` that makes
/// `q` under the prefix, or, if none does, the entry of `q` in `base`.
pub proof fn lemma_merged_pick<F, B, H>(
    routes: Seq<RouteView<F, B, H>>,
    pre: Seq<PatternView>,
    base: Node<F, B, H>,
    q: Seq<PatternView>,
)
    ensures
        (exists|i: int|
            0 <= i < routes.len() && pre + (#[trigger] routes[i]).pats == q && merged_entry(
                routes,
                pre,
                base,
                q,
            ) == Some(routes[i].entry)) || ((forall|i: int|
            0 <= i < routes.len() ==> pre + (#[trigger] routes[i]).pats != q) && merged_entry(
            routes,
            pre,
            base,
            q,
        ) == entry_at(base, q)),
    decreases routes.len(),
{
    if routes.len() > 0 {
        let last = routes.len() - 1;
        if pre + routes.last().pats == q {
            assert(pre + routes[last].pats == q);
        } else {
            let init = routes.drop_last();
            lemma_merged_pick(init, pre, base, q);
            if exists|i: int|
                0 <= i < init.len() && pre + (#[trigger] init[i]).pats == q && merged_entry(
                    init,
                    pre,
                    base,
                    q,
                ) == Some(init[i].entry) {
                let i = choose|i: int|
                    0 <= i < init.len() && pre + (#[trigger] init[i]).pats == q && merged_entry(
                        init,
                        pre,
                        base,
                        q,
                    ) == Some(init[i].entry);
                assert(routes[i] == init[i]);
            } else {
                assert forall|i: int| 0 <= i < routes.len() implies pre + (#[trigger] routes[i]).pats
                    != q by {
                    if i < last {
                        assert(routes[i] == init[i]);
                    }
                }
            }
        }
    }
}

/// After the routes of the tree `sub` have been set under the prefix `pre`
/// in the tree `base`, a route has the entry that it has in `sub`, without
/// the prefix, if it has one there, and else the entry that it had in
/// `base`.
pub proof fn lemma_merged_routes<F, B, H>(
    sub: Node<F, B, H>,
    pre: Seq<PatternView>,
    base: Node<F, B, H>,
    q: Seq<PatternView>,
)
    requires
        sub.wf(),
    ensures
        merged_entry(routes_of(sub, Seq::empty()), pre, base, q) == merged(sub, pre, base, q),
{
    let none = Seq::<PatternView>::empty();
    let routes = routes_of(sub, none);
    let n = pre.len() as int;
    lemma_merged_pick(routes, pre, base, q);
    if exists|i: int|
        0 <= i < routes.len() && pre + (#[trigger] routes[i]).pats == q && merged_entry(
            routes,
            pre,
            base,
            q,
        ) == Some(routes[i].entry) {
        let i = choose|i: int|
            0 <= i < routes.len() && pre + (#[trigger] routes[i]).pats == q && merged_entry(
                routes,
                pre,
                base,
                q,
            ) == Some(routes[i].entry);
        lemma_routes_sound(sub, none, sub.children@.len(), i);
        assert(routes[i].pats.skip(0) =~= routes[i].pats);
        assert(q.take(n) =~= pre);
        assert(q.skip(n) =~= routes[i].pats);
    } else {
        if is_prefix(pre, q) && entry_at(sub, q.skip(n)) is Some {
            let e = entry_at(sub, q.skip(n))->0;
            lemma_routes_complete(sub, none, q.skip(n), e);
            let i = choose|i: int|
                0 <= i < routes.len() && #[trigger] routes[i] == (RouteView {
                    pats: none + q.skip(n),
                    entry: e,
                });
            assert(none + q.skip(n) =~= q.skip(n));
            assert(pre + routes[i].pats =~= q) by {
                assert(q =~= q.take(n) + q.skip(n));
            }
            assert(false);
        }
    }
}

/// The routes of the tree `sub`, under the prefix `pre`, clash with the
/// tree `base` exactly when some route of `sub` is, under the prefix, a
/// route of `base`.
pub proof fn lemma_clashes<F, B, H>(sub: Node<F, B, H>, pre: Seq<PatternView>, base: Node<F, B, H>)
    requires
        sub.wf(),
    ensures
        clashes(routes_of(sub, Seq::empty()), pre, base) <==> overlaps(sub, pre, base),
{
    let none = Seq::<PatternView>::empty();
    let routes = routes_of(sub, none);
    if clashes(routes, pre, base) {
        let i = choose|i: int|
            0 <= i < routes.len() && entry_at(base, pre + (#[trigger] routes[i]).pats) is Some;
        lemma_routes_sound(sub, none, sub.children@.len(), i);
        assert(routes[i].pats.skip(0) =~= routes[i].pats);
        assert(entry_at(sub, routes[i].pats) is Some && entry_at(base, pre + routes[i].pats) is Some);
    }
    if exists|q: Seq<PatternView>|
        entry_at(sub, q) is Some && #[trigger] entry_at(base, pre + q) is Some {
        let q = choose|q: Seq<PatternView>|
            entry_at(sub, q) is Some && #[trigger] entry_at(base, pre + q) is Some;
        lemma_routes_complete(sub, none, q, entry_at(sub, q)->0);
        let i = choose|i: int|
            0 <= i < routes.len() && #[trigger] routes[i] == (RouteView {
                pats: none + q,
                entry: entry_at(sub, q)->0,
            });
        assert(none + q =~= q);
        assert(entry_at(base, pre + routes[i].pats) is Some);
    }
}


/// One of the routes of the tree `sub` is too deep under the prefix `pre`
/// exactly when one of the listed routes is.
pub proof fn lemma_too_deep<F, B, H>(sub: Node<F, B, H>, pre: Seq<PatternView>, limit: int)
    requires
        sub.wf(),
    ensures
        too_deep(routes_of(sub, Seq::empty()), pre, limit) <==> deeper(sub, pre, limit),
{
    let none = Seq::<PatternView>::empty();
    let routes = routes_of(sub, none);
    if too_deep(routes, pre, limit) {
        let i = choose|i: int|
            0 <= i < routes.len() && capture_count(pre + (#[trigger] routes[i]).pats) > limit;
        lemma_routes_sound(sub, none, sub.children@.len(), i);
        assert(routes[i].pats.skip(0) =~= routes[i].pats);
        assert(entry_at(sub, routes[i].pats) is Some);
    }
    if deeper(sub, pre, limit) {
        let q = choose|q: Seq<PatternView>|
            #[trigger] entry_at(sub, q) is Some && capture_count(pre + q) > limit;
        lemma_routes_complete(sub, none, q, entry_at(sub, q)->0);
        let i = choose|i: int|
            0 <= i < routes.len() && #[trigger] routes[i] == (RouteView {
                pats: none + q,
                entry: entry_at(sub, q)->0,
            });
        assert(none + q =~= q);
        assert(capture_count(pre + routes[i].pats) > limit);
    }
}

} // verus!
