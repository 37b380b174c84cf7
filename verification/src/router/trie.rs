//! Building the routing tree: which routes a tree holds, and how a route is
//! inserted while shared prefixes stay merged.

use crate::context::Context;
use crate::fang::{backs_total, fronts_total, BackFang, FrontFang, Verdict};
use crate::request::Request;
use crate::response::Response;
use crate::router::dispatch::{callable, handler_total};
use crate::router::node::{child_with, first_match, lemma_child_with, walk, Node, PathParams};
use crate::router::pattern::{
    all_static, capture_count, captures, lemma_capture_count_split, lemma_captures_accepts,
    lemma_captures_concat, lemma_captures_consume, lemma_captures_len, lemma_captures_static,
    Pattern, PatternView,
};
use vstd::prelude::*;

verus! {

/// What a tree stores for one route: its handler and its interceptors.
pub ghost struct Entry<F, B, H> {
    /// The handler of the route.
    pub handler: H,
    /// The route's front interceptors, in registration order.
    pub front: Seq<FrontFang<F>>,
    /// The route's back interceptors, in registration order.
    pub back: Seq<BackFang<B>>,
}

/// Whether `a` is a prefix of `b`.
pub open spec fn is_prefix(a: Seq<PatternView>, b: Seq<PatternView>) -> bool {
    a.len() <= b.len() && b.take(a.len() as int) == a
}

/// The children start with pairwise different patterns, none is without
/// patterns, and only the last may start with a capture.
pub open spec fn siblings_ok<F, B, H>(children: Seq<Node<F, B, H>>) -> bool {
    &&& forall|i: int| 0 <= i < children.len() ==> (#[trigger] children[i]).pats().len() > 0
    &&& forall|i: int, j: int|
        0 <= i < children.len() && 0 <= j < children.len() && i != j ==> (#[trigger] children[i]).pats()[0]
            != (#[trigger] children[j]).pats()[0]
    &&& forall|i: int|
        0 <= i < children.len() && (#[trigger] children[i]).pats()[0] is Param ==> i
            == children.len() - 1
}

/// Among well-formed siblings, a child that starts with `first` is the one `child_with` finds.
pub proof fn lemma_child_with_unique<F, B, H>(children: Seq<Node<F, B, H>>, first: PatternView, i: int)
    requires
        siblings_ok(children),
        0 <= i < children.len(),
        children[i].pats()[0] == first,
    ensures
        child_with(children, first, 0) == Some(i),
{
    lemma_child_with(children, first, 0);
}

impl<F, B, H> Node<F, B, H> {
    /// What this node stores for the route that ends at it, if one does.
    pub open spec fn entry(&self) -> Option<Entry<F, B, H>> {
        match self.handler {
            Some(h) => Some(Entry { handler: h, front: self.front@, back: self.back@ }),
            None => None,
        }
    }

    /// Whether the node is there for a reason: it is the end of a route or
    /// the way to other nodes.
    pub open spec fn live(&self) -> bool {
        self.handler is Some || self.children@.len() > 0
    }

    /// The shape that insertion keeps: below every node the siblings are
    /// well-formed and each of them is the end of a route or the way to
    /// one, and a node without a handler has no interceptors.
    pub open spec fn wf(&self) -> bool
        decreases self,
    {
        &&& siblings_ok(self.children@)
        &&& self.handler is None ==> self.front@.len() == 0 && self.back@.len() == 0
        &&& forall|i: int| 0 <= i < self.children@.len() ==> (#[trigger] self.children@[i]).live()
        &&& forall|i: int| 0 <= i < self.children@.len() ==> (#[trigger] self.children@[i]).wf()
    }
}

/// The entry of the route whose patterns, counted from below `node`, are `pats`.
///
/// The route descends into the child whose patterns are a prefix of `pats`
/// and goes on below it with what is left; it ends where nothing is left.
pub open spec fn entry_at<F, B, H>(node: Node<F, B, H>, pats: Seq<PatternView>) -> Option<Entry<F, B, H>>
    decreases node,
{
    if pats.len() == 0 {
        node.entry()
    } else {
        match child_with(node.children@, pats[0], 0) {
            Some(i) => if 0 <= i < node.children@.len() && is_prefix(node.children@[i].pats(), pats) {
                entry_at(node.children@[i], pats.skip(node.children@[i].pats().len() as int))
            } else {
                None
            },
            None => None,
        }
    }
}


/// `child_with` looks only at the first pattern of each child.
pub proof fn lemma_child_with_firsts<F, B, H>(
    a: Seq<Node<F, B, H>>,
    b: Seq<Node<F, B, H>>,
    first: PatternView,
    from: int,
)
    requires
        0 <= from,
        a.len() == b.len(),
        forall|i: int|
            0 <= i < a.len() ==> (#[trigger] a[i]).pats().len() > 0 && b[i].pats().len() > 0
                && a[i].pats()[0] == b[i].pats()[0],
    ensures
        child_with(a, first, from) == child_with(b, first, from),
    decreases a.len() - from,
{
    if from < a.len() {
        assert(a[from].pats().len() > 0);
        lemma_child_with_firsts(a, b, first, from + 1);
    }
}

/// Two routes that share a prefix are equal exactly when what follows the prefix is.
pub proof fn lemma_same_rest(a: Seq<PatternView>, q: Seq<PatternView>, r: Seq<PatternView>)
    requires
        is_prefix(a, q),
        is_prefix(a, r),
    ensures
        (q == r) <==> (q.skip(a.len() as int) == r.skip(a.len() as int)),
{
    let n = a.len() as int;
    if q.skip(n) == r.skip(n) {
        assert(q.len() == r.len()) by {
            assert(q.skip(n).len() == q.len() - n);
            assert(r.skip(n).len() == r.len() - n);
        }
        assert forall|i: int| 0 <= i < q.len() implies q[i] == r[i] by {
            if i < n {
                assert(q.take(n)[i] == r.take(n)[i]);
            } else {
                assert(q.skip(n)[i - n] == r.skip(n)[i - n]);
            }
        }
        assert(q =~= r);
    }
}

/// Matching a prefix in two steps: first its first `k` patterns, then the rest.
pub proof fn lemma_prefix_steps(a: Seq<PatternView>, k: int, q: Seq<PatternView>)
    requires
        0 <= k <= a.len(),
        is_prefix(a.take(k), q),
    ensures
        is_prefix(a, q) <==> is_prefix(a.skip(k), q.skip(k)),
        is_prefix(a, q) ==> q.skip(k).skip(a.len() - k) == q.skip(a.len() as int),
{
    let n = a.len() as int;
    assert(a.take(k).len() == k);
    if is_prefix(a, q) {
        assert(q.skip(k).take(n - k) =~= a.skip(k)) by {
            assert forall|i: int| 0 <= i < n - k implies q.skip(k).take(n - k)[i] == a.skip(k)[i] by {
                assert(q.take(n)[i + k] == a[i + k]);
            }
        }
        assert(q.skip(k).skip(n - k) =~= q.skip(n));
    }
    if is_prefix(a.skip(k), q.skip(k)) {
        assert(a.skip(k).len() == n - k);
        assert(q.skip(k).len() == q.len() - k);
        assert(q.take(n) =~= a) by {
            assert forall|i: int| 0 <= i < n implies q.take(n)[i] == a[i] by {
                if i < k {
                    assert(q.take(k)[i] == a.take(k)[i]);
                } else {
                    assert(q.skip(k).take(n - k)[i - k] == a.skip(k)[i - k]);
                }
            }
        }
    }
}

/// A route without captures is found by resolving the path it spells: the
/// walk ends at the route's node and captures nothing.  This holds of every
/// tree, in whatever order its children stand: a literal is preferred to a
/// capture.
///
/// `pats` are the patterns of the route counted from the parent of `node`,
/// `segs` the segments that they spell.
pub proof fn lemma_static_route<F, B, H>(
    node: Node<F, B, H>,
    pats: Seq<PatternView>,
    segs: Seq<Seq<u8>>,
    e: Entry<F, B, H>,
)
    requires
        pats.len() == segs.len(),
        forall|i: int| 0 <= i < pats.len() ==> pats[i] == PatternView::Static(segs[i]),
        is_prefix(node.pats(), pats),
        entry_at(node, pats.skip(node.pats().len() as int)) == Some(e),
    ensures
        walk(node, segs).matched,
        walk(node, segs).params == Seq::<Seq<u8>>::empty(),
        walk(node, segs).nodes.last().entry() == Some(e),
    decreases node,
{
    let k = node.pats().len() as int;
    assert forall|i: int| 0 <= i < k implies node.pats()[i] == PatternView::Static(segs[i]) by {
        assert(pats.take(k)[i] == pats[i]);
    }
    assert(all_static(node.pats()));
    lemma_captures_static(node.pats(), segs);
    let rest = segs.skip(k);
    let below = pats.skip(k);
    if rest.len() != 0 {
        lemma_child_with(node.children@, below[0], 0);
        let i = child_with(node.children@, below[0], 0)->0;
        let c = node.children@[i];
        assert(below[0] == PatternView::Static(rest[0]));
        assert(first_match(node.children@, rest[0], 0) == Some(i));
        assert forall|j: int| 0 <= j < below.len() implies below[j] == PatternView::Static(rest[j]) by {
            assert(below[j] == pats[j + k]);
        }
        lemma_static_route(c, below, rest, e);
        let w = walk(c, rest);
        assert((seq![node] + w.nodes).last() == w.nodes.last()) by {
            crate::router::node::lemma_walk_shape(c, rest);
        }
        assert(Seq::<Seq<u8>>::empty() + w.params =~= w.params);
    }
}

impl<F, B, H> Node<F, B, H> {
    /// The child whose patterns start with `first`.
    pub fn find_child(&self, first: &Pattern) -> (r: Option<usize>)
        ensures
            r is Some ==> r->0 < self.children@.len(),
            match child_with(self.children@, first@, 0) {
                Some(i) => r is Some && r->0 as int == i,
                None => r is None,
            },
    {
        let mut i: usize = 0;
        while i < self.children.len()
            invariant
                i <= self.children@.len(),
                child_with(self.children@, first@, 0) == child_with(self.children@, first@, i as int),
            decreases self.children@.len() - i,
        {
            let child = &self.children[i];
            assert(child.pats().len() == child.patterns@.len());
            if child.patterns.len() > 0 {
                assert(child.pats()[0] == child.patterns@[0]@);
                if child.patterns[0].same(first) {
                    return Some(i);
                }
            }
            i += 1;
        }
        None
    }

    /// How many leading patterns this node shares with `pats[from..]`.
    pub fn shared_prefix(&self, pats: &Vec<Pattern>, from: usize) -> (k: usize)
        requires
            from <= pats@.len(),
        ensures
            k <= self.patterns@.len(),
            from + k <= pats@.len(),
            self.pats().take(k as int) == pats.deep_view().skip(from as int).take(k as int),
            k < self.patterns@.len() && from + k < pats@.len() ==> self.pats()[k as int]
                != pats.deep_view()[from + k],
    {
        let ghost rest = pats.deep_view().skip(from as int);
        let mut k: usize = 0;
        while k < self.patterns.len() && k < pats.len() - from
            invariant
                from <= pats@.len(),
                k <= self.patterns@.len(),
                from + k <= pats@.len(),
                rest == pats.deep_view().skip(from as int),
                forall|j: int| 0 <= j < k ==> self.pats()[j] == rest[j],
            decreases self.patterns@.len() - k,
        {
            assert(self.pats()[k as int] == self.patterns@[k as int]@);
            assert(pats.deep_view()[from + k] == pats@[from + k]@);
            if !self.patterns[k].same(&pats[from + k]) {
                assert(self.pats().take(k as int) =~= rest.take(k as int));
                return k;
            }
            k += 1;
        }
        assert(self.pats().take(k as int) =~= rest.take(k as int));
        k
    }

    /// Whether the tree below this node holds the route `pats[from..]`.
    pub fn has_route(&self, pats: &Vec<Pattern>, from: usize) -> (r: bool)
        requires
            from <= pats@.len(),
        ensures
            r == entry_at(*self, pats.deep_view().skip(from as int)) is Some,
        decreases self,
    {
        let ghost rest = pats.deep_view().skip(from as int);
        if from == pats.len() {
            return self.handler.is_some();
        }
        assert(rest[0] == pats@[from as int]@);
        proof {
            lemma_child_with(self.children@, rest[0], 0);
        }
        match self.find_child(&pats[from]) {
            None => false,
            Some(i) => {
                let child = &self.children[i];
                let k: usize = child.shared_prefix(pats, from);
                if k == child.patterns.len() {
                    proof {
                        assert(child.pats().take(k as int) =~= child.pats());
                        assert(rest.skip(k as int) =~= pats.deep_view().skip(from + k));
                    }
                    child.has_route(pats, from + k)
                } else {
                    proof {
                        if is_prefix(child.pats(), rest) {
                            assert(rest.take(child.pats().len() as int)[k as int] == rest[k as int]);
                            assert(rest[k as int] == pats.deep_view()[from + k]);
                        }
                    }
                    false
                }
            },
        }
    }
}


/// Whether no way down the tree under `node` passes more than `budget`
/// captures, those of the node itself included.
pub open spec fn bounded<F, B, H>(node: Node<F, B, H>, budget: int) -> bool
    decreases node,
{
    &&& capture_count(node.pats()) <= budget
    &&& forall|i: int|
        0 <= i < node.children@.len() ==> bounded(
            #[trigger] node.children@[i],
            budget - capture_count(node.pats()),
        )
}

/// A walk down a tree whose ways pass at most `budget` captures captures at
/// most `budget` segments.
pub proof fn lemma_walk_bounded<F, B, H>(node: Node<F, B, H>, segs: Seq<Seq<u8>>, budget: int)
    requires
        bounded(node, budget),
    ensures
        walk(node, segs).params.len() <= budget,
    decreases node,
{
    lemma_captures_len(node.pats(), segs);
    match captures(node.pats(), segs) {
        None => {},
        Some(caps) => {
            let rest = segs.skip(node.pats().len() as int);
            if rest.len() != 0 {
                match first_match(node.children@, rest[0], 0) {
                    Some(i) => {
                        if 0 <= i < node.children@.len() {
                            lemma_walk_bounded(
                                node.children@[i],
                                rest,
                                budget - capture_count(node.pats()),
                            );
                        }
                    },
                    None => {},
                }
            }
        },
    }
}

/// The entry found below a node depends only on the node's own entry and on its children.
pub proof fn lemma_entry_at_same<F, B, H>(a: Node<F, B, H>, b: Node<F, B, H>, q: Seq<PatternView>)
    requires
        a.entry() == b.entry(),
        a.children@ == b.children@,
    ensures
        entry_at(a, q) == entry_at(b, q),
{
}

/// Adding a leaf for a route that starts like no existing child keeps the
/// tree well-formed and adds exactly that route.
pub proof fn lemma_insert_leaf<F, B, H>(
    before: Node<F, B, H>,
    after: Node<F, B, H>,
    leaf: Node<F, B, H>,
    pos: int,
    rest: Seq<PatternView>,
    e: Entry<F, B, H>,
)
    requires
        before.wf(),
        rest.len() > 0,
        child_with(before.children@, rest[0], 0) is None,
        leaf.pats() == rest,
        leaf.entry() == Some(e),
        leaf.children@.len() == 0,
        rest[0] is Param ==> pos == before.children@.len(),
        !(rest[0] is Param) ==> pos == 0,
        after.children@ == before.children@.insert(pos, leaf),
        after.handler == before.handler,
        after.front == before.front,
        after.back == before.back,
    ensures
        after.wf(),
        forall|q: Seq<PatternView>|
            #[trigger] entry_at(after, q) == if q == rest {
                Some(e)
            } else {
                entry_at(before, q)
            },
{
    let a = before.children@;
    let b = after.children@;
    lemma_child_with(a, rest[0], 0);
    assert(b.len() == a.len() + 1);
    assert(b[pos] == leaf);
    assert forall|i: int| 0 <= i < b.len() && i != pos implies #[trigger] b[i] == a[if i < pos {
        i
    } else {
        i - 1
    }] by {}
    assert(leaf.wf());
    assert(siblings_ok(b)) by {
        assert forall|i: int| 0 <= i < b.len() implies (#[trigger] b[i]).pats().len() > 0 by {
            if i != pos {
                let i0 = if i < pos { i } else { i - 1 };
                assert(b[i] == a[i0]);
            }
        }
        assert forall|i: int, j: int| 0 <= i < b.len() && 0 <= j < b.len() && i != j implies (
        #[trigger] b[i]).pats()[0] != (#[trigger] b[j]).pats()[0] by {
            let i0 = if i < pos { i } else { i - 1 };
            let j0 = if j < pos { j } else { j - 1 };
            if i == pos {
                assert(b[j] == a[j0]);
            } else if j == pos {
                assert(b[i] == a[i0]);
            } else {
                assert(b[i] == a[i0]);
                assert(b[j] == a[j0]);
            }
        }
        assert forall|i: int| 0 <= i < b.len() && (#[trigger] b[i]).pats()[0] is Param implies i
            == b.len() - 1 by {
            if i != pos {
                let i0 = if i < pos { i } else { i - 1 };
                assert(b[i] == a[i0]);
                if rest[0] is Param {
                    assert(a[i0].pats()[0] == rest[0]);
                }
            }
        }
    }
    assert forall|i: int| 0 <= i < b.len() implies (#[trigger] b[i]).wf() by {
        if i != pos {
            let i0 = if i < pos { i } else { i - 1 };
            assert(b[i] == a[i0]);
        }
    }
    assert forall|i: int| 0 <= i < b.len() implies (#[trigger] b[i]).live() by {
        if i != pos {
            let i0 = if i < pos { i } else { i - 1 };
            assert(b[i] == a[i0]);
        }
    }
    assert forall|q: Seq<PatternView>|
        #[trigger] entry_at(after, q) == if q == rest {
            Some(e)
        } else {
            entry_at(before, q)
        } by {
        if q.len() == 0 {
            assert(entry_at(after, q) == entry_at(before, q));
        }
        if q.len() > 0 {
            lemma_child_with(a, q[0], 0);
            lemma_child_with(b, q[0], 0);
            if q[0] == rest[0] {
                lemma_child_with_unique(b, q[0], pos);
                assert(entry_at(before, q) is None);
                if is_prefix(rest, q) {
                    let x = q.skip(rest.len() as int);
                    if x.len() == 0 {
                        assert(q.take(rest.len() as int) =~= q);
                        assert(entry_at(after, q) == Some(e));
                    } else {
                        assert(q.len() != rest.len());
                        assert(entry_at(leaf, x) is None);
                        assert(entry_at(after, q) is None);
                    }
                } else {
                    if q == rest {
                        assert(rest.take(rest.len() as int) =~= rest);
                    }
                    assert(entry_at(after, q) is None);
                }
            } else {
                match child_with(b, q[0], 0) {
                    Some(j) => {
                        let j0 = if j < pos { j } else { j - 1 };
                        assert(b[j] == a[j0]);
                        lemma_child_with_unique(a, q[0], j0);
                        assert(entry_at(after, q) == entry_at(before, q));
                    },
                    None => {
                        match child_with(a, q[0], 0) {
                            Some(j0) => {
                                let j = if j0 < pos { j0 } else { j0 + 1 };
                                assert(b[j] == a[j0]);
                                assert(false);
                            },
                            None => {
                                assert(entry_at(after, q) == entry_at(before, q));
                            },
                        }
                    },
                }
            }
        }
    }
}

/// Replacing a child by one that holds the child's routes and the new one
/// keeps the tree well-formed and adds exactly the new route.
///
/// `kept` stands where the child `before.children[i]` stood until the new
/// route went into it: the child itself when the route runs through all of
/// its patterns, else the node that keeps the first `k` of them above the
/// child.  `grown` is `kept` with the new route.
pub proof fn lemma_insert_descend<F, B, H>(
    before: Node<F, B, H>,
    after: Node<F, B, H>,
    i: int,
    k: int,
    kept: Node<F, B, H>,
    grown: Node<F, B, H>,
    rest: Seq<PatternView>,
    e: Entry<F, B, H>,
)
    requires
        before.wf(),
        rest.len() > 0,
        0 <= i < before.children@.len(),
        before.children@[i].pats()[0] == rest[0],
        1 <= k <= before.children@[i].pats().len(),
        k <= rest.len(),
        before.children@[i].pats().take(k) == rest.take(k),
        kept.pats() == before.children@[i].pats().take(k),
        forall|x: Seq<PatternView>|
            #[trigger] entry_at(kept, x) == if k == before.children@[i].pats().len() {
                entry_at(before.children@[i], x)
            } else if x.len() > 0 && is_prefix(before.children@[i].pats().skip(k), x) {
                entry_at(before.children@[i], x.skip(before.children@[i].pats().len() - k))
            } else {
                None
            },
        grown.wf(),
        grown.live(),
        grown.pats() == kept.pats(),
        forall|x: Seq<PatternView>|
            #[trigger] entry_at(grown, x) == if x == rest.skip(k) {
                Some(e)
            } else {
                entry_at(kept, x)
            },
        after.children@ == before.children@.update(i, grown),
        after.handler == before.handler,
        after.front == before.front,
        after.back == before.back,
    ensures
        after.wf(),
        forall|q: Seq<PatternView>|
            #[trigger] entry_at(after, q) == if q == rest {
                Some(e)
            } else {
                entry_at(before, q)
            },
{
    let a = before.children@;
    let b = after.children@;
    let c = a[i];
    let n = c.pats().len() as int;
    assert(grown.pats().len() == k);
    assert(grown.pats()[0] == c.pats()[0]) by {
        assert(c.pats().take(k)[0] == c.pats()[0]);
    }
    assert forall|j: int| 0 <= j < a.len() implies (#[trigger] a[j]).pats().len() > 0 && b[j].pats().len()
        > 0 && a[j].pats()[0] == b[j].pats()[0] by {}
    assert(siblings_ok(b)) by {
        assert forall|j: int| 0 <= j < b.len() implies (#[trigger] b[j]).pats().len() > 0 by {
            assert(a[j].pats().len() > 0);
        }
        assert forall|x: int, y: int| 0 <= x < b.len() && 0 <= y < b.len() && x != y implies (
        #[trigger] b[x]).pats()[0] != (#[trigger] b[y]).pats()[0] by {
            assert(a[x].pats()[0] == b[x].pats()[0]);
            assert(a[y].pats()[0] == b[y].pats()[0]);
        }
        assert forall|j: int| 0 <= j < b.len() && (#[trigger] b[j]).pats()[0] is Param implies j
            == b.len() - 1 by {
            assert(a[j].pats()[0] == b[j].pats()[0]);
        }
    }
    assert forall|j: int| 0 <= j < b.len() implies (#[trigger] b[j]).wf() by {
        if j != i {
            assert(b[j] == a[j]);
        }
    }
    assert forall|j: int| 0 <= j < b.len() implies (#[trigger] b[j]).live() by {
        if j != i {
            assert(b[j] == a[j]);
        }
    }
    assert(is_prefix(c.pats().take(k), rest)) by {
        assert(c.pats().take(k).len() == k);
    }
    assert forall|q: Seq<PatternView>|
        #[trigger] entry_at(after, q) == if q == rest {
            Some(e)
        } else {
            entry_at(before, q)
        } by {
        if q.len() == 0 {
            assert(entry_at(after, q) == entry_at(before, q));
        } else {
            lemma_child_with_firsts(a, b, q[0], 0);
            lemma_child_with(a, q[0], 0);
            match child_with(a, q[0], 0) {
                None => {
                    assert(a[i].pats()[0] != q[0]);
                    assert(entry_at(after, q) == entry_at(before, q));
                },
                Some(j) => {
                    if j != i {
                        assert(b[j] == a[j]);
                        assert(a[j].pats()[0] != a[i].pats()[0]);
                        assert(entry_at(after, q) == entry_at(before, q));
                    } else {
                        let head = c.pats().take(k);
                        assert(b[i] == grown);
                        assert(head.len() == k);
                        if is_prefix(head, q) {
                            lemma_same_rest(head, q, rest);
                            lemma_prefix_steps(c.pats(), k, q);
                            let x = q.skip(k);
                            assert(entry_at(after, q) == entry_at(grown, x));
                            if k == n {
                                assert(c.pats().take(k) =~= c.pats());
                                assert(entry_at(before, q) == entry_at(c, x));
                            } else {
                                if is_prefix(c.pats(), q) {
                                    assert(x.len() > 0);
                                    assert(entry_at(before, q) == entry_at(c, q.skip(n)));
                                } else {
                                    assert(entry_at(before, q) is None);
                                }
                                if x.len() > 0 && is_prefix(c.pats().skip(k), x) {
                                    assert(x.skip(n - k) == q.skip(n));
                                }
                            }
                        } else {
                            if is_prefix(c.pats(), q) {
                                assert(q.take(k) =~= q.take(n).take(k));
                            }
                            if q == rest {
                                assert(false);
                            }
                            assert(entry_at(after, q) is None);
                            assert(entry_at(before, q) is None);
                        }
                    }
                },
            }
        }
    }
}

impl<
    F: Fn(Request, Context) -> Verdict,
    B: Fn(Response, &Request) -> Response,
    H: Fn(&Request, Context, PathParams) -> Response,
> Node<F, B, H> {
    /// Copies of the patterns `pats[from..]`.
    pub fn copy_patterns(pats: &Vec<Pattern>, from: usize) -> (r: Vec<Pattern>)
        requires
            from <= pats@.len(),
        ensures
            r.deep_view() == pats.deep_view().skip(from as int),
    {
        let mut r: Vec<Pattern> = Vec::new();
        let mut i: usize = from;
        while i < pats.len()
            invariant
                from <= i <= pats@.len(),
                r@.len() == i - from,
                forall|j: int| 0 <= j < r@.len() ==> (#[trigger] r@[j])@ == pats@[from + j]@,
            decreases pats@.len() - i,
        {
            r.push(pats[i].duplicate());
            i += 1;
        }
        assert(r.deep_view() =~= pats.deep_view().skip(from as int));
        r
    }

    /// Splits this node after its first `k` patterns.
    ///
    /// The result keeps the first `k` patterns and has a single child, which
    /// takes over the remaining patterns together with the handler, the
    /// interceptors and the children of this node.
    pub fn split(self, k: usize) -> (upper: Self)
        requires
            self.wf(),
            self.live(),
            0 < k < self.patterns@.len(),
        ensures
            upper.wf(),
            upper.live(),
            upper.pats() == self.pats().take(k as int),
            upper.entry() is None,
            upper.children@.len() == 1,
            upper.children@[0].pats() == self.pats().skip(k as int),
            upper.children@[0].entry() == self.entry(),
            upper.children@[0].children@ == self.children@,
            callable(self) ==> callable(upper),
            forall|budget: int| bounded(self, budget) ==> #[trigger] bounded(upper, budget),
    {
        let ghost before = self;
        let mut node = self;
        let tail = node.patterns.split_off(k);
        let lower = Node {
            patterns: tail,
            front: node.front,
            handler: node.handler,
            back: node.back,
            children: node.children,
        };
        proof {
            assert(lower.pats() =~= before.pats().skip(k as int));
            assert(lower.wf());
        }
        let mut children: Vec<Node<F, B, H>> = Vec::new();
        children.push(lower);
        let upper = Node {
            patterns: node.patterns,
            front: Vec::new(),
            handler: None,
            back: Vec::new(),
            children,
        };
        proof {
            assert(upper.pats() =~= before.pats().take(k as int));
            assert(upper.children@[0] == lower);
            if callable(before) {
                assert(callable(lower));
            }
            assert forall|budget: int| bounded(before, budget) implies #[trigger] bounded(
                upper,
                budget,
            ) by {
                lemma_capture_count_split(before.pats(), k as int);
                let left = budget - capture_count(upper.pats());
                assert forall|j: int| 0 <= j < lower.children@.len() implies bounded(
                    #[trigger] lower.children@[j],
                    left - capture_count(lower.pats()),
                ) by {
                    assert(lower.children@[j] == before.children@[j]);
                }
                assert(bounded(lower, left));
            }
        }
        upper
    }

    /// Sets the route `pats[from..]`, counted from below this node, with its
    /// handler and interceptors; a route that is already there is replaced.
    ///
    /// The route goes into the child that starts with the same pattern: all
    /// the way through it when the child's patterns are a prefix of the
    /// route, and otherwise after the child has been split where the two
    /// part.  Where no child starts like the route, the route becomes a new
    /// child, placed before a child that starts with a capture.
    pub fn insert_below(
        self,
        pats: &Vec<Pattern>,
        from: usize,
        handler: H,
        front: Vec<FrontFang<F>>,
        back: Vec<BackFang<B>>,
    ) -> (r: Self)
        requires
            self.wf(),
            from <= pats@.len(),
        ensures
            r.wf(),
            r.live(),
            r.pats() == self.pats(),
            forall|q: Seq<PatternView>|
                #[trigger] entry_at(r, q) == if q == pats.deep_view().skip(from as int) {
                    Some(Entry { handler, front: front@, back: back@ })
                } else {
                    entry_at(self, q)
                },
            callable(self) && fronts_total(front@) && backs_total(back@) && handler_total(handler)
                ==> callable(r),
            forall|budget: int|
                bounded(self, budget) && capture_count(self.pats()) + capture_count(
                    pats.deep_view().skip(from as int),
                ) <= budget ==> #[trigger] bounded(r, budget),
        decreases pats@.len() - from,
    {
        let ghost sound = callable(self) && fronts_total(front@) && backs_total(back@)
            && handler_total(handler);
        let ghost rest = pats.deep_view().skip(from as int);
        let ghost e = Entry { handler, front: front@, back: back@ };
        let ghost before = self;
        let mut node = self;
        if from == pats.len() {
            node.handler = Some(handler);
            node.front = front;
            node.back = back;
            proof {
                assert forall|q: Seq<PatternView>|
                    #[trigger] entry_at(node, q) == if q == rest {
                        Some(e)
                    } else {
                        entry_at(before, q)
                    } by {
                    if q.len() == 0 {
                        assert(q =~= rest);
                    }
                }
                assert forall|budget: int|
                    bounded(before, budget) && capture_count(before.pats()) + capture_count(rest)
                        <= budget implies #[trigger] bounded(node, budget) by {
                    assert forall|j: int| 0 <= j < node.children@.len() implies bounded(
                        #[trigger] node.children@[j],
                        budget - capture_count(node.pats()),
                    ) by {
                        assert(node.children@[j] == before.children@[j]);
                    }
                }
            }
            return node;
        }
        proof {
            assert(rest[0] == pats@[from as int]@);
            lemma_child_with(before.children@, rest[0], 0);
        }
        match node.find_child(&pats[from]) {
            None => {
                let is_capture = match &pats[from] {
                    Pattern::Param => true,
                    Pattern::Static(_) => false,
                };
                let leaf = Node {
                    patterns: Self::copy_patterns(pats, from),
                    front,
                    handler: Some(handler),
                    back,
                    children: Vec::new(),
                };
                let ghost pos: int = if is_capture {
                    before.children@.len() as int
                } else {
                    0
                };
                if is_capture {
                    node.children.push(leaf);
                    assert(node.children@ =~= before.children@.insert(pos, leaf));
                } else {
                    node.children.insert(0, leaf);
                }
                proof {
                    lemma_insert_leaf(before, node, leaf, pos, rest, e);
                    if sound {
                        assert(callable(leaf));
                        assert forall|j: int| 0 <= j < node.children@.len() implies callable(
                            #[trigger] node.children@[j],
                        ) by {
                            if j != pos {
                                let j0 = if j < pos { j } else { j - 1 };
                                assert(node.children@[j] == before.children@[j0]);
                            }
                        }
                    }
                    assert forall|budget: int|
                        bounded(before, budget) && capture_count(before.pats()) + capture_count(
                            rest,
                        ) <= budget implies #[trigger] bounded(node, budget) by {
                        let left = budget - capture_count(node.pats());
                        assert(bounded(leaf, left));
                        assert forall|j: int| 0 <= j < node.children@.len() implies bounded(
                            #[trigger] node.children@[j],
                            left,
                        ) by {
                            if j != pos {
                                let j0 = if j < pos { j } else { j - 1 };
                                assert(node.children@[j] == before.children@[j0]);
                            }
                        }
                    }
                }
                node
            },
            Some(i) => {
                let child = node.children.remove(i);
                let ghost c = child;
                let k: usize = child.shared_prefix(pats, from);
                proof {
                    assert(c == before.children@[i as int]);
                    assert(c.wf());
                    assert(c.pats().len() > 0);
                    assert(c.pats()[0] == rest[0]);
                    if k == 0 {
                        assert(c.pats()[0] != pats.deep_view()[from + 0]);
                        assert(false);
                    }
                }
                let kept = if k == child.patterns.len() {
                    child
                } else {
                    child.split(k)
                };
                proof {
                    assert(c.pats().len() == c.patterns@.len());
                    if k == c.pats().len() {
                        assert(c.pats().take(k as int) =~= c.pats());
                    }
                    assert(rest.skip(k as int) =~= pats.deep_view().skip(from + k));
                    assert forall|x: Seq<PatternView>|
                        #[trigger] entry_at(kept, x) == if k == c.pats().len() {
                            entry_at(c, x)
                        } else if x.len() > 0 && is_prefix(c.pats().skip(k as int), x) {
                            entry_at(c, x.skip(c.pats().len() - k))
                        } else {
                            None
                        } by {
                        if k != c.pats().len() {
                            let low = kept.children@[0];
                            if x.len() > 0 {
                                lemma_child_with(kept.children@, x[0], 0);
                                if is_prefix(c.pats().skip(k as int), x) {
                                    assert(x.take(low.pats().len() as int)[0] == x[0]);
                                    lemma_entry_at_same(low, c, x.skip(c.pats().len() - k));
                                }
                            }
                        }
                    }
                }
                let grown = kept.insert_below(pats, from + k, handler, front, back);
                node.children.insert(i, grown);
                proof {
                    assert(node.children@ =~= before.children@.update(i as int, grown));
                    lemma_insert_descend(before, node, i as int, k as int, kept, grown, rest, e);
                    if sound {
                        assert(callable(c));
                        assert forall|j: int| 0 <= j < node.children@.len() implies callable(
                            #[trigger] node.children@[j],
                        ) by {
                            if j != i {
                                assert(node.children@[j] == before.children@[j]);
                            }
                        }
                    }
                    assert forall|budget: int|
                        bounded(before, budget) && capture_count(before.pats()) + capture_count(
                            rest,
                        ) <= budget implies #[trigger] bounded(node, budget) by {
                        let left = budget - capture_count(node.pats());
                        lemma_capture_count_split(rest, k as int);
                        assert(bounded(c, left));
                        assert(bounded(kept, left));
                        assert(kept.pats() == rest.take(k as int));
                        assert(bounded(grown, left));
                        assert forall|j: int| 0 <= j < node.children@.len() implies bounded(
                            #[trigger] node.children@[j],
                            left,
                        ) by {
                            if j != i {
                                assert(node.children@[j] == before.children@[j]);
                            }
                        }
                    }
                }
                node
            },
        }
    }
}


/// The patterns that lead from the first of `nodes` down to the one at
/// position `upto`: those of the nodes after the first, up to that one.
pub open spec fn way<F, B, H>(nodes: Seq<Node<F, B, H>>, upto: int) -> Seq<PatternView>
    decreases upto,
{
    if upto <= 0 || upto >= nodes.len() {
        Seq::empty()
    } else {
        way(nodes, upto - 1) + nodes[upto].pats()
    }
}

/// The way down a trail that starts with `first` is the way through the
/// first node of the rest, followed by the way down the rest.
pub proof fn lemma_way_below<F, B, H>(first: Node<F, B, H>, rest: Seq<Node<F, B, H>>, upto: int)
    requires
        1 <= upto <= rest.len(),
    ensures
        way(seq![first] + rest, upto) == rest[0].pats() + way(rest, upto - 1),
    decreases upto,
{
    let all = seq![first] + rest;
    assert(all[upto] == rest[upto - 1]);
    if upto == 1 {
        assert(way(all, 0) =~= Seq::<PatternView>::empty());
        assert(way(rest, 0) =~= Seq::<PatternView>::empty());
        assert(way(all, 1) =~= rest[0].pats() + way(rest, 0));
    } else {
        lemma_way_below(first, rest, upto - 1);
        assert(way(all, upto) =~= rest[0].pats() + way(rest, upto - 1));
    }
}

/// What a walk finds at the nodes that it reaches is what registration put
/// there: the entry of the node at position `i` of the walk is the entry of
/// the route whose patterns are the way to that node.  A node that is no
/// route has no interceptors.
pub proof fn lemma_walk_entries<F, B, H>(node: Node<F, B, H>, segs: Seq<Seq<u8>>, i: int)
    requires
        node.wf(),
        0 <= i < walk(node, segs).nodes.len(),
    ensures
        walk(node, segs).nodes[i].entry() == entry_at(node, way(walk(node, segs).nodes, i)),
        walk(node, segs).nodes[i].entry() is None ==> walk(node, segs).nodes[i].front@.len() == 0
            && walk(node, segs).nodes[i].back@.len() == 0,
        walk(node, segs).nodes[i].wf(),
    decreases node,
{
    let w = walk(node, segs);
    if i == 0 {
        crate::router::node::lemma_walk_shape(node, segs);
    } else {
        match captures(node.pats(), segs) {
            None => {},
            Some(caps) => {
                let rest = segs.skip(node.pats().len() as int);
                if rest.len() != 0 {
                    match first_match(node.children@, rest[0], 0) {
                        Some(c) => {
                            if 0 <= c < node.children@.len() {
                                let child = node.children@[c];
                                let below = walk(child, rest);
                                crate::router::node::lemma_walk_shape(child, rest);
                                assert(w.nodes == seq![node] + below.nodes);
                                assert(w.nodes[i] == below.nodes[i - 1]);
                                lemma_walk_entries(child, rest, i - 1);
                                lemma_way_below(node, below.nodes, i);
                                let q = way(w.nodes, i);
                                let x = way(below.nodes, i - 1);
                                assert(q == child.pats() + x);
                                assert(q[0] == child.pats()[0]);
                                lemma_child_with_unique(node.children@, q[0], c);
                                assert(q.take(child.pats().len() as int) =~= child.pats());
                                assert(q.skip(child.pats().len() as int) =~= x);
                            }
                        },
                        None => {},
                    }
                }
            },
        }
    }
}


/// What a walk finds is a match: where a walk matches, the patterns on the
/// way to the node that it ends at, those of the starting node first, take
/// the segments one for one, and what they capture is what the walk
/// captured.
pub proof fn lemma_walk_sound<F, B, H>(node: Node<F, B, H>, segs: Seq<Seq<u8>>)
    ensures
        walk(node, segs).matched ==> {
            let w = walk(node, segs);
            let route = node.pats() + way(w.nodes, w.nodes.len() - 1);
            route.len() == segs.len() && captures(route, segs) == Some(w.params)
        },
    decreases node,
{
    let w = walk(node, segs);
    if w.matched {
        let caps = captures(node.pats(), segs)->0;
        let rest = segs.skip(node.pats().len() as int);
        lemma_captures_consume(node.pats(), segs);
        if rest.len() == 0 {
            assert(way(w.nodes, 0) =~= Seq::<PatternView>::empty());
            assert(node.pats() + way(w.nodes, 0) =~= node.pats());
        } else {
            let c = first_match(node.children@, rest[0], 0)->0;
            let child = node.children@[c];
            let below = walk(child, rest);
            lemma_walk_sound(child, rest);
            crate::router::node::lemma_walk_shape(child, rest);
            let last = w.nodes.len() - 1;
            assert(w.nodes == seq![node] + below.nodes);
            lemma_way_below(node, below.nodes, last);
            let tail = child.pats() + way(below.nodes, last - 1);
            assert(way(w.nodes, last) == tail);
            lemma_captures_concat(node.pats(), tail, segs);
        }
    }
}


/// Whether `pats` take the segments `segs` one for one.
pub open spec fn accepts_all(pats: Seq<PatternView>, segs: Seq<Seq<u8>>) -> bool {
    &&& pats.len() == segs.len()
    &&& forall|i: int| 0 <= i < pats.len() ==> (#[trigger] pats[i]).accepts(segs[i])
}

/// Whether no route of the tree under `node` takes the place of the route
/// `pats` on the segments `segs`: where `pats` capture a segment, no route
/// that runs along `pats` up to there goes on with that very segment as a
/// literal.
pub open spec fn unchallenged<F, B, H>(
    node: Node<F, B, H>,
    pats: Seq<PatternView>,
    segs: Seq<Seq<u8>>,
) -> bool {
    forall|i: int, q: Seq<PatternView>|
        #![trigger entry_at(node, q), pats[i]]
        0 <= i < pats.len() && pats[i] is Param && entry_at(node, q) is Some && i < q.len()
            && q.take(i) == pats.take(i) ==> q[i] != PatternView::Static(segs[i])
}

/// Below a node that is the end of a route or the way to one there is a
/// route.
pub proof fn lemma_reaches_route<F, B, H>(node: Node<F, B, H>)
    requires
        node.wf(),
        node.live(),
    ensures
        exists|q: Seq<PatternView>| (#[trigger] entry_at(node, q)) is Some,
    decreases node,
{
    if node.handler is Some {
        assert(entry_at(node, Seq::<PatternView>::empty()) is Some);
    } else {
        let child = node.children@[0];
        lemma_reaches_route(child);
        let below = choose|q: Seq<PatternView>| (#[trigger] entry_at(child, q)) is Some;
        lemma_route_through(node, 0, below);
    }
}

/// The route that leads through a child: the child's patterns, then what
/// leads on from the child.
pub proof fn lemma_route_through<F, B, H>(node: Node<F, B, H>, c: int, below: Seq<PatternView>)
    requires
        node.wf(),
        0 <= c < node.children@.len(),
    ensures
        entry_at(node, node.children@[c].pats() + below) == entry_at(node.children@[c], below),
{
    let child = node.children@[c];
    let q = child.pats() + below;
    assert(q[0] == child.pats()[0]);
    lemma_child_with_unique(node.children@, q[0], c);
    assert(q.take(child.pats().len() as int) =~= child.pats());
    assert(q.skip(child.pats().len() as int) =~= below);
}

/// A registered route is found by every path that it matches, unless
/// another route takes its place: the walk ends at the route's node and
/// captures what the route's patterns capture.
///
/// `pats` are the patterns of the route counted from the parent of `node`,
/// `segs` the segments that they take.
pub proof fn lemma_route_found<F, B, H>(
    node: Node<F, B, H>,
    pats: Seq<PatternView>,
    segs: Seq<Seq<u8>>,
    e: Entry<F, B, H>,
)
    requires
        node.wf(),
        accepts_all(pats, segs),
        is_prefix(node.pats(), pats),
        entry_at(node, pats.skip(node.pats().len() as int)) == Some(e),
        unchallenged(
            node,
            pats.skip(node.pats().len() as int),
            segs.skip(node.pats().len() as int),
        ),
    ensures
        captures(pats, segs) is Some,
        walk(node, segs).matched,
        walk(node, segs).params == captures(pats, segs)->0,
        walk(node, segs).nodes.last().entry() == Some(e),
    decreases node,
{
    let k = node.pats().len() as int;
    let own = node.pats();
    let rest = segs.skip(k);
    let below = pats.skip(k);
    assert forall|i: int| 0 <= i < own.len() implies (#[trigger] own[i]).accepts(segs[i]) by {
        assert(pats.take(k)[i] == pats[i]);
        assert(pats[i].accepts(segs[i]));
    }
    lemma_captures_accepts(own, segs);
    let caps = captures(own, segs)->0;
    assert(own + below =~= pats);
    lemma_captures_concat(own, below, segs);
    if rest.len() == 0 {
        assert(below =~= Seq::<PatternView>::empty());
        assert(caps + Seq::<Seq<u8>>::empty() =~= caps);
    } else {
        let children = node.children@;
        lemma_child_with(children, below[0], 0);
        let c = child_with(children, below[0], 0)->0;
        let child = children[c];
        let cp = child.pats();
        let n = cp.len() as int;
        assert(below[0] == pats[k]);
        assert(pats[k].accepts(segs[k]));
        if below[0] is Param {
            // no child starts with the captured segment as a literal
            lemma_child_with(children, PatternView::Static(rest[0]), 0);
            if child_with(children, PatternView::Static(rest[0]), 0) is Some {
                let j = child_with(children, PatternView::Static(rest[0]), 0)->0;
                let d = children[j];
                lemma_reaches_route(d);
                let on = choose|q: Seq<PatternView>| (#[trigger] entry_at(d, q)) is Some;
                let q = d.pats() + on;
                lemma_route_through(node, j, on);
                assert(q.take(0) =~= below.take(0));
                assert(q[0] == d.pats()[0]);
                assert(entry_at(node, q) is Some && below[0] is Param);
                assert(q[0] != PatternView::Static(rest[0]));
            }
        }
        assert(first_match(children, rest[0], 0) == Some(c));
        // the route goes on below the child
        let deeper = below.skip(n);
        let left = rest.skip(n);
        assert forall|i: int| 0 <= i < below.len() implies (#[trigger] below[i]).accepts(
            rest[i],
        ) by {
            assert(below[i] == pats[i + k]);
            assert(pats[i + k].accepts(segs[i + k]));
        }
        assert forall|i: int, q: Seq<PatternView>|
            #![trigger entry_at(child, q), deeper[i]]
            0 <= i < deeper.len() && deeper[i] is Param && entry_at(child, q) is Some && i < q.len()
                && q.take(i) == deeper.take(i) implies q[i] != PatternView::Static(left[i]) by {
            let full = cp + q;
            lemma_route_through(node, c, q);
            assert(below[n + i] == deeper[i]);
            assert(full.take(n + i) =~= below.take(n + i)) by {
                let lhs = full.take(n + i);
                let rhs = below.take(n + i);
                assert forall|x: int| 0 <= x < n + i implies #[trigger] lhs[x] == rhs[x] by {
                    if x < n {
                        assert(below.take(n)[x] == cp[x]);
                    } else {
                        assert(q.take(i)[x - n] == deeper.take(i)[x - n]);
                    }
                }
            }
            assert(entry_at(node, full) is Some && below[n + i] is Param);
            assert(full[n + i] != PatternView::Static(rest[n + i]));
            assert(full[n + i] == q[i]);
        }
        lemma_route_found(child, below, rest, e);
        let w = walk(child, rest);
        crate::router::node::lemma_walk_shape(child, rest);
        assert((seq![node] + w.nodes).last() == w.nodes.last());
    }
}

} // verus!
