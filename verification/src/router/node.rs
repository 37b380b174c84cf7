//! The nodes of the routing tree and the walk that resolves a path.

use crate::fang::{BackFang, FrontFang};
use crate::router::pattern::{
    captures, lemma_segments_end, segments, segments_from, split_next_section, Pattern,
    PatternView, SLASH,
};
use crate::slice::Slice;
use crate::bytes::{bytes_eq, copy_range};
use vstd::prelude::*;

verus! {

/// The segments captured while a path was resolved, in the order in which
/// the captures occur in the route.
///
/// The captures are views into a copy of the resolved path that the value
/// carries with it, so they stay readable whatever becomes of the request.
#[derive(Debug)]
pub struct PathParams {
    /// The path that was resolved.
    pub path: Vec<u8>,
    /// One view into `path` per capture.
    pub items: Vec<Slice>,
}

impl View for PathParams {
    type V = Seq<Seq<u8>>;

    open spec fn view(&self) -> Seq<Seq<u8>> {
        Seq::new(self.items@.len(), |i: int| self.items@[i].of(self.path@))
    }
}

impl PathParams {
    /// Every capture lies inside the path.
    pub open spec fn wf(&self) -> bool {
        forall|i: int| 0 <= i < self.items@.len() ==> (#[trigger] self.items@[i]).fits(self.path@.len())
    }

    /// No captures, for the path `path`.
    pub fn new(path: &[u8]) -> (r: PathParams)
        ensures
            r.wf(),
            r.path@ == path@,
            r@ == Seq::<Seq<u8>>::empty(),
    {
        let copy = copy_range(path, 0, path.len());
        assert(path@.subrange(0, path@.len() as int) =~= path@);
        let r = PathParams { path: copy, items: Vec::new() };
        assert(r@ =~= Seq::<Seq<u8>>::empty());
        r
    }

    /// The number of captures.
    pub fn len(&self) -> (n: usize)
        ensures
            n == self@.len(),
    {
        self.items.len()
    }

    /// The `i`-th capture, if there are that many.
    pub fn get(&self, i: usize) -> (r: Option<&[u8]>)
        requires
            self.wf(),
        ensures
            match r {
                Some(bytes) => i < self@.len() && bytes@ == self@[i as int],
                None => i >= self@.len(),
            },
    {
        if i < self.items.len() {
            let s: Slice = self.items[i];
            Some(s.into_bytes(self.path.as_slice()))
        } else {
            None
        }
    }

    /// Records the capture `path[from..to]`.
    pub fn append(&mut self, from: usize, to: usize)
        requires
            old(self).wf(),
            from <= to <= old(self).path@.len(),
        ensures
            final(self).wf(),
            final(self).path == old(self).path,
            final(self)@ == old(self)@.push(old(self).path@.subrange(from as int, to as int)),
    {
        self.items.push(Slice::new(from, to));
        assert(self@ =~= old(self)@.push(old(self).path@.subrange(from as int, to as int)));
    }

    /// Forgets the captures made after the first `n`.
    pub fn truncate(&mut self, n: usize)
        requires
            old(self).wf(),
            n <= old(self)@.len(),
        ensures
            final(self).wf(),
            final(self).path == old(self).path,
            final(self)@ == old(self)@.take(n as int),
    {
        self.items.truncate(n);
        assert(self@ =~= old(self)@.take(n as int));
    }
}

/// A node of the routing tree.
///
/// A node holds the patterns that lead from its parent to it, the
/// interceptors and the handler of the route that ends at it, if one does,
/// and the nodes below it.
pub struct Node<F, B, H> {
    /// The patterns consumed on the way from the parent to this node.
    pub patterns: Vec<Pattern>,
    /// The interceptors that run whenever a walk reaches this node.
    pub front: Vec<FrontFang<F>>,
    /// The handler of the route that ends here; `None` on a mere branch.
    pub handler: Option<H>,
    /// The interceptors that run after this node's handler.
    pub back: Vec<BackFang<B>>,
    /// The nodes below this one.
    pub children: Vec<Node<F, B, H>>,
}

/// What a walk down the tree found.
pub ghost struct Walk<F, B, H> {
    /// The nodes that the walk reached, from the root down.
    pub nodes: Seq<Node<F, B, H>>,
    /// Whether the path ended exactly at the last node reached.
    pub matched: bool,
    /// The captured segments; empty when the walk did not match.
    pub params: Seq<Seq<u8>>,
}

impl<F, B, H> Node<F, B, H> {
    /// The patterns of this node, as mathematical values.
    pub open spec fn pats(&self) -> Seq<PatternView> {
        self.patterns.deep_view()
    }

    /// Whether a walk may descend into this node when `segment` comes next.
    pub open spec fn can_start(&self, segment: Seq<u8>) -> bool {
        self.patterns@.len() > 0 && self.patterns@[0]@.accepts(segment)
    }
}

/// The first node of `children`, at or after `from`, whose patterns start with `first`.
pub open spec fn child_with<F, B, H>(
    children: Seq<Node<F, B, H>>,
    first: PatternView,
    from: int,
) -> Option<int>
    decreases children.len() - from,
{
    if from < 0 || from >= children.len() {
        None
    } else if children[from].pats().len() > 0 && children[from].pats()[0] == first {
        Some(from)
    } else {
        child_with(children, first, from + 1)
    }
}

/// What `child_with` returns is in range, starts with `first` and is the first to do so;
/// `None` means no child does.
pub proof fn lemma_child_with<F, B, H>(children: Seq<Node<F, B, H>>, first: PatternView, from: int)
    requires
        0 <= from,
    ensures
        match child_with(children, first, from) {
            Some(i) => from <= i < children.len() && children[i].pats().len() > 0
                && children[i].pats()[0] == first && forall|j: int|
                from <= j < i ==> !((#[trigger] children[j]).pats().len() > 0
                    && children[j].pats()[0] == first),
            None => forall|j: int|
                from <= j < children.len() ==> !((#[trigger] children[j]).pats().len() > 0
                    && children[j].pats()[0] == first),
        },
    decreases children.len() - from,
{
    if from < children.len() && !(children[from].pats().len() > 0 && children[from].pats()[0]
        == first) {
        lemma_child_with(children, first, from + 1);
    }
}

/// The child that takes `segment` next, looked for at or after `from`: the
/// first child that starts with `segment` as a literal, and only where no
/// child does, the first child that starts with a capture.  The order of
/// the children decides among children that start alike, and nothing else.
pub open spec fn first_match<F, B, H>(
    children: Seq<Node<F, B, H>>,
    segment: Seq<u8>,
    from: int,
) -> Option<int> {
    match child_with(children, PatternView::Static(segment), from) {
        Some(i) => Some(i),
        None => child_with(children, PatternView::Param, from),
    }
}

/// What `first_match` returns is in range and may take the segment; where
/// it returns nothing, no child may.
pub proof fn lemma_first_match<F, B, H>(children: Seq<Node<F, B, H>>, segment: Seq<u8>, from: int)
    requires
        0 <= from,
    ensures
        match first_match(children, segment, from) {
            Some(i) => from <= i < children.len() && children[i].can_start(segment),
            None => forall|j: int|
                from <= j < children.len() ==> !(#[trigger] children[j]).can_start(segment),
        },
{
    lemma_child_with(children, PatternView::Static(segment), from);
    lemma_child_with(children, PatternView::Param, from);
    match first_match(children, segment, from) {
        Some(i) => {
            assert(children[i].pats()[0] == children[i].patterns@[0]@);
        },
        None => {
            assert forall|j: int| from <= j < children.len() implies !(
            #[trigger] children[j]).can_start(segment) by {
                if children[j].patterns@.len() > 0 {
                    assert(children[j].pats()[0] == children[j].patterns@[0]@);
                }
            }
        },
    }
}

/// A literal is preferred to a capture, wherever the children stand: where
/// some child starts with `segment` as a literal, the child that takes
/// `segment` is the first of those.
pub proof fn lemma_literal_preferred<F, B, H>(
    children: Seq<Node<F, B, H>>,
    segment: Seq<u8>,
    i: int,
)
    requires
        0 <= i < children.len(),
        children[i].pats().len() > 0,
        children[i].pats()[0] == PatternView::Static(segment),
    ensures
        first_match(children, segment, 0) is Some,
        0 <= first_match(children, segment, 0)->0 <= i,
        children[first_match(children, segment, 0)->0].pats()[0] == PatternView::Static(segment),
{
    lemma_child_with(children, PatternView::Static(segment), 0);
}

/// The walk that resolves `segs` from `node` down.
///
/// The node's own patterns must accept the leading segments.  If no segment
/// is left, the walk ends here and has matched.  Otherwise it goes on in
/// the child that takes the next segment, and never comes back to try
/// another.
pub open spec fn walk<F, B, H>(node: Node<F, B, H>, segs: Seq<Seq<u8>>) -> Walk<F, B, H>
    decreases node,
{
    let stop = Walk { nodes: seq![node], matched: false, params: Seq::empty() };
    match captures(node.pats(), segs) {
        None => stop,
        Some(caps) => {
            let rest = segs.skip(node.pats().len() as int);
            if rest.len() == 0 {
                Walk { nodes: seq![node], matched: true, params: caps }
            } else {
                match first_match(node.children@, rest[0], 0) {
                    Some(i) => if 0 <= i < node.children@.len() {
                        let below = walk(node.children@[i], rest);
                        Walk {
                            nodes: seq![node] + below.nodes,
                            matched: below.matched,
                            params: if below.matched {
                                caps + below.params
                            } else {
                                Seq::empty()
                            },
                        }
                    } else {
                        stop
                    },
                    None => stop,
                }
            }
        },
    }
}

/// The walk that resolves the path `path` from `root` down.  A path that is
/// not made of segments stops at the root.
pub open spec fn route<F, B, H>(root: Node<F, B, H>, path: Seq<u8>) -> Walk<F, B, H> {
    match segments(path) {
        Some(segs) => walk(root, segs),
        None => Walk { nodes: seq![root], matched: false, params: Seq::empty() },
    }
}

/// The nodes that a sequence of references points to.
pub open spec fn targets<F, B, H>(refs: Seq<&Node<F, B, H>>) -> Seq<Node<F, B, H>> {
    refs.map_values(|n: &Node<F, B, H>| *n)
}

/// The outcome of resolving a path: the nodes reached, whether the path
/// ended at the last of them, and the captures made on the way.
pub struct Trail<'a, F, B, H> {
    /// The nodes reached, from the root down.
    pub nodes: Vec<&'a Node<F, B, H>>,
    /// Whether the path ended exactly at the last node.
    pub matched: bool,
    /// The captured segments; empty unless `matched`.
    pub params: PathParams,
}

impl<'a, F, B, H> View for Trail<'a, F, B, H> {
    type V = Walk<F, B, H>;

    open spec fn view(&self) -> Walk<F, B, H> {
        Walk { nodes: targets(self.nodes@), matched: self.matched, params: self.params@ }
    }
}

impl<F, B, H> Node<F, B, H> {
    /// Whether the node has no patterns, handler, interceptors or children.
    pub open spec fn is_bare(&self) -> bool {
        &&& self.patterns@.len() == 0
        &&& self.front@.len() == 0
        &&& self.handler is None
        &&& self.back@.len() == 0
        &&& self.children@.len() == 0
    }

    /// A node without patterns, handler, interceptors or children.
    pub fn new() -> (r: Self)
        ensures
            r.is_bare(),
    {
        Node {
            patterns: Vec::new(),
            front: Vec::new(),
            handler: None,
            back: Vec::new(),
            children: Vec::new(),
        }
    }

    /// Matches this node's patterns against the segments of `path` that
    /// start at `pos`, recording captures in `params`.
    ///
    /// Returns the position after the consumed segments, or `None` when a
    /// literal differs or the path runs out.
    pub fn consume(&self, path: &[u8], pos: usize, params: &mut PathParams) -> (r: Option<usize>)
        requires
            pos <= path@.len(),
            pos < path@.len() ==> path@[pos as int] == SLASH,
            old(params).wf(),
            old(params).path@ == path@,
        ensures
            final(params).wf(),
            final(params).path == old(params).path,
            match captures(self.pats(), segments_from(path@, pos as int)) {
                Some(caps) => {
                    &&& r is Some
                    &&& pos <= r->0 <= path@.len()
                    &&& r->0 < path@.len() ==> path@[r->0 as int] == SLASH
                    &&& segments_from(path@, r->0 as int) == segments_from(path@, pos as int).skip(
                        self.pats().len() as int,
                    )
                    &&& final(params)@ == old(params)@ + caps
                },
                None => r is None && final(params)@ == old(params)@,
            },
    {
        let ghost segs = segments_from(path@, pos as int);
        let ghost pats = self.pats();
        let before: usize = params.len();
        let mut at: usize = pos;
        let mut j: usize = 0;
        proof {
            assert(pats.skip(0) =~= pats);
            assert(segs.skip(0) =~= segs);
            assert(params@ + Seq::<Seq<u8>>::empty() =~= params@);
        }
        while j < self.patterns.len()
            invariant
                j <= self.patterns@.len(),
                pats == self.pats(),
                pats.len() == self.patterns@.len(),
                segs == segments_from(path@, pos as int),
                pos <= at <= path@.len(),
                at < path@.len() ==> path@[at as int] == SLASH,
                j <= segs.len(),
                segments_from(path@, at as int) == segs.skip(j as int),
                params.wf(),
                params.path == old(params).path,
                params.path@ == path@,
                before == old(params)@.len(),
                before <= params@.len(),
                params@.take(before as int) == old(params)@,
                match captures(pats.skip(j as int), segs.skip(j as int)) {
                    Some(more) => captures(pats, segs) == Some(params@.skip(before as int) + more),
                    None => captures(pats, segs) is None,
                },
            decreases self.patterns@.len() - j,
        {
            let ghost pj = pats.skip(j as int);
            let ghost sj = segs.skip(j as int);
            proof {
                assert(pj.skip(1) =~= pats.skip(j + 1));
                assert(pj[0] == self.patterns@[j as int]@);
            }
            if at >= path.len() {
                proof {
                    lemma_segments_end(path@);
                    assert(sj.len() == 0);
                }
                params.truncate(before);
                assert(params@ =~= old(params)@);
                return None;
            }
            let end: usize = split_next_section(path, at);
            let ghost seg = path@.subrange(at + 1, end as int);
            proof {
                assert(sj[0] == seg);
                assert(sj.skip(1) =~= segments_from(path@, end as int));
                assert(sj.skip(1) =~= segs.skip(j + 1));
            }
            match &self.patterns[j] {
                Pattern::Static(lit) => {
                    let piece = vstd::slice::slice_subrange(path, at + 1, end);
                    if !bytes_eq(lit.as_slice(), piece) {
                        params.truncate(before);
                        assert(params@ =~= old(params)@);
                        return None;
                    }
                },
                Pattern::Param => {
                    let ghost prev = params@;
                    params.append(at + 1, end);
                    proof {
                        assert(params@.take(before as int) =~= prev.take(before as int));
                        match captures(pj.skip(1), sj.skip(1)) {
                            Some(more) => {
                                assert(prev.skip(before as int) + (seq![seg] + more)
                                    =~= params@.skip(before as int) + more);
                            },
                            None => {},
                        }
                    }
                },
            }
            at = end;
            j += 1;
        }
        proof {
            assert(pats.skip(j as int).len() == 0);
            assert(params@.skip(before as int) + Seq::<Seq<u8>>::empty() =~= params@.skip(
                before as int,
            ));
            assert(params@ =~= params@.take(before as int) + params@.skip(before as int));
        }
        Some(at)
    }

    /// The child that takes the segment that follows the `/` at `path[pos]`:
    /// the first child that starts with that segment as a literal, and only
    /// where there is none, the first child that starts with a capture.
    pub fn matchable_child(&self, path: &[u8], pos: usize) -> (r: Option<usize>)
        requires
            pos < path@.len(),
            path@[pos as int] == SLASH,
        ensures
            r is Some ==> r->0 < self.children@.len(),
            match first_match(self.children@, segments_from(path@, pos as int)[0], 0) {
                Some(i) => r is Some && r->0 as int == i,
                None => r is None,
            },
    {
        let ghost seg = segments_from(path@, pos as int)[0];
        let ghost literal = PatternView::Static(seg);
        let mut i: usize = 0;
        while i < self.children.len()
            invariant
                i <= self.children@.len(),
                pos < path@.len(),
                path@[pos as int] == SLASH,
                seg == segments_from(path@, pos as int)[0],
                literal == PatternView::Static(seg),
                child_with(self.children@, literal, 0) == child_with(self.children@, literal, i as int),
            decreases self.children@.len() - i,
        {
            let child = &self.children[i];
            assert(child.pats().len() == child.patterns@.len());
            if child.patterns.len() > 0 {
                assert(child.pats()[0] == child.patterns@[0]@);
                match &child.patterns[0] {
                    Pattern::Static(_) => {
                        if child.patterns[0].is_matchable_to(path, pos) {
                            return Some(i);
                        }
                    },
                    Pattern::Param => {},
                }
            }
            i += 1;
        }
        let mut k: usize = 0;
        while k < self.children.len()
            invariant
                k <= self.children@.len(),
                seg == segments_from(path@, pos as int)[0],
                literal == PatternView::Static(seg),
                child_with(self.children@, literal, 0) is None,
                child_with(self.children@, PatternView::Param, 0) == child_with(
                    self.children@,
                    PatternView::Param,
                    k as int,
                ),
            decreases self.children@.len() - k,
        {
            let child = &self.children[k];
            assert(child.pats().len() == child.patterns@.len());
            if child.patterns.len() > 0 {
                assert(child.pats()[0] == child.patterns@[0]@);
                match &child.patterns[0] {
                    Pattern::Param => {
                        return Some(k);
                    },
                    Pattern::Static(_) => {},
                }
            }
            k += 1;
        }
        None
    }

    /// Resolves the segments of `path` that start at `pos` from this node
    /// down, adding the nodes reached to `nodes` and the captures to
    /// `params`.  Returns whether the path ended exactly at the last node.
    pub fn walk_from<'a>(
        &'a self,
        path: &[u8],
        pos: usize,
        nodes: &mut Vec<&'a Node<F, B, H>>,
        params: &mut PathParams,
    ) -> (matched: bool)
        requires
            pos <= path@.len(),
            pos < path@.len() ==> path@[pos as int] == SLASH,
            old(params).wf(),
            old(params).path@ == path@,
        ensures
            final(params).wf(),
            final(params).path == old(params).path,
            ({
                let w = walk(*self, segments_from(path@, pos as int));
                &&& matched == w.matched
                &&& targets(final(nodes)@) == targets(old(nodes)@) + w.nodes
                &&& matched ==> final(params)@ == old(params)@ + w.params
            }),
        decreases self,
    {
        let ghost segs = segments_from(path@, pos as int);
        let ghost before = targets(nodes@);
        nodes.push(self);
        proof {
            assert(targets(nodes@) =~= before + seq![*self]);
        }
        match self.consume(path, pos, params) {
            None => {
                false
            },
            Some(at) => {
                let ghost rest = segs.skip(self.pats().len() as int);
                if at >= path.len() {
                    proof {
                        lemma_segments_end(path@);
                        assert(rest.len() == 0);
                    }
                    true
                } else {
                    proof {
                        crate::router::pattern::lemma_segments_step(path@, at as int);
                        lemma_first_match(self.children@, segments_from(path@, at as int)[0], 0);
                        assert(rest.len() > 0);
                    }
                    match self.matchable_child(path, at) {
                        None => {
                            false
                        },
                        Some(i) => {
                            let ghost mid = targets(nodes@);
                            let child = &self.children[i];
                            let matched = child.walk_from(path, at, nodes, params);
                            proof {
                                let below = walk(*child, segments_from(path@, at as int));
                                assert(mid + below.nodes =~= before + (seq![*self] + below.nodes));
                                if matched {
                                    let caps = captures(self.pats(), segs)->0;
                                    assert((old(params)@ + caps) + below.params =~= old(params)@ + (
                                    caps + below.params));
                                }
                                let w = walk(*self, segs);
                            }
                            matched
                        },
                    }
                }
            },
        }
    }

    /// Walks down the tree along `path`, from this node.
    ///
    /// The walk matches each node's patterns against the next segments of
    /// the path, then descends into the child that takes the segment that
    /// follows, a literal child before a capture; it matches when the path
    /// ends exactly at a node.  No interceptor runs.
    pub fn walk<'a>(&'a self, path: &[u8]) -> (trail: Trail<'a, F, B, H>)
        ensures
            trail@ == route(*self, path@),
            trail.params.wf(),
            trail.params.path@ == path@,
            trail.nodes@.len() >= 1,
            trail.nodes@[0] == self,
    {
        let mut nodes: Vec<&'a Node<F, B, H>> = Vec::new();
        let mut params = PathParams::new(path);
        if path.len() > 0 && path[0] != SLASH {
            nodes.push(self);
            let trail = Trail { nodes, matched: false, params };
            proof {
                assert(trail@.nodes =~= seq![*self]);
            }
            return trail;
        }
        proof {
            assert(path@.skip(0) =~= path@);
            assert(targets(nodes@) =~= Seq::<Node<F, B, H>>::empty());
        }
        let matched = self.walk_from(path, 0, &mut nodes, &mut params);
        if !matched {
            params.truncate(0);
        }
        let trail = Trail { nodes, matched, params };
        proof {
            let w = route(*self, path@);
            assert(targets(trail.nodes@) =~= w.nodes);
            assert(trail@.params =~= w.params);
            lemma_walk_shape(*self, segments_from(path@, 0));
            assert(trail.nodes@.len() == targets(trail.nodes@).len());
            assert(*trail.nodes@[0] == targets(trail.nodes@)[0]);
        }
        trail
    }
}

/// A walk reaches at least its starting node, and has no captures unless it matched.
pub proof fn lemma_walk_shape<F, B, H>(node: Node<F, B, H>, segs: Seq<Seq<u8>>)
    ensures
        walk(node, segs).nodes.len() >= 1,
        walk(node, segs).nodes[0] == node,
        !walk(node, segs).matched ==> walk(node, segs).params == Seq::<Seq<u8>>::empty(),
    decreases node,
{
    match captures(node.pats(), segs) {
        None => {},
        Some(caps) => {
            let rest = segs.skip(node.pats().len() as int);
            if rest.len() != 0 {
                match first_match(node.children@, rest[0], 0) {
                    Some(i) => {
                        if 0 <= i < node.children@.len() {
                            lemma_walk_shape(node.children@[i], rest);
                        }
                    },
                    None => {},
                }
            }
        },
    }
}

} // verus!
