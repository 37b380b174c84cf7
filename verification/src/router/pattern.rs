//! Route patterns and the segments of a request path.
//!
//! A path is a sequence of `/`-introduced segments: `/users/42` has the
//! segments `users` and `42`, `/` has one empty segment and the empty path
//! has none.  A route pattern gives one [`Pattern`] per segment.

use crate::bytes::{bytes_eq, copy_range, find_byte, index_of, lemma_index_of, split};
use vstd::prelude::*;

verus! {

/// The byte `/`, which introduces every segment of a path.
pub const SLASH: u8 = 47;

/// The byte `:`, which marks a segment of a route pattern as a capture.
pub const CAPTURE_MARK: u8 = 58;

/// The segments of `path`; `None` when a non-empty `path` does not start with `/`.
pub open spec fn segments(path: Seq<u8>) -> Option<Seq<Seq<u8>>> {
    if path.len() == 0 {
        Some(Seq::empty())
    } else if path[0] == SLASH {
        Some(split(path.skip(1), SLASH))
    } else {
        None
    }
}

/// The segments of `path` from position `pos` on, where `pos` is the end of
/// the path or the position of a `/`.
pub open spec fn segments_from(path: Seq<u8>, pos: int) -> Seq<Seq<u8>> {
    match segments(path.skip(pos)) {
        Some(segs) => segs,
        None => Seq::empty(),
    }
}

/// Where the segment that starts after position `pos` ends.
pub open spec fn segment_end(path: Seq<u8>, pos: int) -> int {
    pos + 1 + index_of(path.skip(pos + 1), SLASH)
}

/// Reading one segment: after the `/` at `pos` comes the segment up to
/// `segment_end`, and the remaining segments start there.
pub proof fn lemma_segments_step(path: Seq<u8>, pos: int)
    requires
        0 <= pos < path.len(),
        path[pos] == SLASH,
    ensures
        pos < segment_end(path, pos) <= path.len(),
        segment_end(path, pos) < path.len() ==> path[segment_end(path, pos)] == SLASH,
        segments(path.skip(pos)) is Some,
        segments_from(path, pos) == seq![path.subrange(pos + 1, segment_end(path, pos))]
            + segments_from(path, segment_end(path, pos)),
{
    let t = path.skip(pos + 1);
    let k = index_of(t, SLASH);
    let e = pos + 1 + k;
    lemma_index_of(t, SLASH);
    assert(path.skip(pos).skip(1) =~= t);
    assert(path.skip(pos)[0] == path[pos]);
    if k >= t.len() {
        assert(t =~= path.subrange(pos + 1, e));
        assert(path.skip(e).len() == 0);
        assert(segments_from(path, e) =~= Seq::<Seq<u8>>::empty());
        assert(seq![t] + Seq::<Seq<u8>>::empty() =~= seq![t]);
    } else {
        assert(t[k] == path[e]);
        assert(t.take(k) =~= path.subrange(pos + 1, e));
        assert(path.skip(e)[0] == path[e]);
        assert(path.skip(e).skip(1) =~= t.skip(k + 1));
    }
}

/// At the end of the path no segment is left.
pub proof fn lemma_segments_end(path: Seq<u8>)
    ensures
        segments_from(path, path.len() as int) == Seq::<Seq<u8>>::empty(),
{
    assert(path.skip(path.len() as int).len() == 0);
}

/// One segment of a route pattern.
#[derive(Debug)]
pub enum Pattern {
    /// A literal segment, matched byte for byte.
    Static(Vec<u8>),
    /// A capture: matches any one segment and records it.
    Param,
}

/// The mathematical value of a [`Pattern`].
pub enum PatternView {
    /// A literal segment.
    Static(Seq<u8>),
    /// A capture.
    Param,
}

impl View for Pattern {
    type V = PatternView;

    open spec fn view(&self) -> PatternView {
        match self {
            Pattern::Static(s) => PatternView::Static(s@),
            Pattern::Param => PatternView::Param,
        }
    }
}

impl DeepView for Pattern {
    type V = PatternView;

    open spec fn deep_view(&self) -> PatternView {
        self@
    }
}

impl PatternView {
    /// Whether this pattern accepts `segment`.
    pub open spec fn accepts(self, segment: Seq<u8>) -> bool {
        match self {
            PatternView::Static(s) => s == segment,
            PatternView::Param => true,
        }
    }
}

/// The pattern that a segment of a route string denotes: a capture when it
/// starts with `:`, a literal otherwise.
pub open spec fn pattern_of(segment: Seq<u8>) -> PatternView {
    if segment.len() > 0 && segment[0] == CAPTURE_MARK {
        PatternView::Param
    } else {
        PatternView::Static(segment)
    }
}

/// The patterns that a route string denotes; `None` when the string is
/// empty or does not start with `/`.
pub open spec fn compiled(route: Seq<u8>) -> Option<Seq<PatternView>> {
    if route.len() == 0 {
        None
    } else {
        match segments(route) {
            Some(segs) => Some(segs.map_values(|s: Seq<u8>| pattern_of(s))),
            None => None,
        }
    }
}

/// Whether no pattern of `pats` is a capture.
pub open spec fn all_static(pats: Seq<PatternView>) -> bool {
    forall|i: int| 0 <= i < pats.len() ==> pats[i] is Static
}

/// How many patterns of `pats` are captures.
pub open spec fn capture_count(pats: Seq<PatternView>) -> nat
    decreases pats.len(),
{
    if pats.len() == 0 {
        0
    } else {
        capture_count(pats.drop_last()) + if pats.last() is Param {
            1nat
        } else {
            0nat
        }
    }
}

/// The captures that `pats` make on the first `pats.len()` segments of
/// `segs`, or `None` when some literal differs or the segments run out.
pub open spec fn captures(pats: Seq<PatternView>, segs: Seq<Seq<u8>>) -> Option<Seq<Seq<u8>>>
    decreases pats.len(),
{
    if pats.len() == 0 {
        Some(Seq::empty())
    } else if segs.len() == 0 {
        None
    } else {
        match captures(pats.skip(1), segs.skip(1)) {
            Some(rest) => match pats[0] {
                PatternView::Static(s) => if s == segs[0] {
                    Some(rest)
                } else {
                    None
                },
                PatternView::Param => Some(seq![segs[0]] + rest),
            },
            None => None,
        }
    }
}

/// Literal patterns capture nothing, and match exactly the segments they spell.
pub proof fn lemma_captures_static(pats: Seq<PatternView>, segs: Seq<Seq<u8>>)
    requires
        all_static(pats),
        pats.len() <= segs.len(),
        forall|i: int| 0 <= i < pats.len() ==> pats[i] == PatternView::Static(segs[i]),
    ensures
        captures(pats, segs) == Some(Seq::<Seq<u8>>::empty()),
    decreases pats.len(),
{
    if pats.len() > 0 {
        assert forall|i: int| 0 <= i < pats.skip(1).len() implies pats.skip(1)[i]
            == PatternView::Static(segs.skip(1)[i]) by {
            assert(pats.skip(1)[i] == pats[i + 1]);
        }
        lemma_captures_static(pats.skip(1), segs.skip(1));
    }
}

impl Pattern {
    /// Whether two patterns denote the same thing.
    pub fn same(&self, other: &Pattern) -> (r: bool)
        ensures
            r == (self@ == other@),
    {
        match self {
            Pattern::Static(a) => match other {
                Pattern::Static(b) => {
                    let r = bytes_eq(a.as_slice(), b.as_slice());
                    r
                },
                Pattern::Param => false,
            },
            Pattern::Param => match other {
                Pattern::Static(_) => false,
                Pattern::Param => true,
            },
        }
    }

    /// A copy of this pattern.
    pub fn duplicate(&self) -> (r: Pattern)
        ensures
            r@ == self@,
    {
        match self {
            Pattern::Static(a) => {
                let copy = copy_range(a.as_slice(), 0, a.len());
                assert(a@.subrange(0, a@.len() as int) =~= a@);
                Pattern::Static(copy)
            },
            Pattern::Param => Pattern::Param,
        }
    }

    /// Whether this pattern accepts the segment that follows the `/` at
    /// `path[pos]`.
    pub fn is_matchable_to(&self, path: &[u8], pos: usize) -> (r: bool)
        requires
            pos < path@.len(),
            path@[pos as int] == SLASH,
        ensures
            r == self@.accepts(segments_from(path@, pos as int)[0]),
    {
        proof {
            lemma_segments_step(path@, pos as int);
        }
        match self {
            Pattern::Param => true,
            Pattern::Static(s) => {
                assert(path@.len() == path.len());
                let end: usize = find_byte(path, pos + 1, SLASH);
                let seg = vstd::slice::slice_subrange(path, pos + 1, end);
                bytes_eq(s.as_slice(), seg)
            },
        }
    }
}

/// Splits off the segment that follows the `/` at `path[pos]`: the bounds of
/// the segment are `pos + 1` and the returned position, where the rest of
/// the path starts.
pub fn split_next_section(path: &[u8], pos: usize) -> (end: usize)
    requires
        pos < path@.len(),
        path@[pos as int] == SLASH,
    ensures
        end == segment_end(path@, pos as int),
        pos < end <= path@.len(),
        end < path@.len() ==> path@[end as int] == SLASH,
        segments_from(path@, pos as int) == seq![path@.subrange(pos + 1, end as int)]
            + segments_from(path@, end as int),
{
    proof {
        lemma_segments_step(path@, pos as int);
    }
    assert(path@.len() == path.len());
    find_byte(path, pos + 1, SLASH)
}

/// Compiles a route string such as `/users/:id` into its patterns.
///
/// Returns `None` exactly when the string is empty or does not start with
/// `/`.
pub fn compile(route: &[u8]) -> (r: Option<Vec<Pattern>>)
    ensures
        match compiled(route@) {
            Some(pats) => r is Some && r->0.deep_view() == pats,
            None => r is None,
        },
{
    if route.len() == 0 || route[0] != SLASH {
        return None;
    }
    let ghost segs = segments(route@)->0;
    let mut pats: Vec<Pattern> = Vec::new();
    let mut pos: usize = 0;
    proof {
        assert(route@.skip(0) =~= route@);
    }
    while pos < route.len()
        invariant
            pos <= route@.len(),
            pos < route@.len() ==> route@[pos as int] == SLASH,
            segments(route@) == Some(segs),
            pats@.len() <= segs.len(),
            segs.skip(pats@.len() as int) == segments_from(route@, pos as int),
            forall|i: int| 0 <= i < pats@.len() ==> (#[trigger] pats@[i])@ == pattern_of(segs[i]),
        decreases route@.len() - pos,
    {
        let end: usize = split_next_section(route, pos);
        let ghost seg = route@.subrange(pos + 1, end as int);
        proof {
            assert(segs.skip(pats@.len() as int)[0] == seg);
            assert(segs[pats@.len() as int] == seg);
            assert(segs.skip(pats@.len() as int).skip(1) =~= segs.skip(pats@.len() as int + 1));
            assert((seq![seg] + segments_from(route@, end as int)).skip(1) =~= segments_from(
                route@,
                end as int,
            ));
        }
        if pos + 1 < end && route[pos + 1] == CAPTURE_MARK {
            assert(seg[0] == route@[pos + 1]);
            pats.push(Pattern::Param);
        } else {
            let lit = copy_range(route, pos + 1, end);
            pats.push(Pattern::Static(lit));
            assert(seg.len() > 0 ==> seg[0] == route@[pos + 1]);
        }
        pos = end;
    }
    proof {
        lemma_segments_end(route@);
        let want = segs.map_values(|s: Seq<u8>| pattern_of(s));
        assert(segs.skip(pats@.len() as int).len() == 0);
        assert(pats@.len() == segs.len());
        assert(pats.deep_view() =~= want);
    }
    Some(pats)
}


/// The captures of two lists of patterns add up.
pub proof fn lemma_capture_count_concat(a: Seq<PatternView>, b: Seq<PatternView>)
    ensures
        capture_count(a + b) == capture_count(a) + capture_count(b),
    decreases b.len(),
{
    if b.len() == 0 {
        assert(a + b =~= a);
    } else {
        lemma_capture_count_concat(a, b.drop_last());
        assert((a + b).drop_last() =~= a + b.drop_last());
        assert((a + b).last() == b.last());
    }
}

/// The captures of a list of patterns are those of its first `k` patterns
/// and those of the rest.
pub proof fn lemma_capture_count_split(pats: Seq<PatternView>, k: int)
    requires
        0 <= k <= pats.len(),
    ensures
        capture_count(pats) == capture_count(pats.take(k)) + capture_count(pats.skip(k)),
{
    lemma_capture_count_concat(pats.take(k), pats.skip(k));
    assert(pats.take(k) + pats.skip(k) =~= pats);
}

/// Patterns that match capture one segment for each capture among them.
pub proof fn lemma_captures_len(pats: Seq<PatternView>, segs: Seq<Seq<u8>>)
    ensures
        captures(pats, segs) is Some ==> captures(pats, segs)->0.len() == capture_count(pats),
    decreases pats.len(),
{
    if pats.len() > 0 && segs.len() > 0 {
        lemma_captures_len(pats.skip(1), segs.skip(1));
        lemma_capture_count_split(pats, 1);
        assert(pats.take(1).drop_last() =~= Seq::<PatternView>::empty());
        assert(capture_count(pats.take(1).drop_last()) == 0);
        assert(pats.take(1).last() == pats[0]);
    }
}

/// How many patterns of `pats` are captures.
pub fn count_captures(pats: &Vec<Pattern>) -> (n: usize)
    ensures
        n == capture_count(pats.deep_view()),
{
    let ghost all = pats.deep_view();
    let mut n: usize = 0;
    let mut i: usize = 0;
    assert(all.take(0) =~= Seq::<PatternView>::empty());
    while i < pats.len()
        invariant
            i <= pats@.len(),
            all == pats.deep_view(),
            n <= i,
            n == capture_count(all.take(i as int)),
        decreases pats@.len() - i,
    {
        proof {
            assert(all.take(i + 1).drop_last() =~= all.take(i as int));
            assert(all.take(i + 1).last() == pats@[i as int]@);
        }
        match &pats[i] {
            Pattern::Param => {
                n += 1;
            },
            Pattern::Static(_) => {},
        }
        i += 1;
    }
    assert(all.take(i as int) =~= all);
    n
}


/// Patterns that match consume one segment each.
pub proof fn lemma_captures_consume(pats: Seq<PatternView>, segs: Seq<Seq<u8>>)
    ensures
        captures(pats, segs) is Some ==> pats.len() <= segs.len(),
    decreases pats.len(),
{
    if pats.len() > 0 && segs.len() > 0 {
        lemma_captures_consume(pats.skip(1), segs.skip(1));
    }
}

/// Matching two lists of patterns one after the other: the first on the
/// leading segments, the second on those that follow; the captures of both
/// follow each other.
pub proof fn lemma_captures_concat(a: Seq<PatternView>, b: Seq<PatternView>, segs: Seq<Seq<u8>>)
    ensures
        captures(a + b, segs) == match captures(a, segs) {
            None => None,
            Some(first) => match captures(b, segs.skip(a.len() as int)) {
                None => None,
                Some(second) => Some(first + second),
            },
        },
    decreases a.len(),
{
    if a.len() == 0 {
        assert(a + b =~= b);
        assert(segs.skip(0) =~= segs);
        match captures(b, segs) {
            Some(second) => {
                assert(Seq::<Seq<u8>>::empty() + second =~= second);
            },
            None => {},
        }
    } else if segs.len() == 0 {
    } else {
        lemma_captures_concat(a.skip(1), b, segs.skip(1));
        assert((a + b).skip(1) =~= a.skip(1) + b);
        assert((a + b)[0] == a[0]);
        lemma_captures_consume(a.skip(1), segs.skip(1));
        if a.len() <= segs.len() {
            assert(segs.skip(1).skip(a.len() - 1) =~= segs.skip(a.len() as int));
        }
        match captures(a.skip(1), segs.skip(1)) {
            Some(rest) => {
                match captures(b, segs.skip(a.len() as int)) {
                    Some(second) => {
                        assert((seq![segs[0]] + rest) + second =~= seq![segs[0]] + (rest + second));
                    },
                    None => {},
                }
            },
            None => {},
        }
    }
}


/// Patterns match the segments that they accept one for one.
pub proof fn lemma_captures_accepts(pats: Seq<PatternView>, segs: Seq<Seq<u8>>)
    requires
        pats.len() <= segs.len(),
        forall|i: int| 0 <= i < pats.len() ==> (#[trigger] pats[i]).accepts(segs[i]),
    ensures
        captures(pats, segs) is Some,
    decreases pats.len(),
{
    if pats.len() > 0 {
        assert forall|i: int| 0 <= i < pats.skip(1).len() implies (#[trigger] pats.skip(1)[i]).accepts(
            segs.skip(1)[i],
        ) by {
            assert(pats.skip(1)[i] == pats[i + 1]);
            assert(pats[i + 1].accepts(segs[i + 1]));
        }
        lemma_captures_accepts(pats.skip(1), segs.skip(1));
        assert(pats[0].accepts(segs[0]));
    }
}

} // verus!
