//! Byte-string primitives shared by the parser, the router and the serializer.
//!
//! Everything on the wire is a sequence of bytes, so the specifications of the
//! crate are stated over `Seq<u8>`.  This module holds the small vocabulary
//! those specifications are written in: the position of a delimiter, ASCII
//! case folding, whitespace trimming and decimal numbers.

use vstd::prelude::*;

verus! {

/// Position of the first occurrence of `b` in `s`, or `s.len()` when `b` does not occur.
pub open spec fn index_of(s: Seq<u8>, b: u8) -> int
    decreases s.len(),
{
    if s.len() == 0 {
        0
    } else if s[0] == b {
        0
    } else {
        1 + index_of(s.skip(1), b)
    }
}

/// `index_of` is in range, nothing before it is `b`, and it points at a `b` unless it is the length.
pub proof fn lemma_index_of(s: Seq<u8>, b: u8)
    ensures
        0 <= index_of(s, b) <= s.len(),
        forall|j: int| 0 <= j < index_of(s, b) ==> s[j] != b,
        index_of(s, b) < s.len() ==> s[index_of(s, b)] == b,
    decreases s.len(),
{
    if s.len() != 0 && s[0] != b {
        lemma_index_of(s.skip(1), b);
        assert forall|j: int| 0 <= j < index_of(s, b) implies s[j] != b by {
            if j > 0 {
                assert(s.skip(1)[j - 1] == s[j]);
            }
        }
    }
}

/// The three properties of `lemma_index_of` determine the position.
pub proof fn lemma_index_of_unique(s: Seq<u8>, b: u8, k: int)
    requires
        0 <= k <= s.len(),
        forall|j: int| 0 <= j < k ==> s[j] != b,
        k < s.len() ==> s[k] == b,
    ensures
        index_of(s, b) == k,
    decreases s.len(),
{
    if s.len() != 0 && k != 0 {
        assert(s[0] != b);
        assert forall|j: int| 0 <= j < k - 1 implies s.skip(1)[j] != b by {
            assert(s.skip(1)[j] == s[j + 1]);
        }
        lemma_index_of_unique(s.skip(1), b, k - 1);
    }
}

/// In `head + [b] + tail`, where `head` is free of `b`, the first `b` sits right after `head`.
pub proof fn lemma_index_of_concat(head: Seq<u8>, b: u8, tail: Seq<u8>)
    requires
        !head.contains(b),
    ensures
        index_of(head + seq![b] + tail, b) == head.len(),
        (head + seq![b] + tail).take(head.len() as int) == head,
        (head + seq![b] + tail).skip(head.len() as int + 1) == tail,
{
    let s = head + seq![b] + tail;
    assert forall|j: int| 0 <= j < head.len() implies s[j] != b by {
        assert(s[j] == head[j]);
        assert(head.contains(head[j]));
    }
    assert(s[head.len() as int] == b);
    lemma_index_of_unique(s, b, head.len() as int);
    assert(s.take(head.len() as int) =~= head);
    assert(s.skip(head.len() as int + 1) =~= tail);
}

/// A sequence that does not contain `b` has `index_of` equal to its length, and conversely.
pub proof fn lemma_index_of_absent(s: Seq<u8>, b: u8)
    ensures
        !s.contains(b) <==> index_of(s, b) == s.len(),
{
    lemma_index_of(s, b);
    if !s.contains(b) {
        if index_of(s, b) < s.len() {
            assert(s.contains(s[index_of(s, b)]));
        }
    } else {
        let i = choose|i: int| 0 <= i < s.len() && s[i] == b;
        assert(s[i] == b);
    }
}

/// First position at or after `from` that holds `b`, or the length of `s`.
pub fn find_byte(s: &[u8], from: usize, b: u8) -> (r: usize)
    requires
        from <= s@.len(),
    ensures
        r == from + index_of(s@.skip(from as int), b),
        from <= r <= s@.len(),
{
    let mut i: usize = from;
    while i < s.len() && s[i] != b
        invariant
            from <= i <= s@.len(),
            forall|j: int| from <= j < i ==> s@[j] != b,
        decreases s@.len() - i,
    {
        i += 1;
    }
    proof {
        let t = s@.skip(from as int);
        assert forall|j: int| 0 <= j < i - from implies t[j] != b by {
            assert(t[j] == s@[from + j]);
        }
        lemma_index_of_unique(t, b, i - from);
    }
    i
}

/// The pieces of `s` between occurrences of `b`.
///
/// A string without `b` is a single piece; `n` occurrences give `n + 1`
/// pieces, some of which may be empty.
pub open spec fn split(s: Seq<u8>, b: u8) -> Seq<Seq<u8>>
    decreases s.len(),
{
    let k = index_of(s, b);
    if k < 0 || k >= s.len() {
        seq![s]
    } else {
        seq![s.take(k)] + split(s.skip(k + 1), b)
    }
}

/// `split` undoes joining: pieces free of `b`, joined with `b`, split back into themselves.
pub proof fn lemma_split_join(head: Seq<u8>, b: u8, tail: Seq<u8>)
    requires
        !head.contains(b),
    ensures
        split(head + seq![b] + tail, b) == seq![head] + split(tail, b),
{
    lemma_index_of_concat(head, b, tail);
}

/// A string free of `b` is its own single piece.
pub proof fn lemma_split_single(s: Seq<u8>, b: u8)
    requires
        !s.contains(b),
    ensures
        split(s, b) == seq![s],
{
    lemma_index_of_absent(s, b);
}

/// No piece of a split contains the delimiter.
pub proof fn lemma_split_pieces(s: Seq<u8>, b: u8)
    ensures
        split(s, b).len() >= 1,
        forall|i: int| 0 <= i < split(s, b).len() ==> !(#[trigger] split(s, b)[i]).contains(b),
    decreases s.len(),
{
    lemma_index_of(s, b);
    let k = index_of(s, b);
    if k >= s.len() {
        lemma_index_of_absent(s, b);
    } else {
        lemma_split_pieces(s.skip(k + 1), b);
        let head = s.take(k);
        if head.contains(b) {
            let i = choose|i: int| 0 <= i < head.len() && head[i] == b;
            assert(s[i] == b);
        }
        assert forall|i: int| 0 <= i < split(s, b).len() implies !(#[trigger] split(s, b)[i]).contains(
            b,
        ) by {
            if i > 0 {
                assert(split(s, b)[i] == split(s.skip(k + 1), b)[i - 1]);
            }
        }
    }
}

/// ASCII lower-case form of one byte.
pub open spec fn lower(b: u8) -> u8 {
    if 65 <= b <= 90 {
        (b + 32) as u8
    } else {
        b
    }
}

/// Equality of two byte strings up to ASCII letter case.
pub open spec fn eq_ignore_case(a: Seq<u8>, b: Seq<u8>) -> bool {
    &&& a.len() == b.len()
    &&& forall|i: int| 0 <= i < a.len() ==> lower(a[i]) == lower(b[i])
}

/// ASCII lower-case form of one byte.
pub fn to_lower(b: u8) -> (r: u8)
    ensures
        r == lower(b),
{
    if 65 <= b && b <= 90 {
        b + 32
    } else {
        b
    }
}

/// Compares two byte strings without regard to ASCII letter case, without allocating.
pub fn eq_ignore_ascii_case(a: &[u8], b: &[u8]) -> (r: bool)
    ensures
        r == eq_ignore_case(a@, b@),
{
    if a.len() != b.len() {
        return false;
    }
    let mut i: usize = 0;
    while i < a.len()
        invariant
            i <= a@.len(),
            a@.len() == b@.len(),
            forall|j: int| 0 <= j < i ==> lower(a@[j]) == lower(b@[j]),
        decreases a@.len() - i,
    {
        if to_lower(a[i]) != to_lower(b[i]) {
            return false;
        }
        i += 1;
    }
    true
}

/// Byte-for-byte equality of two byte strings.
pub fn bytes_eq(a: &[u8], b: &[u8]) -> (r: bool)
    ensures
        r == (a@ == b@),
{
    if a.len() != b.len() {
        return false;
    }
    let mut i: usize = 0;
    while i < a.len()
        invariant
            i <= a@.len(),
            a@.len() == b@.len(),
            forall|j: int| 0 <= j < i ==> a@[j] == b@[j],
        decreases a@.len() - i,
    {
        if a[i] != b[i] {
            return false;
        }
        i += 1;
    }
    assert(a@ =~= b@);
    true
}

/// Appends `tail` to `buf`.
pub fn append(buf: &mut Vec<u8>, tail: &[u8])
    ensures
        final(buf)@ == old(buf)@ + tail@,
{
    let mut i: usize = 0;
    while i < tail.len()
        invariant
            i <= tail@.len(),
            buf@ == old(buf)@ + tail@.take(i as int),
        decreases tail@.len() - i,
    {
        buf.push(tail[i]);
        i += 1;
        assert(buf@ =~= old(buf)@ + tail@.take(i as int));
    }
    assert(tail@.take(tail@.len() as int) =~= tail@);
}

/// Copies the bytes of `s` between `from` and `to` into a fresh vector.
pub fn copy_range(s: &[u8], from: usize, to: usize) -> (r: Vec<u8>)
    requires
        from <= to <= s@.len(),
    ensures
        r@ == s@.subrange(from as int, to as int),
{
    let mut r: Vec<u8> = Vec::new();
    let mut i: usize = from;
    while i < to
        invariant
            from <= i <= to <= s@.len(),
            r@ == s@.subrange(from as int, i as int),
        decreases to - i,
    {
        r.push(s[i]);
        i += 1;
        assert(r@ =~= s@.subrange(from as int, i as int));
    }
    r
}

/// Space or horizontal tab: the optional whitespace of a header line.
pub open spec fn is_blank(b: u8) -> bool {
    b == 32 || b == 9
}

/// `s` without its leading blanks.
pub open spec fn trim_start(s: Seq<u8>) -> Seq<u8>
    decreases s.len(),
{
    if s.len() > 0 && is_blank(s[0]) {
        trim_start(s.skip(1))
    } else {
        s
    }
}

/// `s` without its trailing blanks.
pub open spec fn trim_end(s: Seq<u8>) -> Seq<u8>
    decreases s.len(),
{
    if s.len() > 0 && is_blank(s.last()) {
        trim_end(s.drop_last())
    } else {
        s
    }
}

/// `s` without the blanks that surround it.
pub open spec fn trim(s: Seq<u8>) -> Seq<u8> {
    trim_end(trim_start(s))
}

/// A byte string that neither starts nor ends with a blank is its own trimmed form.
pub proof fn lemma_trim_fixed(s: Seq<u8>)
    requires
        s.len() > 0 ==> !is_blank(s[0]) && !is_blank(s.last()),
    ensures
        trim(s) == s,
{
}

/// Bounds of the trimmed form of `s[from..to]` inside `s`.
pub fn trim_range(s: &[u8], from: usize, to: usize) -> (r: (usize, usize))
    requires
        from <= to <= s@.len(),
    ensures
        from <= r.0 <= r.1 <= to,
        s@.subrange(r.0 as int, r.1 as int) == trim(s@.subrange(from as int, to as int)),
{
    let mut a: usize = from;
    while a < to && (s[a] == 32 || s[a] == 9)
        invariant
            from <= a <= to <= s@.len(),
            trim_start(s@.subrange(from as int, to as int)) == trim_start(
                s@.subrange(a as int, to as int),
            ),
        decreases to - a,
    {
        assert(s@.subrange(a as int, to as int).skip(1) =~= s@.subrange(a + 1, to as int));
        a += 1;
    }
    let mut b: usize = to;
    while a < b && (s[b - 1] == 32 || s[b - 1] == 9)
        invariant
            a <= b <= to <= s@.len(),
            trim_end(s@.subrange(a as int, to as int)) == trim_end(s@.subrange(a as int, b as int)),
        decreases b - a,
    {
        assert(s@.subrange(a as int, b as int).drop_last() =~= s@.subrange(a as int, b - 1));
        b -= 1;
    }
    (a, b)
}

/// `s` without its leading spaces.
pub open spec fn unpad_start(s: Seq<u8>) -> Seq<u8>
    decreases s.len(),
{
    if s.len() > 0 && s[0] == 32 {
        unpad_start(s.skip(1))
    } else {
        s
    }
}

/// `s` without its trailing spaces.
pub open spec fn unpad_end(s: Seq<u8>) -> Seq<u8>
    decreases s.len(),
{
    if s.len() > 0 && s.last() == 32 {
        unpad_end(s.drop_last())
    } else {
        s
    }
}

/// `s` without the spaces that surround it.  Only the space counts here: a
/// tab stays.
pub open spec fn unpad(s: Seq<u8>) -> Seq<u8> {
    unpad_end(unpad_start(s))
}

/// Bounds of `s[from..to]` without its surrounding spaces, inside `s`.
pub fn unpad_range(s: &[u8], from: usize, to: usize) -> (r: (usize, usize))
    requires
        from <= to <= s@.len(),
    ensures
        from <= r.0 <= r.1 <= to,
        s@.subrange(r.0 as int, r.1 as int) == unpad(s@.subrange(from as int, to as int)),
{
    let mut a: usize = from;
    while a < to && s[a] == 32
        invariant
            from <= a <= to <= s@.len(),
            unpad_start(s@.subrange(from as int, to as int)) == unpad_start(
                s@.subrange(a as int, to as int),
            ),
        decreases to - a,
    {
        assert(s@.subrange(a as int, to as int).skip(1) =~= s@.subrange(a + 1, to as int));
        a += 1;
    }
    let mut b: usize = to;
    while a < b && s[b - 1] == 32
        invariant
            a <= b <= to <= s@.len(),
            unpad_end(s@.subrange(a as int, to as int)) == unpad_end(s@.subrange(a as int, b as int)),
        decreases b - a,
    {
        assert(s@.subrange(a as int, b as int).drop_last() =~= s@.subrange(a as int, b - 1));
        b -= 1;
    }
    (a, b)
}

/// An ASCII decimal digit.
pub open spec fn is_digit(b: u8) -> bool {
    48 <= b <= 57
}

/// A non-empty string of ASCII decimal digits.
pub open spec fn is_number(s: Seq<u8>) -> bool {
    &&& s.len() > 0
    &&& forall|i: int| 0 <= i < s.len() ==> is_digit(s[i])
}

/// The number that a string of decimal digits denotes.
pub open spec fn number_value(s: Seq<u8>) -> nat
    decreases s.len(),
{
    if s.len() == 0 {
        0
    } else {
        (number_value(s.drop_last()) * 10 + (s.last() - 48)) as nat
    }
}

/// The decimal digits of `n`, without leading zeros.
pub open spec fn decimal(n: nat) -> Seq<u8>
    decreases n,
{
    if n < 10 {
        seq![(48 + n) as u8]
    } else {
        decimal(n / 10).push((48 + n % 10) as u8)
    }
}

/// The digits of `n` form a number, and that number is `n`.
pub proof fn lemma_decimal_value(n: nat)
    ensures
        is_number(decimal(n)),
        number_value(decimal(n)) == n,
    decreases n,
{
    if n < 10 {
        let d = decimal(n);
        assert(d.drop_last() =~= Seq::<u8>::empty());
        assert(number_value(d.drop_last()) == 0);
    } else {
        lemma_decimal_value(n / 10);
        let d = decimal(n);
        assert(d.drop_last() =~= decimal(n / 10));
    }
}

/// Among digit strings, a prefix denotes no more than the whole string.
proof fn lemma_number_prefix(s: Seq<u8>, k: int)
    requires
        0 <= k <= s.len(),
        forall|i: int| 0 <= i < s.len() ==> is_digit(s[i]),
    ensures
        number_value(s.take(k)) <= number_value(s),
    decreases s.len() - k,
{
    if k < s.len() {
        lemma_number_prefix(s, k + 1);
        let t = s.take(k + 1);
        assert(t.drop_last() =~= s.take(k));
        assert(t.last() == s[k]);
        assert(number_value(t) == number_value(s.take(k)) * 10 + (s[k] - 48));
    } else {
        assert(s.take(k) =~= s);
    }
}

/// Reads `s[from..to]` as a decimal number that is no larger than `max`.
///
/// The result is `Some` exactly when the range is a non-empty string of
/// digits whose value is at most `max`.
pub fn parse_bounded(s: &[u8], from: usize, to: usize, max: u64) -> (r: Option<u64>)
    requires
        from <= to <= s@.len(),
    ensures
        ({
            let t = s@.subrange(from as int, to as int);
            match r {
                Some(n) => is_number(t) && number_value(t) == n && n <= max,
                None => !is_number(t) || number_value(t) > max,
            }
        }),
{
    let ghost t = s@.subrange(from as int, to as int);
    if from == to {
        return None;
    }
    let mut n: u64 = 0;
    let mut i: usize = from;
    while i < to
        invariant
            from <= i <= to <= s@.len(),
            t == s@.subrange(from as int, to as int),
            forall|j: int| 0 <= j < i - from ==> is_digit(t[j]),
            n == number_value(t.take(i - from)),
            n <= max,
        decreases to - i,
    {
        let b: u8 = s[i];
        assert(t[i - from] == b);
        if b < 48 || b > 57 {
            return None;
        }
        let d: u64 = (b - 48) as u64;
        proof {
            assert(t.take(i - from + 1).drop_last() =~= t.take(i - from));
            assert(t.take(i - from + 1).last() == b);
            assert(number_value(t.take(i - from + 1)) == n * 10 + d);
        }
        if d > max || n > (max - d) / 10 {
            proof {
                assert(n * 10 + d > max) by (nonlinear_arith)
                    requires
                        d > max || n > (max - d) / 10,
                        0 <= d <= 9,
                        0 <= n,
                        0 <= max,
                ;
                if is_number(t) {
                    lemma_number_prefix(t, i - from + 1);
                }
            }
            return None;
        }
        assert(n * 10 + d <= max) by (nonlinear_arith)
            requires
                n <= (max - d) / 10,
                d <= max,
                0 <= d <= 9,
        ;
        n = n * 10 + d;
        i += 1;
    }
    assert(t.take(to - from) =~= t);
    Some(n)
}

/// Reads `s[from..to]` as a decimal number.
///
/// The result is `Some` exactly when the range is a non-empty string of
/// digits whose value fits in `usize`.
pub fn parse_number(s: &[u8], from: usize, to: usize) -> (r: Option<usize>)
    requires
        from <= to <= s@.len(),
    ensures
        ({
            let t = s@.subrange(from as int, to as int);
            match r {
                Some(n) => is_number(t) && number_value(t) == n,
                None => !is_number(t) || number_value(t) > usize::MAX,
            }
        }),
{
    match parse_bounded(s, from, to, usize::MAX as u64) {
        Some(n) => Some(n as usize),
        None => None,
    }
}

/// Writes `n` in decimal, without leading zeros.
pub fn to_decimal(n: u64) -> (r: Vec<u8>)
    ensures
        r@ == decimal(n as nat),
    decreases n,
{
    if n < 10 {
        let mut r: Vec<u8> = Vec::new();
        r.push(48 + n as u8);
        assert(r@ =~= decimal(n as nat));
        r
    } else {
        let mut r: Vec<u8> = to_decimal(n / 10);
        r.push(48 + (n % 10) as u8);
        r
    }
}

} // verus!
