//! The headers of a response: an ordered list of name/value pairs.

use crate::bytes::{append, bytes_eq, copy_range, eq_ignore_ascii_case};
use crate::fields::{lookup, position, with_field, without_field, Field};
use vstd::prelude::*;

verus! {

/// The bytes `: ` between a header's name and its value.
pub open spec fn separator() -> Seq<u8> {
    seq![58u8, 32u8]
}

/// The bytes that end a line.
pub open spec fn crlf() -> Seq<u8> {
    seq![13u8, 10u8]
}

/// One header as it stands on the wire: name, `: `, value and the line end.
pub open spec fn header_line(field: Field) -> Seq<u8> {
    field.0 + separator() + field.1 + crlf()
}

/// The lines of `fields`, one after the other.
pub open spec fn header_block(fields: Seq<Field>) -> Seq<u8>
    decreases fields.len(),
{
    if fields.len() == 0 {
        Seq::empty()
    } else {
        header_block(fields.drop_last()) + header_line(fields.last())
    }
}

/// Whether `needle` stands in `hay` at position `at`.
pub open spec fn occurs_at(hay: Seq<u8>, needle: Seq<u8>, at: int) -> bool {
    0 <= at && at + needle.len() <= hay.len() && hay.subrange(at, at + needle.len()) == needle
}

/// Whether `needle` stands somewhere in `hay`.
pub open spec fn occurs(hay: Seq<u8>, needle: Seq<u8>) -> bool {
    exists|at: int| occurs_at(hay, needle, at)
}

/// What stands in a part of a byte string stands in the whole.
pub proof fn lemma_occurs_in_part(before: Seq<u8>, part: Seq<u8>, after: Seq<u8>, needle: Seq<u8>)
    requires
        occurs(part, needle),
    ensures
        occurs(before + part + after, needle),
{
    let at = choose|at: int| occurs_at(part, needle, at);
    let hay = before + part + after;
    assert(hay.subrange(before.len() + at, before.len() + at + needle.len()) =~= part.subrange(
        at,
        at + needle.len(),
    ));
    assert(occurs_at(hay, needle, before.len() + at));
}

/// The block of a header list holds the line of each of its headers.
pub proof fn lemma_block_holds_line(fields: Seq<Field>, i: int)
    requires
        0 <= i < fields.len(),
    ensures
        occurs(header_block(fields), header_line(fields[i])),
    decreases fields.len(),
{
    let head = header_block(fields.drop_last());
    let last = header_line(fields.last());
    if i == fields.len() - 1 {
        assert((head + last).subrange(head.len() as int, (head.len() + last.len()) as int) =~= last);
        assert(occurs_at(head + last, last, head.len() as int));
    } else {
        lemma_block_holds_line(fields.drop_last(), i);
        assert(fields.drop_last()[i] == fields[i]);
        lemma_occurs_in_part(Seq::empty(), head, last, header_line(fields[i]));
        assert(Seq::<u8>::empty() + head + last =~= head + last);
    }
}

/// The headers of a response.
///
/// Names are compared without regard to ASCII case; setting a header that
/// is already there replaces its value in place.
#[derive(Debug)]
pub struct Headers {
    /// The headers in the order in which they are written.
    pub entries: Vec<(Vec<u8>, Vec<u8>)>,
}

impl View for Headers {
    type V = Seq<Field>;

    open spec fn view(&self) -> Seq<Field> {
        Seq::new(self.entries@.len(), |i: int| (self.entries@[i].0@, self.entries@[i].1@))
    }
}

impl Headers {
    /// No headers.
    pub fn new() -> (r: Headers)
        ensures
            r@ == Seq::<Field>::empty(),
    {
        let r = Headers { entries: Vec::new() };
        assert(r@ =~= Seq::<Field>::empty());
        r
    }

    /// Whether two header lists hold the same names and values, in the
    /// same order and spelling.
    pub fn same(&self, other: &Headers) -> (r: bool)
        ensures
            r == (self@ == other@),
    {
        if self.entries.len() != other.entries.len() {
            return false;
        }
        let mut i: usize = 0;
        while i < self.entries.len()
            invariant
                i <= self.entries@.len(),
                self.entries@.len() == other.entries@.len(),
                forall|j: int| 0 <= j < i ==> self@[j] == other@[j],
            decreases self.entries@.len() - i,
        {
            let a = &self.entries[i];
            let b = &other.entries[i];
            if !bytes_eq(a.0.as_slice(), b.0.as_slice()) || !bytes_eq(a.1.as_slice(), b.1.as_slice()) {
                assert(self@[i as int] != other@[i as int]);
                return false;
            }
            i += 1;
        }
        assert(self@ =~= other@);
        true
    }

    /// The index of the first header named `name`.
    fn find(&self, name: &[u8]) -> (r: Option<usize>)
        ensures
            match position(self@, name@, 0) {
                Some(i) => r is Some && r->0 as int == i && i < self.entries@.len(),
                None => r is None,
            },
    {
        let mut i: usize = 0;
        while i < self.entries.len()
            invariant
                i <= self.entries@.len(),
                position(self@, name@, 0) == position(self@, name@, i as int),
            decreases self.entries@.len() - i,
        {
            assert(self@[i as int].0 == self.entries@[i as int].0@);
            if eq_ignore_ascii_case(self.entries[i].0.as_slice(), name) {
                return Some(i);
            }
            i += 1;
        }
        None
    }

    /// The value of the header `name`.
    pub fn get(&self, name: &[u8]) -> (r: Option<&[u8]>)
        ensures
            match lookup(self@, name@) {
                Some(value) => r is Some && r->0@ == value,
                None => r is None,
            },
    {
        match self.find(name) {
            Some(i) => Some(self.entries[i].1.as_slice()),
            None => None,
        }
    }

    /// Sets the header `name` to `value`.
    pub fn insert(&mut self, name: &[u8], value: Vec<u8>)
        ensures
            final(self)@ == with_field(old(self)@, name@, value@),
    {
        match self.find(name) {
            Some(i) => {
                let (spelling, _) = self.entries.remove(i);
                self.entries.insert(i, (spelling, value));
                assert(self@ =~= with_field(old(self)@, name@, value@));
            },
            None => {
                let owned = copy_range(name, 0, name.len());
                assert(name@.subrange(0, name@.len() as int) =~= name@);
                self.entries.push((owned, value));
                assert(self@ =~= with_field(old(self)@, name@, value@));
            },
        }
    }

    /// Removes every header named `name`.
    pub fn remove(&mut self, name: &[u8])
        ensures
            final(self)@ == without_field(old(self)@, name@),
    {
        let ghost before = self@;
        let mut kept: usize = 0;
        let ghost mut seen: int = 0;
        proof {
            assert(before.take(0) =~= Seq::<Field>::empty());
            assert(self@ =~= without_field(before.take(0), name@) + before.skip(0));
        }
        while kept < self.entries.len()
            invariant
                0 <= seen <= before.len(),
                kept <= self.entries@.len(),
                kept == without_field(before.take(seen), name@).len(),
                self@ == without_field(before.take(seen), name@) + before.skip(seen),
            decreases before.len() - seen,
        {
            proof {
                assert(self@[kept as int] == before.skip(seen)[0]);
                assert(self@[kept as int].0 == self.entries@[kept as int].0@);
                assert(before.take(seen + 1).drop_last() =~= before.take(seen));
                assert(before.take(seen + 1).last() == before[seen]);
            }
            let ghost prev = self@;
            if eq_ignore_ascii_case(self.entries[kept].0.as_slice(), name) {
                self.entries.remove(kept);
                proof {
                    assert(self@ =~= prev.remove(kept as int));
                    assert(self@ =~= without_field(before.take(seen + 1), name@) + before.skip(
                        seen + 1,
                    ));
                }
            } else {
                kept += 1;
                proof {
                    assert(self@ =~= without_field(before.take(seen + 1), name@) + before.skip(
                        seen + 1,
                    ));
                }
            }
            proof {
                seen = seen + 1;
            }
        }
        proof {
            assert(self@.len() == kept);
            assert(before.skip(seen).len() == 0);
            assert(seen == before.len());
            assert(before.take(seen) =~= before);
            assert(self@ =~= without_field(before, name@));
        }
    }

    /// Writes the headers to `buf`, one line each.
    pub fn write_to(&self, buf: &mut Vec<u8>)
        ensures
            final(buf)@ == old(buf)@ + header_block(self@),
    {
        let mut i: usize = 0;
        proof {
            assert(self@.take(0) =~= Seq::<Field>::empty());
            assert(buf@ =~= old(buf)@ + header_block(self@.take(0)));
        }
        while i < self.entries.len()
            invariant
                i <= self.entries@.len(),
                buf@ == old(buf)@ + header_block(self@.take(i as int)),
            decreases self.entries@.len() - i,
        {
            let ghost start = buf@;
            let pair = &self.entries[i];
            append(buf, pair.0.as_slice());
            buf.push(58);
            buf.push(32);
            append(buf, pair.1.as_slice());
            buf.push(13);
            buf.push(10);
            proof {
                let f = self@[i as int];
                assert(buf@ =~= start + header_line(f));
                assert(self@.take(i + 1).drop_last() =~= self@.take(i as int));
                assert(self@.take(i + 1).last() == f);
                assert(buf@ =~= old(buf)@ + header_block(self@.take(i + 1)));
            }
            i += 1;
        }
        assert(self@.take(i as int) =~= self@);
    }
}

} // verus!
