//! The bytes of one read from a connection.

use crate::bytes::{find_byte, index_of, lemma_index_of};
use crate::slice::Slice;
use vstd::prelude::*;
use vstd::string::StringSliceAdditionalSpecFns;
use vstd::utf8::valid_utf8;

verus! {

/// The bytes captured from one read of a connection.  A buffer is owned by
/// the request that was parsed from it, and lives as long as the request.
#[derive(Debug)]
pub struct Buffer {
    /// The bytes that were read.
    pub bytes: Vec<u8>,
}

impl View for Buffer {
    type V = Seq<u8>;

    open spec fn view(&self) -> Seq<u8> {
        self.bytes@
    }
}

/// The bytes of a buffer are not well-formed UTF-8, so they are no text
/// and have no lines.
#[derive(Clone, Copy, Debug, PartialEq, Eq, Structural)]
pub struct InvalidUtf8;

/// Whether `bytes` are well-formed UTF-8.
///
/// Calls `std::str::from_utf8` and tells whether it succeeded.  The
/// contract claims that it succeeds exactly on well-formed UTF-8.
#[verifier::external_body]
pub(crate) fn is_utf8(bytes: &[u8]) -> (r: bool)
    ensures
        r == valid_utf8(bytes@),
{
    std::str::from_utf8(bytes).is_ok()
}

/// The lines of `s`: the pieces between line feeds, each without the line
/// feed that ends it and without a carriage return that stands right before
/// that line feed.  What follows the last line feed is a line too, unless
/// it is empty; it keeps a carriage return at its end.
pub open spec fn lines_of(s: Seq<u8>) -> Seq<Seq<u8>>
    decreases s.len(),
{
    if s.len() == 0 {
        Seq::empty()
    } else {
        let k = index_of(s, 10u8);
        let end = if 0 < k < s.len() && s[k - 1] == 13u8 {
            k - 1
        } else {
            k
        };
        if 0 <= k < s.len() {
            seq![s.take(end)] + lines_of(s.skip(k + 1))
        } else {
            seq![s.take(end)]
        }
    }
}

impl Buffer {
    /// A buffer that holds `bytes`.
    pub fn new(bytes: Vec<u8>) -> (r: Buffer)
        ensures
            r@ == bytes@,
    {
        Buffer { bytes }
    }

    /// A buffer that holds the bytes of `text`.
    pub fn from_raw_str(text: &str) -> (r: Buffer)
        ensures
            r@ == text.spec_bytes(),
    {
        Buffer { bytes: vstd::slice::slice_to_vec(text.as_bytes()) }
    }

    /// The bytes of the buffer.
    pub fn as_slice(&self) -> (r: &[u8])
        ensures
            r@ == self@,
    {
        self.bytes.as_slice()
    }

    /// The number of bytes in the buffer.
    pub fn len(&self) -> (n: usize)
        ensures
            n == self@.len(),
    {
        self.bytes.len()
    }

    /// Views of the lines of the buffer, read as text.  Bytes that are not
    /// well-formed UTF-8 are no text: they give an error.
    pub fn lines(&self) -> (r: Result<Vec<Slice>, InvalidUtf8>)
        ensures
            r is Ok <==> valid_utf8(self@),
            r is Ok ==> r->Ok_0@.len() == lines_of(self@).len(),
            r is Ok ==> forall|i: int|
                0 <= i < r->Ok_0@.len() ==> (#[trigger] r->Ok_0@[i]).fits(self@.len())
                    && r->Ok_0@[i].of(self@) == lines_of(self@)[i],
    {
        let s = self.bytes.as_slice();
        if !is_utf8(s) {
            return Err(InvalidUtf8);
        }
        let mut out: Vec<Slice> = Vec::new();
        let mut pos: usize = 0;
        let ghost all = lines_of(s@);
        proof {
            assert(s@.skip(0) =~= s@);
        }
        while pos < s.len()
            invariant
                pos <= s@.len(),
                s@ == self@,
                all == lines_of(s@),
                out@.len() + lines_of(s@.skip(pos as int)).len() == all.len(),
                forall|i: int|
                    0 <= i < out@.len() ==> (#[trigger] out@[i]).fits(s@.len()) && out@[i].of(s@)
                        == all[i],
                forall|i: int|
                    0 <= i < lines_of(s@.skip(pos as int)).len() ==> all[out@.len() + i]
                        == #[trigger] lines_of(s@.skip(pos as int))[i],
            decreases s@.len() - pos,
        {
            let ghost t = s@.skip(pos as int);
            let ghost before = lines_of(t);
            let ghost done = out@.len();
            let l: usize = find_byte(s, pos, 10);
            proof {
                lemma_index_of(t, 10u8);
            }
            let end: usize = if l < s.len() && l > pos && s[l - 1] == 13 {
                l - 1
            } else {
                l
            };
            proof {
                assert(l > pos ==> t[l - pos - 1] == s@[l - 1]);
                assert(t.take(end - pos) =~= s@.subrange(pos as int, end as int));
                assert(before[0] == s@.subrange(pos as int, end as int));
                assert(all[done as int + 0] == before[0]);
            }
            out.push(Slice::new(pos, end));
            if l < s.len() {
                proof {
                    assert(t.skip(l - pos + 1) =~= s@.skip(l + 1));
                    let after = lines_of(s@.skip(l + 1));
                    assert(before =~= seq![before[0]] + after);
                    assert forall|i: int| 0 <= i < after.len() implies all[out@.len() + i]
                        == #[trigger] after[i] by {
                        assert(before[i + 1] == after[i]);
                        assert(all[done + (i + 1)] == before[i + 1]);
                    }
                }
                pos = l + 1;
            } else {
                proof {
                    assert(s@.skip(s@.len() as int).len() == 0);
                }
                pos = s.len();
            }
        }
        proof {
            assert(s@.skip(pos as int).len() == 0);
        }
        Ok(out)
    }
}

} // verus!
