//! Borrowed views: offsets into a buffer that someone else owns.

use vstd::prelude::*;

verus! {

/// An offset and a length that designate a range of a byte buffer.
///
/// A view never owns or copies bytes; it is read against the buffer it was
/// cut from, and reading is only allowed where the view lies inside it.
#[derive(Clone, Copy, Debug, PartialEq, Eq)]
pub struct Slice {
    /// Where the range starts.
    pub offset: usize,
    /// How many bytes the range holds.
    pub len: usize,
}

impl Slice {
    /// Whether the view lies inside a buffer of `n` bytes.
    pub open spec fn fits(self, n: nat) -> bool {
        self.offset + self.len <= n
    }

    /// The bytes that the view designates in `buf`.
    pub open spec fn of(self, buf: Seq<u8>) -> Seq<u8> {
        buf.subrange(self.offset as int, self.offset + self.len)
    }

    /// The view of `buf[from..to]`.
    pub fn new(from: usize, to: usize) -> (r: Slice)
        requires
            from <= to,
        ensures
            r.offset == from,
            r.len == to - from,
    {
        Slice { offset: from, len: to - from }
    }

    /// The view that covers all of `bytes`.
    pub fn from_bytes(bytes: &[u8]) -> (r: Slice)
        ensures
            r.offset == 0,
            r.len == bytes@.len(),
            r.of(bytes@) == bytes@,
    {
        let r = Slice { offset: 0, len: bytes.len() };
        assert(bytes@.subrange(0, bytes@.len() as int) =~= bytes@);
        r
    }

    /// Reads the view against `buf`.
    pub fn into_bytes<'a>(self, buf: &'a [u8]) -> (r: &'a [u8])
        requires
            self.fits(buf@.len()),
        ensures
            r@ == self.of(buf@),
    {
        assert(buf@.len() == buf.len());
        vstd::slice::slice_subrange(buf, self.offset, self.offset + self.len)
    }
}

} // verus!
