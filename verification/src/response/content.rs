//! What a response carries besides its status and headers.

use crate::bytes::bytes_eq;
use vstd::prelude::*;

verus! {

/// The content of a response.
#[derive(Debug)]
pub enum Content {
    /// No content.
    Empty,
    /// A body that is known in full.
    Payload(Vec<u8>),
    /// A body made of chunks that are written one after the other.
    Stream(Vec<Vec<u8>>),
    /// The payload of a protocol upgrade, carried for the connection layer
    /// and never written as a body.
    Upgrade(Vec<u8>),
}

/// The chunks of a stream, one after the other.
pub open spec fn flat(chunks: Seq<Vec<u8>>) -> Seq<u8>
    decreases chunks.len(),
{
    if chunks.len() == 0 {
        Seq::empty()
    } else {
        flat(chunks.drop_last()) + chunks.last()@
    }
}

/// The byte strings that `chunks` hold.
pub open spec fn chunk_views(chunks: Seq<Vec<u8>>) -> Seq<Seq<u8>> {
    chunks.map_values(|c: Vec<u8>| c@)
}

impl Content {
    /// Whether two contents are of the same kind and hold the same bytes.
    pub open spec fn alike(&self, other: &Content) -> bool {
        match (self, other) {
            (Content::Empty, Content::Empty) => true,
            (Content::Payload(a), Content::Payload(b)) => a@ == b@,
            (Content::Stream(a), Content::Stream(b)) => chunk_views(a@) == chunk_views(b@),
            (Content::Upgrade(a), Content::Upgrade(b)) => a@ == b@,
            _ => false,
        }
    }

    /// Whether two contents are of the same kind and hold the same bytes.
    pub fn same(&self, other: &Content) -> (r: bool)
        ensures
            r == self.alike(other),
    {
        match (self, other) {
            (Content::Empty, Content::Empty) => true,
            (Content::Payload(a), Content::Payload(b)) => bytes_eq(a.as_slice(), b.as_slice()),
            (Content::Stream(a), Content::Stream(b)) => {
                if a.len() != b.len() {
                    assert(chunk_views(a@).len() != chunk_views(b@).len());
                    return false;
                }
                let mut i: usize = 0;
                while i < a.len()
                    invariant
                        i <= a@.len(),
                        a@.len() == b@.len(),
                        self.alike(other) == (chunk_views(a@) == chunk_views(b@)),
                        forall|j: int| 0 <= j < i ==> a@[j]@ == b@[j]@,
                    decreases a@.len() - i,
                {
                    if !bytes_eq(a[i].as_slice(), b[i].as_slice()) {
                        assert(chunk_views(a@)[i as int] != chunk_views(b@)[i as int]);
                        return false;
                    }
                    i += 1;
                }
                assert(chunk_views(a@) =~= chunk_views(b@));
                true
            },
            (Content::Upgrade(a), Content::Upgrade(b)) => bytes_eq(a.as_slice(), b.as_slice()),
            _ => false,
        }
    }

    /// The pieces in which this content is written, one after the other:
    /// the payload as one piece, a stream chunk by chunk.
    pub open spec fn chunks(&self) -> Seq<Vec<u8>> {
        match self {
            Content::Empty => Seq::empty(),
            Content::Payload(bytes) => seq![*bytes],
            Content::Stream(chunks) => chunks@,
            Content::Upgrade(_) => Seq::empty(),
        }
    }

    /// The bytes that follow the headers when this content is written.
    pub open spec fn body(&self) -> Seq<u8> {
        match self {
            Content::Empty => Seq::empty(),
            Content::Payload(bytes) => bytes@,
            Content::Stream(chunks) => flat(chunks@),
            Content::Upgrade(_) => Seq::empty(),
        }
    }

    /// Whether there is no content.
    pub fn is_none(&self) -> (r: bool)
        ensures
            r == (self is Empty),
    {
        match self {
            Content::Empty => true,
            _ => false,
        }
    }

    /// Takes the content out and leaves none behind.
    pub fn take(&mut self) -> (r: Content)
        ensures
            r == *old(self),
            *final(self) == Content::Empty,
    {
        let mut out = Content::Empty;
        core::mem::swap(self, &mut out);
        out
    }

    /// The payload, when the content is one.
    pub fn as_bytes(&self) -> (r: Option<&[u8]>)
        ensures
            match self {
                Content::Payload(bytes) => r is Some && r->0@ == bytes@,
                _ => r is None,
            },
    {
        match self {
            Content::Payload(bytes) => Some(bytes.as_slice()),
            _ => None,
        }
    }

    /// The payload by value, when the content is one.
    pub fn into_bytes(self) -> (r: Option<Vec<u8>>)
        ensures
            match self {
                Content::Payload(bytes) => r == Some(bytes),
                _ => r is None,
            },
    {
        match self {
            Content::Payload(bytes) => Some(bytes),
            _ => None,
        }
    }
}


/// The pieces of a content, one after the other, are its body.
pub proof fn lemma_chunks_make_body(content: Content)
    ensures
        flat(content.chunks()) == content.body(),
{
    match content {
        Content::Payload(bytes) => {
            let one = seq![bytes];
            assert(one.drop_last() =~= Seq::<Vec<u8>>::empty());
            assert(flat(one.drop_last()) =~= Seq::<u8>::empty());
            assert(flat(one) =~= bytes@);
        },
        _ => {},
    }
}

} // verus!
