//! The per-request context.

use crate::bytes::{bytes_eq, copy_range};
use crate::fields::Field;
use crate::response::content::Content;
use crate::response::headers::Headers;
use crate::response::status::Status;
use crate::response::Response;
use vstd::prelude::*;

verus! {

/// A value that lives as long as one request is being handled.
///
/// Front interceptors use it to hand data on to the handler, and to set
/// headers that every response made from the context carries.
#[derive(Debug)]
pub struct Context {
    /// The headers of the responses made from this context.
    pub headers: Headers,
    /// Named values left by interceptors, in the order in which they were
    /// stored.
    pub store: Vec<(Vec<u8>, Vec<u8>)>,
}

/// Whether `res` is the bare response with status `status` and the headers
/// `headers`: it has no content.
pub open spec fn is_bare(res: Response, status: Status, headers: Seq<Field>) -> bool {
    res.status == status && res.headers@ == headers && res.content is Empty
}

/// The index of the last pair of `store`, before `upto`, that is named `key`.
pub open spec fn last_stored(store: Seq<(Vec<u8>, Vec<u8>)>, key: Seq<u8>, upto: int) -> Option<int>
    decreases upto,
{
    if upto <= 0 || upto > store.len() {
        None
    } else if store[upto - 1].0@ == key {
        Some(upto - 1)
    } else {
        last_stored(store, key, upto - 1)
    }
}

impl Context {
    /// A fresh context: no headers, nothing stored.
    pub fn new() -> (r: Context)
        ensures
            r.headers@ == Seq::<Field>::empty(),
            r.store@.len() == 0,
    {
        Context { headers: Headers::new(), store: Vec::new() }
    }

    /// Stores `value` under `key`.  A value stored later under the same key
    /// hides this one.
    pub fn set(&mut self, key: &[u8], value: Vec<u8>)
        ensures
            final(self).headers == old(self).headers,
            final(self).store@.len() == old(self).store@.len() + 1,
            final(self).store@.take(old(self).store@.len() as int) == old(self).store@,
            final(self).store@.last().0@ == key@,
            final(self).store@.last().1 == value,
    {
        let name = copy_range(key, 0, key.len());
        assert(key@.subrange(0, key@.len() as int) =~= key@);
        self.store.push((name, value));
        assert(self.store@.take(old(self).store@.len() as int) =~= old(self).store@);
    }

    /// The value that was stored last under `key`.
    pub fn get(&self, key: &[u8]) -> (r: Option<&[u8]>)
        ensures
            match last_stored(self.store@, key@, self.store@.len() as int) {
                Some(i) => r is Some && r->0@ == self.store@[i].1@,
                None => r is None,
            },
    {
        let mut i: usize = self.store.len();
        while i > 0
            invariant
                i <= self.store@.len(),
                last_stored(self.store@, key@, self.store@.len() as int) == last_stored(
                    self.store@,
                    key@,
                    i as int,
                ),
            decreases i,
        {
            if bytes_eq(self.store[i - 1].0.as_slice(), key) {
                return Some(self.store[i - 1].1.as_slice());
            }
            i -= 1;
        }
        None
    }

    /// The bare response with status `status` and the headers of this
    /// context.
    pub fn respond(self, status: Status) -> (r: Response)
        ensures
            is_bare(r, status, self.headers@),
    {
        Response { status, headers: self.headers, content: Content::Empty }
    }
}

} // verus!
