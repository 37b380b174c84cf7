//! The request: its parser and its accessors.

pub mod grammar;
pub mod parse;
pub mod wire;

use crate::buffer::Buffer;
use crate::bytes::{eq_ignore_ascii_case, eq_ignore_case};
use crate::decode::{decoded, percent_decode_lossy};
use crate::fields::{lookup, Field};
use crate::list::List;
use crate::method::Method;
use crate::request::grammar::{ContentType, RequestView};
use crate::request::parse::{all_fit, field_position};
use crate::slice::Slice;
use vstd::prelude::*;
use vstd::string::StringSliceAdditionalSpecFns;
use vstd::utf8::encode_utf8;

verus! {

/// How many query pairs a request keeps by default.
pub const QUERIES_LIMIT: usize = 4;

/// How many headers a request keeps by default.
pub const HEADERS_LIMIT: usize = 32;

/// The name/value pairs that `items` designate in `buf`.
pub open spec fn pairs_of(items: Seq<(Slice, Slice)>, buf: Seq<u8>) -> Seq<Field> {
    Seq::new(items.len(), |i: int| (items[i].0.of(buf), items[i].1.of(buf)))
}

/// The index of the first query pair, at or after `from`, whose decoded key
/// is `key` up to ASCII case.
pub open spec fn query_position(queries: Seq<Field>, key: Seq<u8>, from: int) -> Option<int>
    decreases queries.len() - from,
{
    if from < 0 || from >= queries.len() {
        None
    } else if eq_ignore_case(encode_utf8(decoded(queries[from].0)), key) {
        Some(from)
    } else {
        query_position(queries, key, from + 1)
    }
}

/// Whether `view` lies inside a buffer of `n` bytes.
pub fn fits_in(view: Slice, n: usize) -> (r: bool)
    ensures
        r == view.fits(n as nat),
{
    view.offset <= n && view.len <= n - view.offset
}

/// Whether every view of `items` lies inside a buffer of `n` bytes.
pub fn all_fit_in(items: &Vec<(Slice, Slice)>, n: usize) -> (r: bool)
    ensures
        r == all_fit(items@, n as nat),
{
    let mut i: usize = 0;
    while i < items.len()
        invariant
            i <= items@.len(),
            forall|j: int| 0 <= j < i ==> (#[trigger] items@[j]).0.fits(n as nat) && items@[j].1.fits(
                n as nat,
            ),
        decreases items@.len() - i,
    {
        if !fits_in(items[i].0, n) || !fits_in(items[i].1, n) {
            return false;
        }
        i += 1;
    }
    true
}

/// A parsed request.
///
/// The request owns the buffer it was parsed from; its parts are views into
/// that buffer.
#[derive(Debug)]
pub struct Request {
    /// The bytes that the request was parsed from.
    pub buffer: Buffer,
    /// The method.
    pub method: Method,
    /// The path, as it stands in the buffer.
    pub path: Slice,
    /// The pairs of the query.
    pub queries: List<(Slice, Slice)>,
    /// The headers.
    pub headers: List<(Slice, Slice)>,
    /// The media type and the body, if there is one.
    pub payload: Option<(ContentType, Slice)>,
}

impl View for Request {
    type V = RequestView;

    open spec fn view(&self) -> RequestView {
        RequestView {
            method: self.method,
            path: self.path.of(self.buffer@),
            queries: pairs_of(self.queries@, self.buffer@),
            headers: pairs_of(self.headers@, self.buffer@),
            payload: match self.payload {
                Some((t, body)) => Some((t, body.of(self.buffer@))),
                None => None,
            },
        }
    }
}

impl Request {
    /// Every view lies inside the buffer, and the lists respect their capacities.
    pub open spec fn wf(&self) -> bool {
        &&& self.path.fits(self.buffer@.len())
        &&& self.queries.wf()
        &&& self.headers.wf()
        &&& all_fit(self.queries@, self.buffer@.len())
        &&& all_fit(self.headers@, self.buffer@.len())
        &&& match self.payload {
            Some((_, body)) => body.fits(self.buffer@.len()),
            None => true,
        }
    }

    /// Whether every view lies inside the buffer and the lists respect
    /// their capacities.  A request that the parser made always does.
    pub fn is_well_formed(&self) -> (r: bool)
        ensures
            r == self.wf(),
    {
        let n: usize = self.buffer.len();
        if !fits_in(self.path, n) {
            return false;
        }
        if self.queries.items.len() > self.queries.capacity || self.headers.items.len()
            > self.headers.capacity {
            return false;
        }
        if !all_fit_in(&self.queries.items, n) || !all_fit_in(&self.headers.items, n) {
            return false;
        }
        match &self.payload {
            Some((_, body)) => fits_in(*body, n),
            None => true,
        }
    }

    /// The method of the request.
    pub fn method(&self) -> (r: Method)
        ensures
            r == self@.method,
    {
        self.method
    }

    /// The path as it stands on the wire, not decoded.
    pub fn path_bytes(&self) -> (r: &[u8])
        requires
            self.wf(),
        ensures
            r@ == self@.path,
    {
        self.path.into_bytes(self.buffer.as_slice())
    }

    /// The path, percent-decoded and read as UTF-8.
    pub fn path(&self) -> (r: String)
        requires
            self.wf(),
        ensures
            r@ == decoded(self@.path),
    {
        percent_decode_lossy(self.path_bytes())
    }

    /// The decoded value of the first query pair whose decoded key is `key`,
    /// up to ASCII case.
    pub fn query(&self, key: &str) -> (r: Option<String>)
        requires
            self.wf(),
        ensures
            match query_position(self@.queries, key.spec_bytes(), 0) {
                Some(i) => r is Some && r->0@ == decoded(self@.queries[i].1),
                None => r is None,
            },
    {
        let buf = self.buffer.as_slice();
        let ghost queries = self@.queries;
        let mut i: usize = 0;
        while i < self.queries.len()
            invariant
                i <= self.queries@.len(),
                self.wf(),
                buf@ == self.buffer@,
                queries == self@.queries,
                query_position(queries, key.spec_bytes(), 0) == query_position(
                    queries,
                    key.spec_bytes(),
                    i as int,
                ),
            decreases self.queries@.len() - i,
        {
            let pair = self.queries.get(i);
            assert(queries[i as int] == (pair.0.of(buf@), pair.1.of(buf@)));
            let name = percent_decode_lossy(pair.0.into_bytes(buf));
            if eq_ignore_ascii_case(name.as_str().as_bytes(), key.as_bytes()) {
                return Some(percent_decode_lossy(pair.1.into_bytes(buf)));
            }
            i += 1;
        }
        None
    }

    /// The value of the first header named `key`, up to ASCII case.
    pub fn header(&self, key: &str) -> (r: Option<&[u8]>)
        requires
            self.wf(),
        ensures
            match lookup(self@.headers, key.spec_bytes()) {
                Some(value) => r is Some && r->0@ == value,
                None => r is None,
            },
    {
        let buf = self.buffer.as_slice();
        match field_position(buf, &self.headers, key.as_bytes()) {
            Some(i) => {
                let pair = self.headers.get(i);
                Some(pair.1.into_bytes(buf))
            },
            None => None,
        }
    }

    /// The media type and the bytes of the body, if the request has one.
    pub fn payload(&self) -> (r: Option<(ContentType, &[u8])>)
        requires
            self.wf(),
        ensures
            match self@.payload {
                Some((t, body)) => r is Some && (r->0).0 == t && (r->0).1@ == body,
                None => r is None,
            },
    {
        match &self.payload {
            Some((t, body)) => Some((*t, body.into_bytes(self.buffer.as_slice()))),
            None => None,
        }
    }
}

} // verus!
