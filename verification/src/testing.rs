//! Building requests for tests: a request is described by its parts and
//! written out in the form that the parser reads.

use crate::buffer::Buffer;
use crate::bytes::{append, decimal, eq_ignore_case, lemma_decimal_value, to_decimal};
use crate::fields::{lemma_position, position, Field};
use crate::method::Method;
use crate::request::grammar::{
    parsed, payload_of, ContentType, ParseError, RequestView, AMPERSAND, EQUALS, QUESTION, SP,
};
use crate::request::wire::{
    header_ok, lemma_overfull_query_is_refused, lemma_parse_reads_back, path_ok, query_ok,
    query_piece, query_string, request_line, target, wire_request,
};
use crate::request::{HEADERS_LIMIT, QUERIES_LIMIT};
use crate::response::headers::{crlf, header_block, header_line};
use crate::response::owned;
use vstd::prelude::*;
use vstd::string::StringSliceAdditionalSpecFns;

verus! {

/// How many query pairs a test request may hold.
pub const RANGE_COLLECTION_SIZE: usize = 4;

/// The description of a request: method, path, query pairs and an optional
/// JSON body.
#[derive(Debug)]
pub struct Request {
    /// The method.
    pub method: Method,
    /// The path.
    pub uri: Vec<u8>,
    /// The query pairs, in the order in which they were added.
    pub query: Vec<(Vec<u8>, Vec<u8>)>,
    /// The serialized JSON body, if the request has one.
    pub body: Option<Vec<u8>>,
}

/// The name/value pairs that `items` hold.
pub open spec fn fields_of(items: Seq<(Vec<u8>, Vec<u8>)>) -> Seq<Field> {
    Seq::new(items.len(), |i: int| (items[i].0@, items[i].1@))
}

/// The headers that announce a JSON body of `n` bytes.
pub open spec fn json_headers(n: nat) -> Seq<Field> {
    seq![
        ("Content-Type".spec_bytes(), "application/json".spec_bytes()),
        ("Content-Length".spec_bytes(), decimal(n)),
    ]
}

impl Request {
    /// The headers that this request is written with.
    pub open spec fn headers(&self) -> Seq<Field> {
        match self.body {
            Some(body) => json_headers(body@.len()),
            None => Seq::empty(),
        }
    }

    /// The bytes that follow the headers.
    pub open spec fn body_bytes(&self) -> Seq<u8> {
        match self.body {
            Some(body) => body@,
            None => Seq::empty(),
        }
    }

    /// The wire form of this request.
    pub open spec fn wire(&self) -> Seq<u8> {
        wire_request(
            self.method,
            self.uri@,
            fields_of(self.query@),
            self.headers(),
            self.body_bytes(),
        )
    }

    /// A request for `uri` without query or body.
    pub fn new(method: Method, uri: &str) -> (r: Request)
        ensures
            r.method == method,
            r.uri@ == uri.spec_bytes(),
            r.query@.len() == 0,
            r.body is None,
    {
        Request { method, uri: owned(uri), query: Vec::new(), body: None }
    }

    /// This request with one more query pair, if it has room for one: a
    /// request holds at most `RANGE_COLLECTION_SIZE` pairs.  A request that
    /// is full is handed back as it is, as an error; no pair is dropped or
    /// written over.
    pub fn query(self, key: &str, value: &str) -> (r: Result<Request, Request>)
        ensures
            r is Ok <==> self.query@.len() < RANGE_COLLECTION_SIZE,
            r is Err ==> r->Err_0 == self,
            r is Ok ==> {
                &&& r->Ok_0.method == self.method
                &&& r->Ok_0.uri == self.uri
                &&& r->Ok_0.body == self.body
                &&& fields_of(r->Ok_0.query@) == fields_of(self.query@).push(
                    (key.spec_bytes(), value.spec_bytes()),
                )
            },
    {
        if self.query.len() >= RANGE_COLLECTION_SIZE {
            return Err(self);
        }
        let mut r = self;
        r.query.push((owned(key), owned(value)));
        assert(fields_of(r.query@) =~= fields_of(self.query@).push(
            (key.spec_bytes(), value.spec_bytes()),
        ));
        Ok(r)
    }

    /// This request with the serialized JSON document `body` as its body.
    pub fn body(self, body: Vec<u8>) -> (r: Request)
        ensures
            r.method == self.method,
            r.uri == self.uri,
            r.query == self.query,
            r.body == Some(body),
    {
        let mut r = self;
        r.body = Some(body);
        r
    }

    /// Writes the request out in its wire form.
    pub fn into_request_buffer(&self) -> (r: Buffer)
        ensures
            r@ == self.wire(),
    {
        let ghost queries = fields_of(self.query@);
        let mut buf: Vec<u8> = Vec::new();
        append(&mut buf, self.method.as_bytes());
        buf.push(SP);
        append(&mut buf, self.uri.as_slice());
        write_query(&mut buf, &self.query);
        assert(buf@ =~= self.method.name() + seq![SP] + target(self.uri@, queries));
        buf.push(SP);
        append(&mut buf, "HTTP/1.1".as_bytes());
        buf.push(13);
        buf.push(10);
        let ghost line = buf@;
        assert(line =~= request_line(self.method, self.uri@, queries) + crlf());
        match &self.body {
            Some(body) => {
                write_json_headers(&mut buf, body.len());
                buf.push(13);
                buf.push(10);
                append(&mut buf, body.as_slice());
                assert(buf@ =~= line + header_block(json_headers(body@.len())) + crlf() + body@);
            },
            None => {
                buf.push(13);
                buf.push(10);
                assert(buf@ =~= line + header_block(Seq::<Field>::empty()) + crlf() + Seq::<
                    u8,
                >::empty());
            },
        }
        assert(buf@ =~= self.wire());
        Buffer::new(buf)
    }
}

/// Writes `?` and the query string of `query` to `buf`; nothing when there
/// are no pairs.
pub fn write_query(buf: &mut Vec<u8>, query: &Vec<(Vec<u8>, Vec<u8>)>)
    ensures
        final(buf)@ == old(buf)@ + if query@.len() == 0 {
            Seq::<u8>::empty()
        } else {
            seq![QUESTION] + query_string(fields_of(query@))
        },
{
    let ghost queries = fields_of(query@);
    let ghost head = buf@;
    let mut i: usize = 0;
    proof {
        assert(buf@ =~= head + Seq::<u8>::empty());
    }
    while i < query.len()
        invariant
            i <= query@.len(),
            queries == fields_of(query@),
            head == old(buf)@,
            buf@ == head + if i == 0 {
                Seq::<u8>::empty()
            } else {
                seq![QUESTION] + query_string(queries.take(i as int))
            },
        decreases query@.len() - i,
    {
        if i == 0 {
            buf.push(QUESTION);
        } else {
            buf.push(AMPERSAND);
        }
        let pair = &query[i];
        append(buf, pair.0.as_slice());
        buf.push(EQUALS);
        append(buf, pair.1.as_slice());
        proof {
            assert(queries[i as int] == (pair.0@, pair.1@));
            lemma_query_string_push(queries.take(i + 1));
            assert(queries.take(i + 1).drop_last() =~= queries.take(i as int));
            let piece = query_piece(queries[i as int]);
            if i == 0 {
                assert(buf@ =~= head + (seq![QUESTION] + piece));
            } else {
                assert(buf@ =~= head + (seq![QUESTION] + (query_string(queries.take(i as int))
                    + seq![AMPERSAND] + piece)));
            }
        }
        i += 1;
    }
    proof {
        assert(queries.take(i as int) =~= queries);
    }
}

/// Writes the header lines that announce a JSON body of `n` bytes to `buf`.
pub fn write_json_headers(buf: &mut Vec<u8>, n: usize)
    ensures
        final(buf)@ == old(buf)@ + header_block(json_headers(n as nat)),
{
    let ghost hs = json_headers(n as nat);
    append(buf, "Content-Type".as_bytes());
    buf.push(58);
    buf.push(32);
    append(buf, "application/json".as_bytes());
    buf.push(13);
    buf.push(10);
    assert(buf@ =~= old(buf)@ + header_line(hs[0]));
    let ghost mid = buf@;
    append(buf, "Content-Length".as_bytes());
    buf.push(58);
    buf.push(32);
    let digits = to_decimal(n as u64);
    append(buf, digits.as_slice());
    buf.push(13);
    buf.push(10);
    proof {
        assert(buf@ =~= mid + header_line(hs[1]));
        assert(hs.drop_last().drop_last() =~= Seq::<Field>::empty());
        assert(header_block(hs.drop_last().drop_last()) =~= Seq::<u8>::empty());
        assert(hs.drop_last().last() == hs[0]);
        assert(header_block(hs.drop_last()) =~= header_line(hs[0]));
        assert(header_block(hs) =~= header_line(hs[0]) + header_line(hs[1]));
    }
}

/// Adding a pair at the end of a query adds its piece at the end of the
/// query string, after `&` unless the pair is the first.
pub proof fn lemma_query_string_push(queries: Seq<Field>)
    requires
        queries.len() > 0,
    ensures
        query_string(queries) == if queries.len() == 1 {
            query_piece(queries[0])
        } else {
            query_string(queries.drop_last()) + seq![AMPERSAND] + query_piece(queries.last())
        },
    decreases queries.len(),
{
    if queries.len() > 1 {
        let more = queries.skip(1);
        lemma_query_string_push(more);
        let init = queries.drop_last();
        assert(init.skip(1) =~= more.drop_last());
        assert(init[0] == queries[0]);
        assert(more.last() == queries.last());
        if queries.len() == 2 {
            assert(more[0] == queries[1]);
            assert(query_string(init) == query_piece(queries[0]));
        } else {
            assert(query_string(queries) =~= query_string(init) + seq![AMPERSAND] + query_piece(
                queries.last(),
            ));
        }
    }
}

/// The headers that announce a JSON body of `body.len()` bytes can be
/// written, and announce exactly `body` as the JSON payload.
pub proof fn lemma_json_headers(body: Seq<u8>)
    ensures
        forall|i: int|
            0 <= i < json_headers(body.len()).len() ==> header_ok(
                #[trigger] json_headers(body.len())[i],
            ),
        payload_of(json_headers(body.len()), body) == Ok::<
            Option<(ContentType, Seq<u8>)>,
            ParseError,
        >(Some((ContentType::JSON, body))),
{
    broadcast use vstd::string::is_ascii_spec_bytes;

    let hs = json_headers(body.len());
    let kind = "Content-Type".spec_bytes();
    let length = "Content-Length".spec_bytes();
    let json = "application/json".spec_bytes();
    reveal_strlit("Content-Type");
    reveal_strlit("Content-Length");
    reveal_strlit("application/json");
    assert("Content-Type".is_ascii());
    assert("Content-Length".is_ascii());
    assert("application/json".is_ascii());
    assert(kind.len() == 12 && length.len() == 14 && json.len() == 16);
    lemma_decimal_value(body.len());
    let digits = decimal(body.len());
    // the headers can be written
    assert(!kind.contains(58u8) && !kind.contains(10u8)) by {
        assert forall|i: int| 0 <= i < kind.len() implies kind[i] != 58u8 && kind[i] != 10u8 by {}
    }
    assert(!length.contains(58u8) && !length.contains(10u8)) by {
        assert forall|i: int| 0 <= i < length.len() implies length[i] != 58u8 && length[i] != 10u8 by {}
    }
    assert(!json.contains(10u8) && !json.contains(59u8)) by {
        assert forall|i: int| 0 <= i < json.len() implies json[i] != 10u8 && json[i] != 59u8 by {}
    }
    assert(!digits.contains(10u8)) by {
        if digits.contains(10u8) {
            let i = choose|i: int| 0 <= i < digits.len() && digits[i] == 10u8;
            assert(crate::bytes::is_digit(digits[i]));
        }
    }
    assert(crate::bytes::is_digit(digits[0]) && crate::bytes::is_digit(digits.last()));
    assert(header_ok(hs[0]));
    assert(header_ok(hs[1]));
    // what they announce
    crate::fields::lemma_eq_ignore_case_equiv(kind, kind, kind);
    crate::fields::lemma_eq_ignore_case_equiv(length, length, length);
    crate::fields::lemma_eq_ignore_case_equiv(json, json, json);
    assert(position(hs, kind, 0) == Some(0int));
    assert(!eq_ignore_case(kind, length));
    assert(position(hs, length, 1) == Some(1int));
    assert(position(hs, length, 0) == Some(1int));
    crate::bytes::lemma_index_of_absent(json, 59u8);
    crate::bytes::lemma_trim_fixed(json);
    assert(ContentType::essence(json) == json);
    assert(ContentType::named(json) == Some(ContentType::JSON));
    assert(body.take(body.len() as int) =~= body);
}

/// A test request whose path and query pairs can be written is read back
/// by the parser with its method, path and query pairs, and with its body
/// as a JSON payload.
pub proof fn lemma_test_request_parses(req: Request)
    requires
        path_ok(req.uri@),
        forall|i: int| 0 <= i < req.query@.len() ==> query_ok(#[trigger] fields_of(req.query@)[i]),
        req.query@.len() <= RANGE_COLLECTION_SIZE,
    ensures
        parsed(req.wire(), QUERIES_LIMIT as nat, HEADERS_LIMIT as nat) == Ok::<
            RequestView,
            ParseError,
        >(
            RequestView {
                method: req.method,
                path: req.uri@,
                queries: fields_of(req.query@),
                headers: req.headers(),
                payload: match req.body {
                    Some(body) => Some((ContentType::JSON, body@)),
                    None => None,
                },
            },
        ),
{
    let queries = fields_of(req.query@);
    match req.body {
        Some(body) => {
            lemma_json_headers(body@);
        },
        None => {
            lemma_position(Seq::<Field>::empty(), "Content-Type".spec_bytes(), 0);
        },
    }
    lemma_parse_reads_back(
        req.method,
        req.uri@,
        queries,
        req.headers(),
        req.body_bytes(),
        QUERIES_LIMIT as nat,
        HEADERS_LIMIT as nat,
    );
}


/// A test request with more query pairs than a request keeps is refused by
/// the parser.
pub proof fn lemma_overfull_test_request_is_refused(req: Request)
    requires
        path_ok(req.uri@),
        forall|i: int| 0 <= i < req.query@.len() ==> query_ok(#[trigger] fields_of(req.query@)[i]),
        req.query@.len() > QUERIES_LIMIT,
    ensures
        parsed(req.wire(), QUERIES_LIMIT as nat, HEADERS_LIMIT as nat) == Err::<
            RequestView,
            ParseError,
        >(ParseError::TooManyQueryParams),
{
    lemma_overfull_query_is_refused(
        req.method,
        req.uri@,
        fields_of(req.query@),
        req.headers(),
        req.body_bytes(),
        QUERIES_LIMIT as nat,
        HEADERS_LIMIT as nat,
    );
}

} // verus!
