//! The request parser.

use crate::buffer::Buffer;
use crate::bytes::{
    bytes_eq, eq_ignore_ascii_case, find_byte, lemma_index_of, lemma_index_of_unique, parse_number,
    split, trim_range,
};
use crate::fields::{position, Field};
use crate::list::List;
use crate::method::Method;
use crate::request::grammar::{
    header_lines, pairs, parsed, payload_of, query_pair, query_pairs, split_line, split_once,
    start_line, ContentType, ParseError, AMPERSAND, COLON, CR, EQUALS, LF, QUESTION, SEMICOLON, SP,
};
use crate::request::{pairs_of, Request, HEADERS_LIMIT, QUERIES_LIMIT};
use crate::slice::Slice;
use vstd::prelude::*;

verus! {

/// The first `b` in `s[from..to]`.
pub fn find_in(s: &[u8], from: usize, to: usize, b: u8) -> (r: Option<usize>)
    requires
        from <= to <= s@.len(),
    ensures
        match split_once(s@.subrange(from as int, to as int), b) {
            Some((head, tail)) => {
                &&& r is Some
                &&& from <= r->0 < to
                &&& head == s@.subrange(from as int, r->0 as int)
                &&& tail == s@.subrange(r->0 + 1, to as int)
            },
            None => r is None,
        },
{
    let ghost t = s@.subrange(from as int, to as int);
    let mut i: usize = from;
    while i < to && s[i] != b
        invariant
            from <= i <= to <= s@.len(),
            forall|j: int| from <= j < i ==> s@[j] != b,
        decreases to - i,
    {
        i += 1;
    }
    proof {
        assert forall|j: int| 0 <= j < i - from implies t[j] != b by {
            assert(t[j] == s@[from + j]);
        }
        if i < to {
            assert(t[i - from] == s@[i as int]);
        }
        lemma_index_of_unique(t, b, i - from);
        assert(t.take(i - from) =~= s@.subrange(from as int, i as int));
        if i < to {
            assert(t.skip(i - from + 1) =~= s@.subrange(i + 1, to as int));
        }
    }
    if i < to {
        Some(i)
    } else {
        None
    }
}

/// The line that starts at `pos`: where its content ends and where the next
/// line starts.
pub fn read_line(s: &[u8], pos: usize) -> (r: Option<(usize, usize)>)
    requires
        pos <= s@.len(),
    ensures
        match split_line(s@.skip(pos as int)) {
            Some((line, rest)) => {
                &&& r is Some
                &&& pos <= (r->0).0 < (r->0).1 <= s@.len()
                &&& line == s@.subrange(pos as int, (r->0).0 as int)
                &&& rest == s@.skip((r->0).1 as int)
            },
            None => r is None,
        },
{
    let ghost t = s@.skip(pos as int);
    let l: usize = find_byte(s, pos, LF);
    proof {
        lemma_index_of(t, LF);
        if l > pos {
            assert(t[l - pos - 1] == s@[l - 1]);
        }
    }
    if l < s.len() && l > pos && s[l - 1] == CR {
        proof {
            assert(t.take(l - pos - 1) =~= s@.subrange(pos as int, l - 1));
            assert(t.skip(l - pos + 1) =~= s@.skip(l + 1));
        }
        Some((l - 1, l + 1))
    } else {
        None
    }
}

impl ContentType {
    /// Reads the media type that a `Content-Type` value names.
    pub fn from_bytes(value: &[u8]) -> (r: Option<ContentType>)
        ensures
            r == ContentType::named(value@),
    {
        assert(value@.subrange(0, value@.len() as int) =~= value@);
        let end: usize = match find_in(value, 0, value.len(), SEMICOLON) {
            Some(k) => k,
            None => value.len(),
        };
        assert(value@.take(end as int) =~= value@.subrange(0, end as int));
        let (a, b) = trim_range(value, 0, end);
        let essence = vstd::slice::slice_subrange(value, a, b);
        assert(essence@ == ContentType::essence(value@));
        if eq_ignore_ascii_case(essence, "application/json".as_bytes()) {
            Some(ContentType::JSON)
        } else if eq_ignore_ascii_case(essence, "application/x-www-form-urlencoded".as_bytes()) {
            Some(ContentType::URLEncoded)
        } else if eq_ignore_ascii_case(essence, "text/plain".as_bytes()) {
            Some(ContentType::Text)
        } else if eq_ignore_ascii_case(essence, "text/html".as_bytes()) {
            Some(ContentType::HTML)
        } else {
            None
        }
    }
}

/// Every view of `items` lies inside a buffer of `n` bytes.
pub open spec fn all_fit(items: Seq<(Slice, Slice)>, n: nat) -> bool {
    forall|i: int| 0 <= i < items.len() ==> (#[trigger] items[i]).0.fits(n) && items[i].1.fits(n)
}

/// The index of the first pair of `items` whose name is `name`, up to ASCII case.
pub fn field_position(buf: &[u8], items: &List<(Slice, Slice)>, name: &[u8]) -> (r: Option<usize>)
    requires
        all_fit(items@, buf@.len()),
    ensures
        match position(pairs_of(items@, buf@), name@, 0) {
            Some(i) => r is Some && r->0 as int == i && i < items@.len(),
            None => r is None,
        },
{
    let ghost fields = pairs_of(items@, buf@);
    let mut i: usize = 0;
    while i < items.len()
        invariant
            i <= items@.len(),
            all_fit(items@, buf@.len()),
            fields == pairs_of(items@, buf@),
            position(fields, name@, 0) == position(fields, name@, i as int),
        decreases items@.len() - i,
    {
        let pair = items.get(i);
        assert(fields[i as int].0 == items@[i as int].0.of(buf@));
        if eq_ignore_ascii_case(pair.0.into_bytes(buf), name) {
            return Some(i);
        }
        i += 1;
    }
    None
}

/// Reads the query `s[from..to]` into at most `limit` pairs; `None` when it
/// holds more.
pub fn parse_query(s: &[u8], from: usize, to: usize, limit: usize) -> (r: Option<
    List<(Slice, Slice)>,
>)
    requires
        from <= to <= s@.len(),
    ensures
        ({
            let all = query_pairs(Some(s@.subrange(from as int, to as int)));
            match r {
                Some(list) => {
                    &&& list.wf()
                    &&& list.capacity == limit
                    &&& all_fit(list@, s@.len())
                    &&& pairs_of(list@, s@) == all
                },
                None => all.len() > limit,
            }
        }),
{
    let ghost q = s@.subrange(from as int, to as int);
    let ghost all = query_pairs(Some(q));
    let mut list: List<(Slice, Slice)> = List::new(limit);
    if from == to {
        assert(pairs_of(list@, s@) =~= all);
        return Some(list);
    }
    let mut pos: usize = from;
    let mut more: bool = true;
    proof {
        assert(pairs_of(list@, s@) + pairs(split(q, AMPERSAND)) =~= all);
    }
    while more
        invariant
            from <= pos <= to <= s@.len(),
            list.wf(),
            list.capacity == limit,
            all_fit(list@, s@.len()),
            all == query_pairs(Some(s@.subrange(from as int, to as int))),
            more ==> all == pairs_of(list@, s@) + pairs(
                split(s@.subrange(pos as int, to as int), AMPERSAND),
            ),
            !more ==> all == pairs_of(list@, s@),
            !more ==> pos == to,
        decreases to - pos + if more { 1int } else { 0int },
    {
        let ghost rest = s@.subrange(pos as int, to as int);
        let ghost done = pairs_of(list@, s@);
        if list.is_full() {
            proof {
                crate::bytes::lemma_split_pieces(rest, AMPERSAND);
                assert(pairs(split(rest, AMPERSAND)).len() >= 1);
                assert(done.len() == limit);
                assert(all.len() == done.len() + pairs(split(rest, AMPERSAND)).len());
                assert(all.len() > limit);
            }
            return None;
        }
        let amp = find_in(s, pos, to, AMPERSAND);
        let end: usize = match amp {
            Some(a) => a,
            None => to,
        };
        let ghost piece = s@.subrange(pos as int, end as int);
        proof {
            if amp is None {
                assert(piece =~= rest);
            }
        }
        let item = match find_in(s, pos, end, EQUALS) {
            Some(e) => (Slice::new(pos, e), Slice::new(e + 1, end)),
            None => (Slice::new(pos, end), Slice::new(end, end)),
        };
        proof {
            assert(item.1.of(s@) =~= query_pair(piece).1);
            assert((item.0.of(s@), item.1.of(s@)) == query_pair(piece));
        }
        list.append(item);
        proof {
            assert(pairs_of(list@, s@) =~= done.push(query_pair(piece)));
        }
        match amp {
            Some(a) => {
                proof {
                    let tail = s@.subrange(a + 1, to as int);
                    assert(split(rest, AMPERSAND) == seq![piece] + split(tail, AMPERSAND));
                    assert(pairs(seq![piece] + split(tail, AMPERSAND)) =~= seq![query_pair(piece)]
                        + pairs(split(tail, AMPERSAND)));
                    assert(all =~= pairs_of(list@, s@) + pairs(split(tail, AMPERSAND)));
                }
                pos = a + 1;
            },
            None => {
                proof {
                    assert(split(rest, AMPERSAND) == seq![piece]);
                    assert(pairs(seq![piece]) =~= seq![query_pair(piece)]);
                    assert(all =~= pairs_of(list@, s@));
                }
                pos = to;
                more = false;
            },
        }
    }
    Some(list)
}

/// Reads the header lines that start at `pos`, up to the empty line that
/// ends them, into at most `limit` headers.  Gives the headers and the
/// position after the empty line.
pub fn parse_headers(s: &[u8], pos: usize, limit: usize) -> (r: Result<
    (List<(Slice, Slice)>, usize),
    ParseError,
>)
    requires
        pos <= s@.len(),
    ensures
        match header_lines(s@.skip(pos as int), limit as nat) {
            Ok((fields, rest)) => {
                &&& r is Ok
                &&& r->Ok_0.0.wf()
                &&& r->Ok_0.0.capacity == limit
                &&& all_fit(r->Ok_0.0@, s@.len())
                &&& pairs_of(r->Ok_0.0@, s@) == fields
                &&& r->Ok_0.1 <= s@.len()
                &&& rest == s@.skip(r->Ok_0.1 as int)
            },
            Err(e) => r == Err::<(List<(Slice, Slice)>, usize), ParseError>(e),
        },
{
    let ghost goal = header_lines(s@.skip(pos as int), limit as nat);
    let mut list: List<(Slice, Slice)> = List::new(limit);
    let mut at: usize = pos;
    proof {
        match goal {
            Ok((fields, rest)) => {
                assert(pairs_of(list@, s@) + fields =~= fields);
            },
            Err(e) => {},
        }
    }
    loop
        invariant
            pos <= at <= s@.len(),
            list.wf(),
            list.capacity == limit,
            all_fit(list@, s@.len()),
            goal == header_lines(s@.skip(pos as int), limit as nat),
            match header_lines(s@.skip(at as int), (limit - list@.len()) as nat) {
                Ok((more, rest)) => goal == Ok::<(Seq<Field>, Seq<u8>), ParseError>(
                    (pairs_of(list@, s@) + more, rest),
                ),
                Err(e) => goal == Err::<(Seq<Field>, Seq<u8>), ParseError>(e),
            },
        decreases s@.len() - at,
    {
        let ghost done = pairs_of(list@, s@);
        match read_line(s, at) {
            None => {
                return Err(ParseError::MalformedRequest);
            },
            Some((end, next)) => {
                if end == at {
                    proof {
                        assert(s@.subrange(at as int, end as int).len() == 0);
                        assert(done + Seq::<Field>::empty() =~= done);
                    }
                    return Ok((list, next));
                }
                match find_in(s, at, end, COLON) {
                    None => {
                        return Err(ParseError::MalformedRequest);
                    },
                    Some(c) => {
                        if list.is_full() {
                            return Err(ParseError::TooManyHeaders);
                        }
                        let (a, b) = trim_range(s, c + 1, end);
                        let item = (Slice::new(at, c), Slice::new(a, b));
                        let ghost field = (item.0.of(s@), item.1.of(s@));
                        list.append(item);
                        proof {
                            assert(pairs_of(list@, s@) =~= done.push(field));
                            assert(s@.skip(next as int).len() < s@.skip(at as int).len());
                            match header_lines(s@.skip(next as int), (limit - list@.len()) as nat) {
                                Ok((more, rest)) => {
                                    assert(done + (seq![field] + more) =~= pairs_of(list@, s@)
                                        + more);
                                },
                                Err(e) => {},
                            }
                        }
                        at = next;
                    },
                }
            },
        }
    }
}

/// Reads the payload that the headers announce in the bytes that start at
/// `body`.
pub fn parse_payload(s: &[u8], headers: &List<(Slice, Slice)>, body: usize) -> (r: Result<
    Option<(ContentType, Slice)>,
    ParseError,
>)
    requires
        body <= s@.len(),
        all_fit(headers@, s@.len()),
    ensures
        match payload_of(pairs_of(headers@, s@), s@.skip(body as int)) {
            Ok(Some((t, bytes))) => r is Ok && r->Ok_0 is Some && (r->Ok_0->0).0 == t
                && (r->Ok_0->0).1.fits(s@.len()) && (r->Ok_0->0).1.of(s@) == bytes,
            Ok(None) => r is Ok && r->Ok_0 is None,
            Err(e) => r == Err::<Option<(ContentType, Slice)>, ParseError>(e),
        },
{
    let ghost fields = pairs_of(headers@, s@);
    let total: usize = s.len();
    let kind = match field_position(s, headers, "Content-Type".as_bytes()) {
        None => {
            return Ok(None);
        },
        Some(i) => {
            assert(headers@[i as int].1.fits(s@.len()));
            assert(fields[i as int].1 == headers@[i as int].1.of(s@));
            headers.get(i).1
        },
    };
    let length = match field_position(s, headers, "Content-Length".as_bytes()) {
        None => {
            return Ok(None);
        },
        Some(i) => {
            assert(headers@[i as int].1.fits(s@.len()));
            assert(fields[i as int].1 == headers@[i as int].1.of(s@));
            headers.get(i).1
        },
    };
    let t = match ContentType::from_bytes(kind.into_bytes(s)) {
        None => {
            return Err(ParseError::InvalidContentType);
        },
        Some(t) => t,
    };
    match parse_number(s, length.offset, length.offset + length.len) {
        None => Err(ParseError::MalformedRequest),
        Some(n) => {
            if n > s.len() - body {
                Err(ParseError::MalformedRequest)
            } else {
                let view = Slice::new(body, body + n);
                assert(view.of(s@) =~= s@.skip(body as int).take(n as int));
                Ok(Some((t, view)))
            }
        },
    }
}

/// What the start line `s[..end]` says: the method, the view of the path
/// and, when the target holds a `?`, the bounds of the query.
pub fn parse_start_line(s: &[u8], end: usize) -> (r: Result<
    (Method, Slice, Option<(usize, usize)>),
    ParseError,
>)
    requires
        end <= s@.len(),
    ensures
        match start_line(s@.subrange(0, end as int)) {
            Ok(start) => {
                &&& r is Ok
                &&& r->Ok_0.0 == start.method
                &&& r->Ok_0.1.fits(s@.len())
                &&& r->Ok_0.1.of(s@) == start.path
                &&& match r->Ok_0.2 {
                    Some(bounds) => bounds.0 <= bounds.1 <= s@.len() && start.query == Some(
                        s@.subrange(bounds.0 as int, bounds.1 as int),
                    ),
                    None => start.query is None,
                }
            },
            Err(e) => r == Err::<(Method, Slice, Option<(usize, usize)>), ParseError>(e),
        },
{
    let sp1: usize = match find_in(s, 0, end, SP) {
        None => {
            return Err(ParseError::MalformedRequest);
        },
        Some(k) => k,
    };
    if sp1 == 0 {
        return Err(ParseError::MalformedRequest);
    }
    let method = match Method::from_bytes(vstd::slice::slice_subrange(s, 0, sp1)) {
        None => {
            return Err(ParseError::UnknownMethod);
        },
        Some(m) => m,
    };
    let sp2: usize = match find_in(s, sp1 + 1, end, SP) {
        None => {
            return Err(ParseError::MalformedRequest);
        },
        Some(k) => k,
    };
    if sp2 == sp1 + 1 {
        return Err(ParseError::MalformedRequest);
    }
    if !bytes_eq(vstd::slice::slice_subrange(s, sp2 + 1, end), "HTTP/1.1".as_bytes()) {
        return Err(ParseError::MalformedRequest);
    }
    match find_in(s, sp1 + 1, sp2, QUESTION) {
        Some(k) => Ok((method, Slice::new(sp1 + 1, k), Some((k + 1, sp2)))),
        None => Ok((method, Slice::new(sp1 + 1, sp2), None)),
    }
}

/// Parses a request, keeping at most `queries` query pairs and `headers`
/// headers.
///
/// The result is the request that the grammar reads in the bytes of the
/// buffer, or the error that the grammar gives for them.
pub fn parse_with(buffer: Buffer, queries: usize, headers: usize) -> (r: Result<Request, ParseError>)
    ensures
        match parsed(buffer@, queries as nat, headers as nat) {
            Ok(v) => r is Ok && r->Ok_0.wf() && r->Ok_0@ == v && r->Ok_0.buffer@ == buffer@
                && r->Ok_0.queries.capacity == queries && r->Ok_0.headers.capacity == headers,
            Err(e) => r == Err::<Request, ParseError>(e),
        },
{
    let s = buffer.as_slice();
    proof {
        assert(s@.skip(0) =~= s@);
    }
    let (line_end, next) = match read_line(s, 0) {
        None => {
            return Err(ParseError::MalformedRequest);
        },
        Some(bounds) => bounds,
    };
    let (method, path, query) = match parse_start_line(s, line_end) {
        Err(e) => {
            return Err(e);
        },
        Ok(start) => start,
    };
    let query_list = match query {
        Some((from, to)) => parse_query(s, from, to, queries),
        None => {
            let list: List<(Slice, Slice)> = List::new(queries);
            assert(pairs_of(list@, s@) =~= query_pairs(None));
            Some(list)
        },
    };
    let query_list = match query_list {
        None => {
            return Err(ParseError::TooManyQueryParams);
        },
        Some(list) => list,
    };
    let (header_list, body) = match parse_headers(s, next, headers) {
        Err(e) => {
            return Err(e);
        },
        Ok(found) => found,
    };
    let payload = match parse_payload(s, &header_list, body) {
        Err(e) => {
            return Err(e);
        },
        Ok(p) => p,
    };
    let request = Request { buffer, method, path, queries: query_list, headers: header_list, payload };
    Ok(request)
}

/// Parses a request with the default capacities: 4 query pairs and 32
/// headers.
pub fn parse(buffer: Buffer) -> (r: Result<Request, ParseError>)
    ensures
        match parsed(buffer@, QUERIES_LIMIT as nat, HEADERS_LIMIT as nat) {
            Ok(v) => r is Ok && r->Ok_0.wf() && r->Ok_0@ == v && r->Ok_0.buffer@ == buffer@
                && r->Ok_0.queries.capacity == QUERIES_LIMIT && r->Ok_0.headers.capacity
                == HEADERS_LIMIT,
            Err(e) => r == Err::<Request, ParseError>(e),
        },
{
    parse_with(buffer, QUERIES_LIMIT, HEADERS_LIMIT)
}

} // verus!
