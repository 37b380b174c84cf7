//! The wire form of a request, and the proof that parsing reads it back.

use crate::bytes::{
    is_blank, lemma_index_of_concat, lemma_index_of_unique, lemma_split_join, lemma_split_single,
    split, trim, trim_start,
};
use crate::fields::Field;
use crate::method::{lemma_method_round_trip, Method};
use crate::request::grammar::{
    header_lines, pairs, parsed, payload_of, query_pair, query_pairs, split_line, split_once,
    start_line, version, ParseError, RequestView, AMPERSAND, COLON, CR, EQUALS, LF, QUESTION, SP,
};
use crate::response::headers::{crlf, header_block, header_line, separator};
use vstd::prelude::*;
use vstd::string::StringSliceAdditionalSpecFns;

verus! {

/// One pair of a query as it stands in a target: key, `=`, value.
pub open spec fn query_piece(pair: Field) -> Seq<u8> {
    pair.0 + seq![EQUALS] + pair.1
}

/// The pairs of a query as they stand in a target, joined by `&`.
pub open spec fn query_string(queries: Seq<Field>) -> Seq<u8>
    decreases queries.len(),
{
    if queries.len() == 0 {
        Seq::empty()
    } else if queries.len() == 1 {
        query_piece(queries[0])
    } else {
        query_piece(queries[0]) + seq![AMPERSAND] + query_string(queries.skip(1))
    }
}

/// The target of a request: the path, then `?` and the query if there are
/// query pairs.
pub open spec fn target(path: Seq<u8>, queries: Seq<Field>) -> Seq<u8> {
    if queries.len() == 0 {
        path
    } else {
        path + seq![QUESTION] + query_string(queries)
    }
}

/// The start line of a request.
pub open spec fn request_line(method: Method, path: Seq<u8>, queries: Seq<Field>) -> Seq<u8> {
    method.name() + seq![SP] + target(path, queries) + seq![SP] + version()
}

/// The header lines of `fields`, one after the other, read from the first
/// line on.
pub open spec fn header_text(fields: Seq<Field>) -> Seq<u8>
    decreases fields.len(),
{
    if fields.len() == 0 {
        Seq::empty()
    } else {
        header_line(fields[0]) + header_text(fields.skip(1))
    }
}

/// The block of a header list is its first line followed by the block of
/// the rest.
pub proof fn lemma_header_block_is_text(fields: Seq<Field>)
    ensures
        header_block(fields) == header_text(fields),
    decreases fields.len(),
{
    if fields.len() > 0 {
        let init = fields.drop_last();
        lemma_header_block_is_text(init);
        lemma_header_text_push(init, fields.last());
        assert(init.push(fields.last()) =~= fields);
    }
}

/// A header added at the end adds its line at the end.
pub proof fn lemma_header_text_push(fields: Seq<Field>, last: Field)
    ensures
        header_text(fields.push(last)) == header_text(fields) + header_line(last),
    decreases fields.len(),
{
    let all = fields.push(last);
    if fields.len() == 0 {
        assert(all.skip(1) =~= Seq::<Field>::empty());
        assert(header_text(all.skip(1)) =~= Seq::<u8>::empty());
        assert(all[0] == last);
        assert(header_text(all) =~= header_line(last));
        assert(header_text(fields) + header_line(last) =~= header_line(last));
    } else {
        lemma_header_text_push(fields.skip(1), last);
        assert(all.skip(1) =~= fields.skip(1).push(last));
        assert(all[0] == fields[0]);
        assert(header_text(all) =~= header_text(fields) + header_line(last));
    }
}

/// The wire form of a request with the given parts, followed by `rest`.
pub open spec fn wire_request(
    method: Method,
    path: Seq<u8>,
    queries: Seq<Field>,
    headers: Seq<Field>,
    rest: Seq<u8>,
) -> Seq<u8> {
    request_line(method, path, queries) + crlf() + header_block(headers) + crlf() + rest
}

/// Whether a path can stand in a start line: it is not empty and holds no
/// space, `?` or line feed.
pub open spec fn path_ok(path: Seq<u8>) -> bool {
    path.len() > 0 && !path.contains(SP) && !path.contains(QUESTION) && !path.contains(LF)
}

/// Whether a query pair can stand in a target: the key holds no `=`, and
/// neither key nor value holds `&`, a space or a line feed.
pub open spec fn query_ok(pair: Field) -> bool {
    &&& !pair.0.contains(EQUALS)
    &&& !pair.0.contains(AMPERSAND) && !pair.0.contains(SP) && !pair.0.contains(LF)
    &&& !pair.1.contains(AMPERSAND) && !pair.1.contains(SP) && !pair.1.contains(LF)
}

/// Whether a header can stand in a header line: the name holds no `:` or
/// line feed, the value holds no line feed and neither starts nor ends with
/// a blank.
pub open spec fn header_ok(field: Field) -> bool {
    &&& !field.0.contains(COLON) && !field.0.contains(LF)
    &&& !field.1.contains(LF)
    &&& field.1.len() > 0 ==> !is_blank(field.1[0]) && !is_blank(field.1.last())
}

/// Whether the parts of a request can be written and read back.
pub open spec fn writable(path: Seq<u8>, queries: Seq<Field>, headers: Seq<Field>) -> bool {
    &&& path_ok(path)
    &&& forall|i: int| 0 <= i < queries.len() ==> query_ok(#[trigger] queries[i])
    &&& forall|i: int| 0 <= i < headers.len() ==> header_ok(#[trigger] headers[i])
}

/// A byte that neither of two strings holds is not in their concatenation.
pub proof fn lemma_concat_free(a: Seq<u8>, b: Seq<u8>, x: u8)
    requires
        !a.contains(x),
        !b.contains(x),
    ensures
        !(a + b).contains(x),
{
    if (a + b).contains(x) {
        let i = choose|i: int| 0 <= i < (a + b).len() && (a + b)[i] == x;
        if i < a.len() {
            assert(a[i] == x);
        } else {
            assert(b[i - a.len()] == x);
        }
    }
}

/// A string of one byte holds no other byte.
pub proof fn lemma_single_free(b: u8, x: u8)
    requires
        b != x,
    ensures
        !seq![b].contains(x),
{
}

/// A line followed by CR LF is read as that line: `split_line` gives the
/// line and what follows the line end.
pub proof fn lemma_split_line(line: Seq<u8>, tail: Seq<u8>)
    requires
        !line.contains(LF),
    ensures
        split_line(line + crlf() + tail) == Some((line, tail)),
{
    let s = line + crlf() + tail;
    let n = line.len() as int;
    assert forall|j: int| 0 <= j < n + 1 implies s[j] != LF by {
        if j < n {
            assert(s[j] == line[j]);
            assert(line.contains(line[j]));
        }
    }
    assert(s[n + 1] == LF);
    assert(s[n] == CR);
    lemma_index_of_unique(s, LF, n + 1);
    assert(s.take(n) =~= line);
    assert(s.skip(n + 2) =~= tail);
}

/// Cutting `head + [b] + tail` at the first `b` gives `head` and `tail`,
/// where `head` holds no `b`.
pub proof fn lemma_split_once(head: Seq<u8>, b: u8, tail: Seq<u8>)
    requires
        !head.contains(b),
    ensures
        split_once(head + seq![b] + tail, b) == Some((head, tail)),
{
    lemma_index_of_concat(head, b, tail);
}

/// The bytes of the protocol version.
pub proof fn lemma_version()
    ensures
        version() == seq![72u8, 84u8, 84u8, 80u8, 47u8, 49u8, 46u8, 49u8],
        !version().contains(LF),
{
    broadcast use vstd::string::is_ascii_spec_bytes;

    reveal_strlit("HTTP/1.1");
    assert("HTTP/1.1".is_ascii());
    assert(version() =~= seq![72u8, 84u8, 84u8, 80u8, 47u8, 49u8, 46u8, 49u8]);
}

/// A query pair that is written as a piece is read back from the piece,
/// and the piece holds no `&`, space or line feed.
pub proof fn lemma_query_piece(pair: Field)
    requires
        query_ok(pair),
    ensures
        query_pair(query_piece(pair)) == pair,
        !query_piece(pair).contains(AMPERSAND),
        !query_piece(pair).contains(SP),
        !query_piece(pair).contains(LF),
{
    lemma_split_once(pair.0, EQUALS, pair.1);
    lemma_single_free(EQUALS, AMPERSAND);
    lemma_single_free(EQUALS, SP);
    lemma_single_free(EQUALS, LF);
    lemma_concat_free(pair.0, seq![EQUALS], AMPERSAND);
    lemma_concat_free(pair.0 + seq![EQUALS], pair.1, AMPERSAND);
    lemma_concat_free(pair.0, seq![EQUALS], SP);
    lemma_concat_free(pair.0 + seq![EQUALS], pair.1, SP);
    lemma_concat_free(pair.0, seq![EQUALS], LF);
    lemma_concat_free(pair.0 + seq![EQUALS], pair.1, LF);
}

/// The pairs that are written as a query string are read back from it, and
/// the string holds no space or line feed.
pub proof fn lemma_query_string(queries: Seq<Field>)
    requires
        queries.len() > 0,
        forall|i: int| 0 <= i < queries.len() ==> query_ok(#[trigger] queries[i]),
    ensures
        query_string(queries).len() > 0,
        pairs(split(query_string(queries), AMPERSAND)) == queries,
        !query_string(queries).contains(SP),
        !query_string(queries).contains(LF),
    decreases queries.len(),
{
    let piece = query_piece(queries[0]);
    lemma_query_piece(queries[0]);
    assert(piece.len() > 0) by {
        assert(piece[queries[0].0.len() as int] == EQUALS);
    }
    if queries.len() == 1 {
        lemma_split_single(piece, AMPERSAND);
        assert(pairs(seq![piece]) =~= queries);
    } else {
        let more = queries.skip(1);
        assert forall|i: int| 0 <= i < more.len() implies query_ok(#[trigger] more[i]) by {
            assert(more[i] == queries[i + 1]);
        }
        lemma_query_string(more);
        let tail = query_string(more);
        lemma_split_join(piece, AMPERSAND, tail);
        assert(pairs(seq![piece] + split(tail, AMPERSAND)) =~= seq![queries[0]] + pairs(
            split(tail, AMPERSAND),
        ));
        assert(seq![queries[0]] + more =~= queries);
        lemma_single_free(AMPERSAND, SP);
        lemma_single_free(AMPERSAND, LF);
        lemma_concat_free(piece, seq![AMPERSAND], SP);
        lemma_concat_free(piece + seq![AMPERSAND], tail, SP);
        lemma_concat_free(piece, seq![AMPERSAND], LF);
        lemma_concat_free(piece + seq![AMPERSAND], tail, LF);
    }
}

/// The start line that is written for a method, a path and query pairs is
/// read back as these, and holds no line feed.
pub proof fn lemma_request_line(method: Method, path: Seq<u8>, queries: Seq<Field>)
    requires
        path_ok(path),
        forall|i: int| 0 <= i < queries.len() ==> query_ok(#[trigger] queries[i]),
    ensures
        start_line(request_line(method, path, queries)) is Ok,
        start_line(request_line(method, path, queries))->Ok_0.method == method,
        start_line(request_line(method, path, queries))->Ok_0.path == path,
        query_pairs(start_line(request_line(method, path, queries))->Ok_0.query) == queries,
        !request_line(method, path, queries).contains(LF),
{
    let name = method.name();
    let t = target(path, queries);
    let line = request_line(method, path, queries);
    lemma_method_round_trip(method);
    lemma_version();
    assert(!name.contains(SP) && !name.contains(LF)) by {
        if name.contains(SP) {
            let i = choose|i: int| 0 <= i < name.len() && name[i] == SP;
            assert(65 <= name[i]);
        }
        if name.contains(LF) {
            let i = choose|i: int| 0 <= i < name.len() && name[i] == LF;
            assert(65 <= name[i]);
        }
    }
    // the target
    if queries.len() == 0 {
        lemma_index_of_concat(path, QUESTION, Seq::empty());
        crate::bytes::lemma_index_of_absent(path, QUESTION);
        assert(split_once(t, QUESTION) is None);
    } else {
        lemma_query_string(queries);
        lemma_split_once(path, QUESTION, query_string(queries));
        lemma_single_free(QUESTION, SP);
        lemma_single_free(QUESTION, LF);
        lemma_concat_free(path, seq![QUESTION], SP);
        lemma_concat_free(path + seq![QUESTION], query_string(queries), SP);
        lemma_concat_free(path, seq![QUESTION], LF);
        lemma_concat_free(path + seq![QUESTION], query_string(queries), LF);
    }
    assert(t.len() > 0);
    assert(!t.contains(SP) && !t.contains(LF));
    // the line
    let after = t + seq![SP] + version();
    assert(line =~= name + seq![SP] + after);
    lemma_split_once(name, SP, after);
    lemma_split_once(t, SP, version());
    lemma_single_free(SP, LF);
    lemma_concat_free(name, seq![SP], LF);
    lemma_concat_free(name + seq![SP], t, LF);
    lemma_concat_free(name + seq![SP] + t, seq![SP], LF);
    lemma_concat_free(name + seq![SP] + t + seq![SP], version(), LF);
}

/// A header value that is written after `: ` is read back by trimming.
pub proof fn lemma_trim_value(value: Seq<u8>)
    requires
        value.len() > 0 ==> !is_blank(value[0]) && !is_blank(value.last()),
    ensures
        trim(seq![32u8] + value) == value,
{
    let s = seq![32u8] + value;
    assert(s.skip(1) =~= value);
    assert(trim_start(s) == trim_start(value));
}

/// The header lines that are written for `headers`, followed by the empty
/// line and `rest`, are read back as `headers` and `rest`.
pub proof fn lemma_header_text(headers: Seq<Field>, rest: Seq<u8>, limit: nat)
    requires
        headers.len() <= limit,
        forall|i: int| 0 <= i < headers.len() ==> header_ok(#[trigger] headers[i]),
    ensures
        header_lines(header_text(headers) + crlf() + rest, limit) == Ok::<
            (Seq<Field>, Seq<u8>),
            ParseError,
        >((headers, rest)),
    decreases headers.len(),
{
    let s = header_text(headers) + crlf() + rest;
    if headers.len() == 0 {
        assert(s =~= Seq::<u8>::empty() + crlf() + rest);
        lemma_split_line(Seq::empty(), rest);
        assert(headers =~= Seq::<Field>::empty());
    } else {
        let f = headers[0];
        let more = headers.skip(1);
        let line = f.0 + separator() + f.1;
        let tail = header_text(more) + crlf() + rest;
        assert(header_ok(f));
        assert(s =~= line + crlf() + tail);
        lemma_single_free(58u8, LF);
        lemma_single_free(32u8, LF);
        lemma_concat_free(seq![58u8], seq![32u8], LF);
        assert(seq![58u8] + seq![32u8] =~= separator());
        lemma_concat_free(f.0, separator(), LF);
        lemma_concat_free(f.0 + separator(), f.1, LF);
        lemma_split_line(line, tail);
        assert(line =~= f.0 + seq![COLON] + (seq![32u8] + f.1));
        lemma_split_once(f.0, COLON, seq![32u8] + f.1);
        lemma_trim_value(f.1);
        assert(line.len() > 0) by {
            assert(line[f.0.len() as int] == COLON);
        }
        assert forall|i: int| 0 <= i < more.len() implies header_ok(#[trigger] more[i]) by {
            assert(more[i] == headers[i + 1]);
        }
        lemma_header_text(more, rest, (limit - 1) as nat);
        assert(tail.len() < s.len());
        assert(seq![f] + more =~= headers);
    }
}

/// Parsing reads back what was written: the wire form of a method, a path,
/// query pairs and headers that can be written, within the capacities,
/// parses to a request with exactly these parts, and with the payload that
/// the headers announce in what follows them.
pub proof fn lemma_parse_reads_back(
    method: Method,
    path: Seq<u8>,
    queries: Seq<Field>,
    headers: Seq<Field>,
    rest: Seq<u8>,
    query_limit: nat,
    header_limit: nat,
)
    requires
        writable(path, queries, headers),
        queries.len() <= query_limit,
        headers.len() <= header_limit,
        payload_of(headers, rest) is Ok,
    ensures
        parsed(wire_request(method, path, queries, headers, rest), query_limit, header_limit)
            == Ok::<RequestView, ParseError>(
            RequestView { method, path, queries, headers, payload: payload_of(headers, rest)->Ok_0 },
        ),
{
    let line = request_line(method, path, queries);
    let tail = header_text(headers) + crlf() + rest;
    let s = wire_request(method, path, queries, headers, rest);
    lemma_header_block_is_text(headers);
    lemma_request_line(method, path, queries);
    assert(s =~= line + crlf() + tail);
    lemma_split_line(line, tail);
    lemma_header_text(headers, rest, header_limit);
}


/// A request that is written with more query pairs than may be kept is
/// refused when it is read: the pairs are neither cut short nor read past
/// the capacity.
pub proof fn lemma_overfull_query_is_refused(
    method: Method,
    path: Seq<u8>,
    queries: Seq<Field>,
    headers: Seq<Field>,
    rest: Seq<u8>,
    query_limit: nat,
    header_limit: nat,
)
    requires
        path_ok(path),
        forall|i: int| 0 <= i < queries.len() ==> query_ok(#[trigger] queries[i]),
        queries.len() > query_limit,
    ensures
        parsed(wire_request(method, path, queries, headers, rest), query_limit, header_limit)
            == Err::<RequestView, ParseError>(ParseError::TooManyQueryParams),
{
    let line = request_line(method, path, queries);
    let tail = header_block(headers) + crlf() + rest;
    let s = wire_request(method, path, queries, headers, rest);
    lemma_request_line(method, path, queries);
    assert(s =~= line + crlf() + tail);
    lemma_split_line(line, tail);
}

} // verus!
