//! The grammar of a request, as functions on byte strings.
//!
//! A request is a start line, header lines, an empty line and a body.  Every
//! line ends with CR LF.  The start line holds the method, the target and
//! the protocol version, separated by single spaces; the target is a path,
//! optionally followed by `?` and a query.

use crate::bytes::{index_of, is_number, number_value, split, trim};
use crate::fields::{lookup, Field};
use crate::method::Method;
use vstd::prelude::*;
use vstd::string::StringSliceAdditionalSpecFns;

verus! {

/// Line feed.
pub const LF: u8 = 10;

/// Carriage return.
pub const CR: u8 = 13;

/// Space.
pub const SP: u8 = 32;

/// `?`, which separates the path from the query.
pub const QUESTION: u8 = 63;

/// `&`, which separates the pairs of a query.
pub const AMPERSAND: u8 = 38;

/// `=`, which separates key and value of a query pair.
pub const EQUALS: u8 = 61;

/// `:`, which separates name and value of a header.
pub const COLON: u8 = 58;

/// `;`, which separates a media type from its parameters.
pub const SEMICOLON: u8 = 59;

/// Why a request could not be parsed.
#[derive(Clone, Copy, Debug, PartialEq, Eq, Structural)]
pub enum ParseError {
    /// The start line or a header line is not of the expected form.
    MalformedRequest,
    /// The method token is none of the known methods.
    UnknownMethod,
    /// The query holds more pairs than the request may keep.
    TooManyQueryParams,
    /// There are more headers than the request may keep.
    TooManyHeaders,
    /// The content type of the body is none of the known ones.
    InvalidContentType,
}

/// The media types that a request body may have.
#[derive(Clone, Copy, Debug, PartialEq, Eq, Structural)]
pub enum ContentType {
    /// `application/json`
    JSON,
    /// `application/x-www-form-urlencoded`
    URLEncoded,
    /// `text/plain`
    Text,
    /// `text/html`
    HTML,
}

impl ContentType {
    /// The media type, as it stands in a `Content-Type` header.
    pub open spec fn name(self) -> Seq<u8> {
        match self {
            ContentType::JSON => "application/json".spec_bytes(),
            ContentType::URLEncoded => "application/x-www-form-urlencoded".spec_bytes(),
            ContentType::Text => "text/plain".spec_bytes(),
            ContentType::HTML => "text/html".spec_bytes(),
        }
    }

    /// The part of a `Content-Type` value that names the media type: what
    /// stands before the first `;`, without surrounding blanks.
    pub open spec fn essence(value: Seq<u8>) -> Seq<u8> {
        let k = index_of(value, SEMICOLON);
        if 0 <= k < value.len() {
            trim(value.take(k))
        } else {
            trim(value)
        }
    }

    /// The media type that a `Content-Type` value names, up to ASCII case.
    pub open spec fn named(value: Seq<u8>) -> Option<ContentType> {
        let e = ContentType::essence(value);
        if crate::bytes::eq_ignore_case(e, ContentType::JSON.name()) {
            Some(ContentType::JSON)
        } else if crate::bytes::eq_ignore_case(e, ContentType::URLEncoded.name()) {
            Some(ContentType::URLEncoded)
        } else if crate::bytes::eq_ignore_case(e, ContentType::Text.name()) {
            Some(ContentType::Text)
        } else if crate::bytes::eq_ignore_case(e, ContentType::HTML.name()) {
            Some(ContentType::HTML)
        } else {
            None
        }
    }
}

/// `s` cut at the first `b`: what stands before it and what stands after
/// it, or `None` when `s` holds no `b`.
pub open spec fn split_once(s: Seq<u8>, b: u8) -> Option<(Seq<u8>, Seq<u8>)> {
    let k = index_of(s, b);
    if 0 <= k < s.len() {
        Some((s.take(k), s.skip(k + 1)))
    } else {
        None
    }
}

/// The first line of `s` and what follows it.  A line ends at the first
/// line feed, which must stand right after a carriage return; neither
/// belongs to the line.
pub open spec fn split_line(s: Seq<u8>) -> Option<(Seq<u8>, Seq<u8>)> {
    let l = index_of(s, LF);
    if 1 <= l < s.len() && s[l - 1] == CR {
        Some((s.take(l - 1), s.skip(l + 1)))
    } else {
        None
    }
}

/// What a start line says.
pub ghost struct StartLine {
    /// The method.
    pub method: Method,
    /// The path of the target, as it stands on the wire.
    pub path: Seq<u8>,
    /// The query of the target, when the target holds a `?`.
    pub query: Option<Seq<u8>>,
}

/// The protocol version that a start line must name.
pub open spec fn version() -> Seq<u8> {
    "HTTP/1.1".spec_bytes()
}

/// Reads a start line: `METHOD SP target SP HTTP/1.1`.
pub open spec fn start_line(line: Seq<u8>) -> Result<StartLine, ParseError> {
    match split_once(line, SP) {
        None => Err(ParseError::MalformedRequest),
        Some((token, after)) => if token.len() == 0 {
            Err(ParseError::MalformedRequest)
        } else {
            match Method::named(token) {
                None => Err(ParseError::UnknownMethod),
                Some(method) => match split_once(after, SP) {
                    None => Err(ParseError::MalformedRequest),
                    Some((target, rest)) => if target.len() == 0 || rest != version() {
                        Err(ParseError::MalformedRequest)
                    } else {
                        match split_once(target, QUESTION) {
                            None => Ok(StartLine { method, path: target, query: None }),
                            Some((path, query)) => Ok(
                                StartLine { method, path, query: Some(query) },
                            ),
                        }
                    },
                },
            }
        },
    }
}

/// The key and value of one piece of a query: cut at the first `=`; a piece
/// without `=` is a key with an empty value.
pub open spec fn query_pair(piece: Seq<u8>) -> Field {
    match split_once(piece, EQUALS) {
        Some((key, value)) => (key, value),
        None => (piece, Seq::empty()),
    }
}

/// The pairs of the pieces of a query.
pub open spec fn pairs(pieces: Seq<Seq<u8>>) -> Seq<Field> {
    pieces.map_values(|p: Seq<u8>| query_pair(p))
}

/// The pairs of a query: one per `&`-separated piece.  No query, or an
/// empty one, has no pairs.
pub open spec fn query_pairs(query: Option<Seq<u8>>) -> Seq<Field> {
    match query {
        Some(q) => if q.len() > 0 {
            pairs(split(q, AMPERSAND))
        } else {
            Seq::empty()
        },
        None => Seq::empty(),
    }
}

/// Reads header lines up to the empty line that ends them, keeping at most
/// `limit` headers.  Gives the headers and what follows the empty line.
///
/// A header line is cut at its first `:`; the value loses the blanks that
/// surround it.
pub open spec fn header_lines(s: Seq<u8>, limit: nat) -> Result<(Seq<Field>, Seq<u8>), ParseError>
    decreases s.len(),
{
    match split_line(s) {
        None => Err(ParseError::MalformedRequest),
        Some((line, rest)) => if line.len() == 0 {
            Ok((Seq::empty(), rest))
        } else {
            match split_once(line, COLON) {
                None => Err(ParseError::MalformedRequest),
                Some((name, value)) => if limit == 0 {
                    Err(ParseError::TooManyHeaders)
                } else if rest.len() < s.len() {
                    match header_lines(rest, (limit - 1) as nat) {
                        Err(e) => Err(e),
                        Ok((more, body)) => Ok((seq![(name, trim(value))] + more, body)),
                    }
                } else {
                    Err(ParseError::MalformedRequest)
                },
            }
        },
    }
}

/// The payload that headers and the bytes after them make.
///
/// There is a payload when both `Content-Type` and `Content-Length` are
/// given.  The type must be a known one; the length must be a number and no
/// more than the bytes at hand, and says how many of them are the body.
pub open spec fn payload_of(headers: Seq<Field>, rest: Seq<u8>) -> Result<
    Option<(ContentType, Seq<u8>)>,
    ParseError,
> {
    match lookup(headers, "Content-Type".spec_bytes()) {
        None => Ok(None),
        Some(kind) => match lookup(headers, "Content-Length".spec_bytes()) {
            None => Ok(None),
            Some(length) => match ContentType::named(kind) {
                None => Err(ParseError::InvalidContentType),
                Some(t) => if is_number(length) && number_value(length) <= rest.len() {
                    Ok(Some((t, rest.take(number_value(length) as int))))
                } else {
                    Err(ParseError::MalformedRequest)
                },
            },
        },
    }
}

/// A request, as a mathematical value.
pub ghost struct RequestView {
    /// The method.
    pub method: Method,
    /// The path, as it stands on the wire.
    pub path: Seq<u8>,
    /// The pairs of the query, in order.
    pub queries: Seq<Field>,
    /// The headers, in order.
    pub headers: Seq<Field>,
    /// The media type and the bytes of the body, if there is one.
    pub payload: Option<(ContentType, Seq<u8>)>,
}

/// Reads a request, keeping at most `queries` query pairs and `headers`
/// headers.
pub open spec fn parsed(s: Seq<u8>, queries: nat, headers: nat) -> Result<RequestView, ParseError> {
    match split_line(s) {
        None => Err(ParseError::MalformedRequest),
        Some((line, rest)) => match start_line(line) {
            Err(e) => Err(e),
            Ok(start) => if query_pairs(start.query).len() > queries {
                Err(ParseError::TooManyQueryParams)
            } else {
                match header_lines(rest, headers) {
                    Err(e) => Err(e),
                    Ok((fields, after)) => match payload_of(fields, after) {
                        Err(e) => Err(e),
                        Ok(payload) => Ok(
                            RequestView {
                                method: start.method,
                                path: start.path,
                                queries: query_pairs(start.query),
                                headers: fields,
                                payload,
                            },
                        ),
                    },
                }
            },
        },
    }
}


/// The headers that `header_lines` gives are no more than the limit.
pub proof fn lemma_header_lines_bounded(s: Seq<u8>, limit: nat)
    ensures
        header_lines(s, limit) is Ok ==> header_lines(s, limit)->Ok_0.0.len() <= limit,
    decreases s.len(),
{
    match split_line(s) {
        None => {},
        Some((line, rest)) => {
            if line.len() != 0 && split_once(line, COLON) is Some && limit != 0 && rest.len()
                < s.len() {
                lemma_header_lines_bounded(rest, (limit - 1) as nat);
            }
        },
    }
}

/// A request is never read with more query pairs or headers than it may
/// keep: where the input holds more, reading it fails.
pub proof fn lemma_parsed_within_capacity(s: Seq<u8>, queries: nat, headers: nat)
    ensures
        parsed(s, queries, headers) is Ok ==> parsed(s, queries, headers)->Ok_0.queries.len()
            <= queries && parsed(s, queries, headers)->Ok_0.headers.len() <= headers,
        split_line(s) is Some && start_line((split_line(s)->0).0) is Ok && query_pairs(
            start_line((split_line(s)->0).0)->Ok_0.query,
        ).len() > queries ==> parsed(s, queries, headers) == Err::<RequestView, ParseError>(
            ParseError::TooManyQueryParams,
        ),
{
    match split_line(s) {
        None => {},
        Some((line, rest)) => {
            lemma_header_lines_bounded(rest, headers);
        },
    }
}

} // verus!
