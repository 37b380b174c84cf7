//! The response: status, headers and content, and its wire form.

pub mod body;
pub mod content;
pub mod headers;
pub mod status;
pub mod typed;

use crate::bytes::{append, decimal, to_decimal};
use crate::fields::{
    lemma_position, lemma_with_field, lemma_without_field, lemma_without_field_other, lookup,
    position, with_field, without_field, Field,
};
use crate::response::content::Content;
use crate::response::headers::{
    crlf, header_block, header_line, lemma_block_holds_line, lemma_occurs_in_part, occurs, Headers,
};
use crate::response::status::Status;
use vstd::prelude::*;
use vstd::string::StringSliceAdditionalSpecFns;

verus! {

/// The name of the header that tells the media type of the content.
pub open spec fn content_type_name() -> Seq<u8> {
    "Content-Type".spec_bytes()
}

/// The name of the header that tells the length of the content.
pub open spec fn content_length_name() -> Seq<u8> {
    "Content-Length".spec_bytes()
}

/// The name of the header that tells when the response was written.
pub open spec fn date_name() -> Seq<u8> {
    "Date".spec_bytes()
}

/// The headers of a response that carries `body` as `media_type`.
pub open spec fn with_body_headers(fields: Seq<Field>, media_type: Seq<u8>, body: Seq<u8>) -> Seq<Field> {
    with_field(
        with_field(fields, content_type_name(), media_type),
        content_length_name(),
        decimal(body.len()),
    )
}

/// The headers as they are written: `Date` is set to `date`, and a response
/// that has no content, but whose status does not say so, gets
/// `Content-Length: 0`.
pub open spec fn stamped(status: Status, fields: Seq<Field>, empty: bool, date: Seq<u8>) -> Seq<Field> {
    let dated = with_field(fields, date_name(), date);
    if empty && status != Status::NoContent {
        with_field(dated, content_length_name(), "0".spec_bytes())
    } else {
        dated
    }
}

/// The wire form of a response: status line, headers, an empty line, body.
pub open spec fn wire(status: Status, fields: Seq<Field>, body: Seq<u8>) -> Seq<u8> {
    "HTTP/1.1 ".spec_bytes() + status.line() + crlf() + header_block(fields) + crlf() + body
}

/// Among the headers written for a response without content, whose status
/// is not "no content", there is a `Content-Length` of `0`, and its line
/// stands in the wire form.
pub proof fn lemma_empty_response_has_length(status: Status, fields: Seq<Field>, date: Seq<u8>)
    requires
        status != Status::NoContent,
    ensures
        lookup(stamped(status, fields, true, date), content_length_name()) == Some("0".spec_bytes()),
        exists|i: int|
            0 <= i < stamped(status, fields, true, date).len() && crate::bytes::eq_ignore_case(
                (#[trigger] stamped(status, fields, true, date)[i]).0,
                content_length_name(),
            ) && stamped(status, fields, true, date)[i].1 == "0".spec_bytes() && occurs(
                wire(status, stamped(status, fields, true, date), Seq::empty()),
                header_line(stamped(status, fields, true, date)[i]),
            ),
{
    let dated = with_field(fields, date_name(), date);
    let out = stamped(status, fields, true, date);
    lemma_with_field(dated, content_length_name(), "0".spec_bytes(), content_length_name());
    lemma_position(out, content_length_name(), 0);
    let i = position(out, content_length_name(), 0)->0;
    lemma_block_holds_line(out, i);
    let before = "HTTP/1.1 ".spec_bytes() + status.line() + crlf();
    lemma_occurs_in_part(before, header_block(out), crlf() + Seq::<u8>::empty(), header_line(out[i]));
    assert(before + header_block(out) + (crlf() + Seq::<u8>::empty()) =~= wire(
        status,
        out,
        Seq::empty(),
    ));
}

/// The headers of a response whose content was dropped.
pub open spec fn without_body_headers(fields: Seq<Field>) -> Seq<Field> {
    without_field(without_field(fields, content_type_name()), content_length_name())
}

/// Dropping the content clears `Content-Type` and `Content-Length`, and
/// leaves every other header as it was.
pub proof fn lemma_dropped_content(fields: Seq<Field>, other: Seq<u8>)
    ensures
        lookup(without_body_headers(fields), content_type_name()) is None,
        lookup(without_body_headers(fields), content_length_name()) is None,
        !crate::bytes::eq_ignore_case(other, content_type_name()) && !crate::bytes::eq_ignore_case(
            other,
            content_length_name(),
        ) ==> lookup(without_body_headers(fields), other) == lookup(fields, other),
{
    broadcast use vstd::string::is_ascii_spec_bytes;

    let kind = content_type_name();
    let length = content_length_name();
    let first = without_field(fields, kind);
    reveal_strlit("Content-Type");
    reveal_strlit("Content-Length");
    assert("Content-Type".is_ascii());
    assert("Content-Length".is_ascii());
    assert(kind.len() == 12 && length.len() == 14);
    lemma_without_field(fields, kind);
    lemma_without_field(first, length);
    lemma_without_field_other(first, length, kind);
    if !crate::bytes::eq_ignore_case(other, kind) && !crate::bytes::eq_ignore_case(other, length) {
        lemma_without_field_other(fields, kind, other);
        lemma_without_field_other(first, length, other);
    }
}

/// The wire form of a response is its status line and headers followed by
/// the pieces of its content.
pub proof fn lemma_parts_make_wire(status: Status, fields: Seq<Field>, content: Content)
    ensures
        wire(status, fields, Seq::empty()) + crate::response::content::flat(content.chunks())
            == wire(status, fields, content.body()),
{
    crate::response::content::lemma_chunks_make_body(content);
    assert(wire(status, fields, Seq::empty()) + content.body() =~= wire(
        status,
        fields,
        content.body(),
    ));
}

/// An HTTP response.
#[derive(Debug)]
pub struct Response {
    /// The status of the response.
    pub status: Status,
    /// The headers of the response.
    pub headers: Headers,
    /// The content of the response.
    pub content: Content,
}

/// The bytes of a string, owned.
pub fn owned(text: &str) -> (r: Vec<u8>)
    ensures
        r@ == text.spec_bytes(),
{
    vstd::slice::slice_to_vec(text.as_bytes())
}

impl Response {
    /// A response with the given status, no headers and no content.
    pub fn with(status: Status) -> (r: Response)
        ensures
            r.status == status,
            r.headers@ == Seq::<Field>::empty(),
            r.content is Empty,
    {
        Response { status, headers: Headers::new(), content: Content::Empty }
    }

    /// Whether two responses have the same status, the same headers and
    /// the same content.
    pub open spec fn alike(&self, other: &Response) -> bool {
        self.status == other.status && self.headers@ == other.headers@ && self.content.alike(
            &other.content,
        )
    }

    /// Whether two responses have the same status, the same headers and
    /// the same content.
    pub fn same(&self, other: &Response) -> (r: bool)
        ensures
            r == self.alike(other),
    {
        self.status == other.status && self.headers.same(&other.headers) && self.content.same(
            &other.content,
        )
    }

    /// Removes the content together with the headers that describe it.
    pub fn drop_content(&mut self)
        ensures
            final(self).status == old(self).status,
            final(self).content is Empty,
            final(self).headers@ == without_body_headers(old(self).headers@),
    {
        self.content = Content::Empty;
        self.headers.remove("Content-Type".as_bytes());
        self.headers.remove("Content-Length".as_bytes());
    }

    /// This response without its content and the headers that describe it.
    pub fn without_content(self) -> (r: Response)
        ensures
            r.status == self.status,
            r.content is Empty,
            r.headers@ == without_body_headers(self.headers@),
    {
        let mut r = self;
        r.drop_content();
        r
    }

    /// Makes `body` the content, described as `media_type`.
    pub fn set_body(&mut self, media_type: &str, body: Vec<u8>)
        ensures
            final(self).status == old(self).status,
            final(self).content == Content::Payload(body),
            final(self).headers@ == with_body_headers(
                old(self).headers@,
                media_type.spec_bytes(),
                body@,
            ),
    {
        self.headers.insert("Content-Type".as_bytes(), owned(media_type));
        self.headers.insert("Content-Length".as_bytes(), to_decimal(body.len() as u64));
        self.content = Content::Payload(body);
    }

    /// Makes `text` the content, as plain text.
    pub fn set_text(&mut self, text: &str)
        ensures
            final(self).status == old(self).status,
            final(self).content is Payload,
            final(self).content.body() == text.spec_bytes(),
            final(self).headers@ == with_body_headers(
                old(self).headers@,
                "text/plain; charset=UTF-8".spec_bytes(),
                text.spec_bytes(),
            ),
    {
        self.set_body("text/plain; charset=UTF-8", owned(text));
    }

    /// This response with `text` as its content, as plain text.
    pub fn text(self, text: &str) -> (r: Response)
        ensures
            r.status == self.status,
            r.content is Payload,
            r.content.body() == text.spec_bytes(),
            r.headers@ == with_body_headers(
                self.headers@,
                "text/plain; charset=UTF-8".spec_bytes(),
                text.spec_bytes(),
            ),
    {
        let mut r = self;
        r.set_text(text);
        r
    }

    /// Makes `html` the content, as HTML.
    pub fn set_html(&mut self, html: &str)
        ensures
            final(self).status == old(self).status,
            final(self).content is Payload,
            final(self).content.body() == html.spec_bytes(),
            final(self).headers@ == with_body_headers(
                old(self).headers@,
                "text/html; charset=UTF-8".spec_bytes(),
                html.spec_bytes(),
            ),
    {
        self.set_body("text/html; charset=UTF-8", owned(html));
    }

    /// This response with `html` as its content, as HTML.
    pub fn html(self, html: &str) -> (r: Response)
        ensures
            r.status == self.status,
            r.content is Payload,
            r.content.body() == html.spec_bytes(),
            r.headers@ == with_body_headers(
                self.headers@,
                "text/html; charset=UTF-8".spec_bytes(),
                html.spec_bytes(),
            ),
    {
        let mut r = self;
        r.set_html(html);
        r
    }

    /// Makes `json` the content, as JSON.  The caller vouches that the text
    /// is JSON; it is written as it is.
    pub fn set_json_str(&mut self, json: &str)
        ensures
            final(self).status == old(self).status,
            final(self).content is Payload,
            final(self).content.body() == json.spec_bytes(),
            final(self).headers@ == with_body_headers(
                old(self).headers@,
                "application/json; charset=UTF-8".spec_bytes(),
                json.spec_bytes(),
            ),
    {
        self.set_body("application/json; charset=UTF-8", owned(json));
    }

    /// This response with `json` as its content, as JSON.
    pub fn json_str(self, json: &str) -> (r: Response)
        ensures
            r.status == self.status,
            r.content is Payload,
            r.content.body() == json.spec_bytes(),
            r.headers@ == with_body_headers(
                self.headers@,
                "application/json; charset=UTF-8".spec_bytes(),
                json.spec_bytes(),
            ),
    {
        let mut r = self;
        r.set_json_str(json);
        r
    }

    /// Makes the serialized JSON document `json` the content.
    pub fn set_json(&mut self, json: Vec<u8>)
        ensures
            final(self).status == old(self).status,
            final(self).content == Content::Payload(json),
            final(self).headers@ == with_body_headers(
                old(self).headers@,
                "application/json; charset=UTF-8".spec_bytes(),
                json@,
            ),
    {
        self.set_body("application/json; charset=UTF-8", json);
    }

    /// This response with the serialized JSON document `json` as its content.
    pub fn json(self, json: Vec<u8>) -> (r: Response)
        ensures
            r.status == self.status,
            r.content == Content::Payload(json),
            r.headers@ == with_body_headers(
                self.headers@,
                "application/json; charset=UTF-8".spec_bytes(),
                json@,
            ),
    {
        let mut r = self;
        r.set_json(json);
        r
    }

    /// The wire form of this response, stamped with the current time.
    ///
    /// The time is read from the clock of the machine, so the contract
    /// holds for whatever time that was: the result is the wire form dated
    /// with some moment.
    pub fn into_bytes(self) -> (r: Vec<u8>)
        ensures
            exists|secs: u64|
                r@ == wire(
                    self.status,
                    stamped(
                        self.status,
                        self.headers@,
                        self.content is Empty,
                        #[trigger] crate::date::imf_fixdate_of(secs),
                    ),
                    self.content.body(),
                ),
    {
        let now = crate::date::unix_now();
        let date = crate::date::imf_fixdate(now);
        self.into_bytes_dated(date.as_slice())
    }

    /// The wire form of this response in the pieces in which it is to be
    /// written, stamped with the current time: first the status line and
    /// the headers, then the content piece by piece, so that a stream can
    /// go out chunk by chunk.
    pub fn into_parts(self) -> (r: (Vec<u8>, Vec<Vec<u8>>))
        ensures
            exists|secs: u64|
                r.0@ == wire(
                    self.status,
                    stamped(
                        self.status,
                        self.headers@,
                        self.content is Empty,
                        #[trigger] crate::date::imf_fixdate_of(secs),
                    ),
                    Seq::empty(),
                ),
            r.1@ == self.content.chunks(),
    {
        let now = crate::date::unix_now();
        let date = crate::date::imf_fixdate(now);
        self.into_parts_dated(date.as_slice())
    }

    /// The wire form of this response in the pieces in which it is to be
    /// written, with `date` as the value of its `Date` header: first the
    /// status line and the headers, then the content piece by piece.
    pub fn into_parts_dated(self, date: &[u8]) -> (r: (Vec<u8>, Vec<Vec<u8>>))
        ensures
            r.0@ == wire(
                self.status,
                stamped(self.status, self.headers@, self.content is Empty, date@),
                Seq::empty(),
            ),
            r.1@ == self.content.chunks(),
    {
        let Response { status, headers, content } = self;
        let mut headers = headers;
        headers.insert("Date".as_bytes(), vstd::slice::slice_to_vec(date));
        if content.is_none() && !status.is_no_content() {
            headers.insert("Content-Length".as_bytes(), owned("0"));
        }
        let mut head: Vec<u8> = owned("HTTP/1.1 ");
        append(&mut head, status.as_bytes());
        head.push(13);
        head.push(10);
        headers.write_to(&mut head);
        head.push(13);
        head.push(10);
        proof {
            let fields = stamped(status, self.headers@, self.content is Empty, date@);
            assert(head@ =~= wire(status, fields, Seq::empty()));
        }
        let chunks: Vec<Vec<u8>> = match content {
            Content::Empty => Vec::new(),
            Content::Payload(bytes) => {
                let mut one: Vec<Vec<u8>> = Vec::new();
                one.push(bytes);
                assert(one@ =~= seq![bytes]);
                one
            },
            Content::Stream(chunks) => chunks,
            Content::Upgrade(_) => Vec::new(),
        };
        (head, chunks)
    }

    /// The wire form of this response, with `date` as the value of its
    /// `Date` header.
    ///
    /// `Date` is always written.  `Content-Length: 0` is written when there
    /// is no content and the status is not "no content".  The content
    /// follows the headers byte for byte.
    pub fn into_bytes_dated(self, date: &[u8]) -> (r: Vec<u8>)
        ensures
            r@ == wire(
                self.status,
                stamped(self.status, self.headers@, self.content is Empty, date@),
                self.content.body(),
            ),
    {
        let Response { status, headers, content } = self;
        let mut headers = headers;
        headers.insert("Date".as_bytes(), vstd::slice::slice_to_vec(date));
        if content.is_none() && !status.is_no_content() {
            headers.insert("Content-Length".as_bytes(), owned("0"));
        }
        let mut buf: Vec<u8> = owned("HTTP/1.1 ");
        append(&mut buf, status.as_bytes());
        buf.push(13);
        buf.push(10);
        headers.write_to(&mut buf);
        buf.push(13);
        buf.push(10);
        let ghost head = buf@;
        match content {
            Content::Empty => {},
            Content::Payload(bytes) => {
                append(&mut buf, bytes.as_slice());
            },
            Content::Stream(chunks) => {
                let mut i: usize = 0;
                assert(chunks@.take(0) =~= Seq::<Vec<u8>>::empty());
                while i < chunks.len()
                    invariant
                        i <= chunks@.len(),
                        buf@ == head + crate::response::content::flat(chunks@.take(i as int)),
                    decreases chunks@.len() - i,
                {
                    append(&mut buf, chunks[i].as_slice());
                    proof {
                        assert(chunks@.take(i + 1).drop_last() =~= chunks@.take(i as int));
                        assert(chunks@.take(i + 1).last() == chunks@[i as int]);
                    }
                    i += 1;
                }
                assert(chunks@.take(i as int) =~= chunks@);
            },
            Content::Upgrade(_) => {},
        }
        proof {
            let fields = stamped(status, self.headers@, self.content is Empty, date@);
            assert(head =~= "HTTP/1.1 ".spec_bytes() + status.line() + crlf() + header_block(fields)
                + crlf());
            assert(buf@ =~= wire(status, fields, self.content.body()));
        }
        buf
    }
}

} // verus!
