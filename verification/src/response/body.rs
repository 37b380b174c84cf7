//! Values that can be the body of a response.

use crate::fields::Field;
use crate::response::status::Status;
use crate::response::{with_body_headers, Response};
use std::borrow::Cow;
use vstd::prelude::*;
use vstd::string::StringSliceAdditionalSpecFns;

verus! {

/// Whether `res` is the response with status `status` that carries `text`
/// as plain text and has no other headers than those that describe it.
pub open spec fn is_text_response(res: Response, status: Status, text: Seq<u8>) -> bool {
    &&& res.status == status
    &&& res.content is Payload
    &&& res.content.body() == text
    &&& res.headers@ == with_body_headers(
        Seq::<Field>::empty(),
        "text/plain; charset=UTF-8".spec_bytes(),
        text,
    )
}

/// A value that can be sent as the body of a response.
pub trait ResponseBody: Sized {
    /// The bytes of the body.
    spec fn body_bytes(self) -> Seq<u8>;

    /// The response with status `status` that carries this value as plain
    /// text.
    fn into_response_with(self, status: Status) -> (r: Response)
        ensures
            is_text_response(r, status, self.body_bytes()),
    ;
}

impl ResponseBody for &str {
    open spec fn body_bytes(self) -> Seq<u8> {
        self.spec_bytes()
    }

    fn into_response_with(self, status: Status) -> (r: Response) {
        Response::with(status).text(self)
    }
}

impl ResponseBody for String {
    open spec fn body_bytes(self) -> Seq<u8> {
        vstd::utf8::encode_utf8(self@)
    }

    fn into_response_with(self, status: Status) -> (r: Response) {
        Response::with(status).text(self.as_str())
    }
}

impl ResponseBody for &String {
    open spec fn body_bytes(self) -> Seq<u8> {
        vstd::utf8::encode_utf8(self@)
    }

    fn into_response_with(self, status: Status) -> (r: Response) {
        Response::with(status).text(self.as_str())
    }
}

impl ResponseBody for Cow<'static, str> {
    open spec fn body_bytes(self) -> Seq<u8> {
        match self {
            Cow::Borrowed(s) => s.spec_bytes(),
            Cow::Owned(s) => vstd::utf8::encode_utf8(s@),
        }
    }

    fn into_response_with(self, status: Status) -> (r: Response) {
        match self {
            Cow::Borrowed(s) => Response::with(status).text(s),
            Cow::Owned(s) => Response::with(status).text(s.as_str()),
        }
    }
}

} // verus!
