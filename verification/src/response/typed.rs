//! Values that stand for a whole response: statuses as types, and the
//! conversion that handlers and error types supply.

use crate::fields::{with_field, Field};
use crate::request::grammar::ParseError;
use crate::response::body::{is_text_response, ResponseBody};
use crate::response::content::Content;
use crate::response::status::Status;
use crate::response::{owned, Response};
use vstd::prelude::*;
use vstd::string::StringSliceAdditionalSpecFns;

verus! {

/// A value that can be turned into a response.  Every value that a handler
/// returns, and every error that it fails with, is such a value.
pub trait IntoResponse: Sized {
    /// Whether `res` is the response that this value stands for.
    spec fn describes(self, res: Response) -> bool;

    /// The response that this value stands for.
    fn into_response(self) -> (r: Response)
        ensures
            self.describes(r),
    ;
}

impl IntoResponse for Response {
    open spec fn describes(self, res: Response) -> bool {
        res == self
    }

    fn into_response(self) -> (r: Response) {
        self
    }
}

impl IntoResponse for Status {
    /// A status stands for the response with that status and nothing else.
    open spec fn describes(self, res: Response) -> bool {
        res.status == self && res.headers@ == Seq::<Field>::empty() && res.content is Empty
    }

    fn into_response(self) -> (r: Response) {
        Response::with(self)
    }
}

/// The text of the response that turns a request down for `e`.
pub open spec fn rejection_text(e: ParseError) -> Seq<u8> {
    match e {
        ParseError::MalformedRequest => "malformed request".spec_bytes(),
        ParseError::UnknownMethod => "unknown method".spec_bytes(),
        ParseError::TooManyQueryParams => "too many query parameters".spec_bytes(),
        ParseError::TooManyHeaders => "too many headers".spec_bytes(),
        ParseError::InvalidContentType => "invalid content type".spec_bytes(),
    }
}

impl IntoResponse for ParseError {
    /// A request that cannot be parsed is a bad request; the response says
    /// why, as plain text.
    open spec fn describes(self, res: Response) -> bool {
        is_text_response(res, Status::BadRequest, rejection_text(self))
    }

    fn into_response(self) -> (r: Response) {
        let text = match self {
            ParseError::MalformedRequest => "malformed request",
            ParseError::UnknownMethod => "unknown method",
            ParseError::TooManyQueryParams => "too many query parameters",
            ParseError::TooManyHeaders => "too many headers",
            ParseError::InvalidContentType => "invalid content type",
        };
        Response::with(Status::BadRequest).text(text)
    }
}

/// `200 OK` with a body.
pub struct OK<B: ResponseBody>(pub B);

/// `201 Created` with a body.
pub struct Created<B: ResponseBody>(pub B);

/// `400 Bad Request` with a body.
pub struct BadRequest<B: ResponseBody>(pub B);

/// `401 Unauthorized` with a body.
pub struct Unauthorized<B: ResponseBody>(pub B);

/// `403 Forbidden` with a body.
pub struct Forbidden<B: ResponseBody>(pub B);

/// `404 Not Found` with a body.
pub struct NotFound<B: ResponseBody>(pub B);

/// `422 Unprocessable Entity` with a body.
pub struct UnprocessableEntity<B: ResponseBody>(pub B);

/// `500 Internal Server Error` with a body.
pub struct InternalServerError<B: ResponseBody>(pub B);

impl<B: ResponseBody> IntoResponse for OK<B> {
    open spec fn describes(self, res: Response) -> bool {
        is_text_response(res, Status::OK, self.0.body_bytes())
    }

    fn into_response(self) -> (r: Response) {
        self.0.into_response_with(Status::OK)
    }
}

impl<B: ResponseBody> IntoResponse for Created<B> {
    open spec fn describes(self, res: Response) -> bool {
        is_text_response(res, Status::Created, self.0.body_bytes())
    }

    fn into_response(self) -> (r: Response) {
        self.0.into_response_with(Status::Created)
    }
}

impl<B: ResponseBody> IntoResponse for BadRequest<B> {
    open spec fn describes(self, res: Response) -> bool {
        is_text_response(res, Status::BadRequest, self.0.body_bytes())
    }

    fn into_response(self) -> (r: Response) {
        self.0.into_response_with(Status::BadRequest)
    }
}

impl<B: ResponseBody> IntoResponse for Unauthorized<B> {
    open spec fn describes(self, res: Response) -> bool {
        is_text_response(res, Status::Unauthorized, self.0.body_bytes())
    }

    fn into_response(self) -> (r: Response) {
        self.0.into_response_with(Status::Unauthorized)
    }
}

impl<B: ResponseBody> IntoResponse for Forbidden<B> {
    open spec fn describes(self, res: Response) -> bool {
        is_text_response(res, Status::Forbidden, self.0.body_bytes())
    }

    fn into_response(self) -> (r: Response) {
        self.0.into_response_with(Status::Forbidden)
    }
}

impl<B: ResponseBody> IntoResponse for NotFound<B> {
    open spec fn describes(self, res: Response) -> bool {
        is_text_response(res, Status::NotFound, self.0.body_bytes())
    }

    fn into_response(self) -> (r: Response) {
        self.0.into_response_with(Status::NotFound)
    }
}

impl<B: ResponseBody> IntoResponse for UnprocessableEntity<B> {
    open spec fn describes(self, res: Response) -> bool {
        is_text_response(res, Status::UnprocessableEntity, self.0.body_bytes())
    }

    fn into_response(self) -> (r: Response) {
        self.0.into_response_with(Status::UnprocessableEntity)
    }
}

impl<B: ResponseBody> IntoResponse for InternalServerError<B> {
    open spec fn describes(self, res: Response) -> bool {
        is_text_response(res, Status::InternalServerError, self.0.body_bytes())
    }

    fn into_response(self) -> (r: Response) {
        self.0.into_response_with(Status::InternalServerError)
    }
}

/// `101 Switching Protocols`.
pub struct SwitchingProtocols;

/// `204 No Content`.
pub struct NoContent;

/// `304 Not Modified`.
pub struct NotModified;

/// `501 Not Implemented`.
pub struct NotImplemented;

impl IntoResponse for SwitchingProtocols {
    open spec fn describes(self, res: Response) -> bool {
        Status::SwitchingProtocols.describes(res)
    }

    fn into_response(self) -> (r: Response) {
        Status::SwitchingProtocols.into_response()
    }
}

impl IntoResponse for NoContent {
    open spec fn describes(self, res: Response) -> bool {
        Status::NoContent.describes(res)
    }

    fn into_response(self) -> (r: Response) {
        Status::NoContent.into_response()
    }
}

impl IntoResponse for NotModified {
    open spec fn describes(self, res: Response) -> bool {
        Status::NotModified.describes(res)
    }

    fn into_response(self) -> (r: Response) {
        Status::NotModified.into_response()
    }
}

impl IntoResponse for NotImplemented {
    open spec fn describes(self, res: Response) -> bool {
        Status::NotImplemented.describes(res)
    }

    fn into_response(self) -> (r: Response) {
        Status::NotImplemented.into_response()
    }
}

/// Whether `res` is the bare redirect with status `status` to `location`.
pub open spec fn is_redirect(res: Response, status: Status, location: Seq<u8>) -> bool {
    &&& res.status == status
    &&& res.content is Empty
    &&& res.headers@ == with_field(Seq::<Field>::empty(), "Location".spec_bytes(), location)
}

/// `301 Moved Permanently`, with the place that the resource moved to.
pub struct MovedPermanently {
    /// The value of the `Location` header.
    pub location: Vec<u8>,
}

/// `302 Found`, with the place where the resource is.
pub struct Found {
    /// The value of the `Location` header.
    pub location: Vec<u8>,
}

impl MovedPermanently {
    /// A permanent redirect to `location`.
    pub fn to(location: &str) -> (r: Self)
        ensures
            r.location@ == location.spec_bytes(),
    {
        MovedPermanently { location: owned(location) }
    }
}

impl Found {
    /// A redirect to `location`.
    pub fn at(location: &str) -> (r: Self)
        ensures
            r.location@ == location.spec_bytes(),
    {
        Found { location: owned(location) }
    }
}

impl IntoResponse for MovedPermanently {
    open spec fn describes(self, res: Response) -> bool {
        is_redirect(res, Status::MovedPermanently, self.location@)
    }

    fn into_response(self) -> (r: Response) {
        let mut res = Response::with(Status::MovedPermanently);
        res.headers.insert("Location".as_bytes(), self.location);
        res
    }
}

impl IntoResponse for Found {
    open spec fn describes(self, res: Response) -> bool {
        is_redirect(res, Status::Found, self.location@)
    }

    fn into_response(self) -> (r: Response) {
        let mut res = Response::with(Status::Found);
        res.headers.insert("Location".as_bytes(), self.location);
        res
    }
}

} // verus!
