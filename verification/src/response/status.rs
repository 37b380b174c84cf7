//! Response status codes.

use vstd::prelude::*;
use vstd::string::StringSliceAdditionalSpecFns;

verus! {

/// The status of a response.
#[derive(Clone, Copy, Debug, PartialEq, Eq, Structural)]
pub enum Status {
    /// 101
    SwitchingProtocols,
    /// 200
    OK,
    /// 201
    Created,
    /// 204
    NoContent,
    /// 301
    MovedPermanently,
    /// 302
    Found,
    /// 304
    NotModified,
    /// 400
    BadRequest,
    /// 401
    Unauthorized,
    /// 403
    Forbidden,
    /// 404
    NotFound,
    /// 422
    UnprocessableEntity,
    /// 500
    InternalServerError,
    /// 501
    NotImplemented,
}

impl Status {
    /// The numeric code of the status.
    pub open spec fn spec_code(self) -> u16 {
        match self {
            Status::SwitchingProtocols => 101,
            Status::OK => 200,
            Status::Created => 201,
            Status::NoContent => 204,
            Status::MovedPermanently => 301,
            Status::Found => 302,
            Status::NotModified => 304,
            Status::BadRequest => 400,
            Status::Unauthorized => 401,
            Status::Forbidden => 403,
            Status::NotFound => 404,
            Status::UnprocessableEntity => 422,
            Status::InternalServerError => 500,
            Status::NotImplemented => 501,
        }
    }

    /// The code and reason phrase, as they stand in the status line.
    pub open spec fn line(self) -> Seq<u8> {
        match self {
            Status::SwitchingProtocols => "101 Switching Protocols".spec_bytes(),
            Status::OK => "200 OK".spec_bytes(),
            Status::Created => "201 Created".spec_bytes(),
            Status::NoContent => "204 No Content".spec_bytes(),
            Status::MovedPermanently => "301 Moved Permanently".spec_bytes(),
            Status::Found => "302 Found".spec_bytes(),
            Status::NotModified => "304 Not Modified".spec_bytes(),
            Status::BadRequest => "400 Bad Request".spec_bytes(),
            Status::Unauthorized => "401 Unauthorized".spec_bytes(),
            Status::Forbidden => "403 Forbidden".spec_bytes(),
            Status::NotFound => "404 Not Found".spec_bytes(),
            Status::UnprocessableEntity => "422 Unprocessable Entity".spec_bytes(),
            Status::InternalServerError => "500 Internal Server Error".spec_bytes(),
            Status::NotImplemented => "501 Not Implemented".spec_bytes(),
        }
    }

    /// The numeric code of the status.
    #[verifier::when_used_as_spec(spec_code)]
    pub fn code(self) -> (r: u16)
        ensures
            r == self.spec_code(),
    {
        match self {
            Status::SwitchingProtocols => 101,
            Status::OK => 200,
            Status::Created => 201,
            Status::NoContent => 204,
            Status::MovedPermanently => 301,
            Status::Found => 302,
            Status::NotModified => 304,
            Status::BadRequest => 400,
            Status::Unauthorized => 401,
            Status::Forbidden => 403,
            Status::NotFound => 404,
            Status::UnprocessableEntity => 422,
            Status::InternalServerError => 500,
            Status::NotImplemented => 501,
        }
    }

    /// The code and reason phrase, as they stand in the status line.
    pub fn as_str(self) -> (r: &'static str)
        ensures
            r.spec_bytes() == self.line(),
    {
        match self {
            Status::SwitchingProtocols => "101 Switching Protocols",
            Status::OK => "200 OK",
            Status::Created => "201 Created",
            Status::NoContent => "204 No Content",
            Status::MovedPermanently => "301 Moved Permanently",
            Status::Found => "302 Found",
            Status::NotModified => "304 Not Modified",
            Status::BadRequest => "400 Bad Request",
            Status::Unauthorized => "401 Unauthorized",
            Status::Forbidden => "403 Forbidden",
            Status::NotFound => "404 Not Found",
            Status::UnprocessableEntity => "422 Unprocessable Entity",
            Status::InternalServerError => "500 Internal Server Error",
            Status::NotImplemented => "501 Not Implemented",
        }
    }

    /// The code and reason phrase as bytes.
    pub fn as_bytes(self) -> (r: &'static [u8])
        ensures
            r@ == self.line(),
    {
        self.as_str().as_bytes()
    }

    /// Whether the status says that the response has no content.
    pub fn is_no_content(self) -> (r: bool)
        ensures
            r == (self == Status::NoContent),
    {
        match self {
            Status::NoContent => true,
            _ => false,
        }
    }
}

} // verus!
