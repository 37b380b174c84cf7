//! The request-dispatch core of a small HTTP server.
//!
//! A connection hands over the bytes that it read.  The parser turns them
//! into a [`Request`]; the [`Router`] resolves the request's path in the
//! routing tree of its method, runs the interceptors on the way, lets the
//! handler of the matched route answer, and runs the route's back
//! interceptors on the answer; the [`Response`] is written out in its wire
//! form.
//!
//! Every function comes with a contract, stated over byte strings and other
//! mathematical values, and is verified against it.  What the parser reads
//! is given by a grammar in [`request::grammar`]; what the router answers is
//! given by the relations of [`router::dispatch`] and [`router::table`],
//! which hold whatever the interceptors and handlers return.

pub mod address;
pub mod buffer;
pub mod bytes;
pub mod context;
pub mod date;
pub mod decode;
pub mod fang;
pub mod fields;
pub mod list;
pub mod method;
pub mod request;
pub mod response;
pub mod router;
pub mod slice;
pub mod testing;
pub mod urlencoded;

pub use crate::context::Context;
pub use crate::fang::{BackFang, Fang, FangProc, Fangs, FrontFang, IntoFang};
pub use crate::method::Method;
pub use crate::request::Request;
pub use crate::response::content::Content;
pub use crate::response::status::Status;
pub use crate::response::Response;
pub use crate::router::table::Router;
