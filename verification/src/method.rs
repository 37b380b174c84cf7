//! Request methods.

use crate::bytes::bytes_eq;
use vstd::prelude::*;
use vstd::string::StringSliceAdditionalSpecFns;

verus! {

/// The methods that the server handles.
#[derive(Clone, Copy, Debug, PartialEq, Eq, Structural)]
pub enum Method {
    /// `GET`
    GET,
    /// `PUT`
    PUT,
    /// `POST`
    POST,
    /// `PATCH`
    PATCH,
    /// `DELETE`
    DELETE,
    /// `HEAD`
    HEAD,
    /// `OPTIONS`
    OPTIONS,
}

impl Method {
    /// The token that stands for the method in a request line.
    pub open spec fn name(self) -> Seq<u8> {
        match self {
            Method::GET => "GET".spec_bytes(),
            Method::PUT => "PUT".spec_bytes(),
            Method::POST => "POST".spec_bytes(),
            Method::PATCH => "PATCH".spec_bytes(),
            Method::DELETE => "DELETE".spec_bytes(),
            Method::HEAD => "HEAD".spec_bytes(),
            Method::OPTIONS => "OPTIONS".spec_bytes(),
        }
    }

    /// The method that `token` stands for, if it stands for one.
    pub open spec fn named(token: Seq<u8>) -> Option<Method> {
        if token == Method::GET.name() {
            Some(Method::GET)
        } else if token == Method::PUT.name() {
            Some(Method::PUT)
        } else if token == Method::POST.name() {
            Some(Method::POST)
        } else if token == Method::PATCH.name() {
            Some(Method::PATCH)
        } else if token == Method::DELETE.name() {
            Some(Method::DELETE)
        } else if token == Method::HEAD.name() {
            Some(Method::HEAD)
        } else if token == Method::OPTIONS.name() {
            Some(Method::OPTIONS)
        } else {
            None
        }
    }

    /// The token that stands for the method.
    pub fn as_str(self) -> (r: &'static str)
        ensures
            r.spec_bytes() == self.name(),
    {
        match self {
            Method::GET => "GET",
            Method::PUT => "PUT",
            Method::POST => "POST",
            Method::PATCH => "PATCH",
            Method::DELETE => "DELETE",
            Method::HEAD => "HEAD",
            Method::OPTIONS => "OPTIONS",
        }
    }

    /// The token that stands for the method, as bytes.
    pub fn as_bytes(self) -> (r: &'static [u8])
        ensures
            r@ == self.name(),
    {
        self.as_str().as_bytes()
    }

    /// Reads a method token.  Tokens are case-sensitive; anything but the
    /// seven known tokens gives `None`.
    pub fn from_bytes(token: &[u8]) -> (r: Option<Method>)
        ensures
            r == Method::named(token@),
    {
        if bytes_eq(token, "GET".as_bytes()) {
            Some(Method::GET)
        } else if bytes_eq(token, "PUT".as_bytes()) {
            Some(Method::PUT)
        } else if bytes_eq(token, "POST".as_bytes()) {
            Some(Method::POST)
        } else if bytes_eq(token, "PATCH".as_bytes()) {
            Some(Method::PATCH)
        } else if bytes_eq(token, "DELETE".as_bytes()) {
            Some(Method::DELETE)
        } else if bytes_eq(token, "HEAD".as_bytes()) {
            Some(Method::HEAD)
        } else if bytes_eq(token, "OPTIONS".as_bytes()) {
            Some(Method::OPTIONS)
        } else {
            None
        }
    }
}

/// The spelled-out bytes of the seven method tokens.
pub proof fn lemma_method_names()
    ensures
        Method::GET.name() == seq![71u8, 69u8, 84u8],
        Method::PUT.name() == seq![80u8, 85u8, 84u8],
        Method::POST.name() == seq![80u8, 79u8, 83u8, 84u8],
        Method::PATCH.name() == seq![80u8, 65u8, 84u8, 67u8, 72u8],
        Method::DELETE.name() == seq![68u8, 69u8, 76u8, 69u8, 84u8, 69u8],
        Method::HEAD.name() == seq![72u8, 69u8, 65u8, 68u8],
        Method::OPTIONS.name() == seq![79u8, 80u8, 84u8, 73u8, 79u8, 78u8, 83u8],
{
    broadcast use vstd::string::is_ascii_spec_bytes;

    reveal_strlit("GET");
    reveal_strlit("PUT");
    reveal_strlit("POST");
    reveal_strlit("PATCH");
    reveal_strlit("DELETE");
    reveal_strlit("HEAD");
    reveal_strlit("OPTIONS");
    assert("GET".is_ascii());
    assert("PUT".is_ascii());
    assert("POST".is_ascii());
    assert("PATCH".is_ascii());
    assert("DELETE".is_ascii());
    assert("HEAD".is_ascii());
    assert("OPTIONS".is_ascii());
    assert(Method::GET.name() =~= seq![71u8, 69u8, 84u8]);
    assert(Method::PUT.name() =~= seq![80u8, 85u8, 84u8]);
    assert(Method::POST.name() =~= seq![80u8, 79u8, 83u8, 84u8]);
    assert(Method::PATCH.name() =~= seq![80u8, 65u8, 84u8, 67u8, 72u8]);
    assert(Method::DELETE.name() =~= seq![68u8, 69u8, 76u8, 69u8, 84u8, 69u8]);
    assert(Method::HEAD.name() =~= seq![72u8, 69u8, 65u8, 68u8]);
    assert(Method::OPTIONS.name() =~= seq![79u8, 80u8, 84u8, 73u8, 79u8, 78u8, 83u8]);
}

/// Reading the token of a method gives the method back, and a method token
/// holds neither a space nor a line break.
pub proof fn lemma_method_round_trip(m: Method)
    ensures
        Method::named(m.name()) == Some(m),
        m.name().len() > 0,
        forall|i: int| 0 <= i < m.name().len() ==> 65 <= #[trigger] m.name()[i] <= 90,
{
    lemma_method_names();
    let n = m.name();
    match m {
        Method::GET => {},
        Method::PUT => {
            assert(n[0] != Method::GET.name()[0]);
        },
        Method::POST => {
            assert(n.len() != Method::GET.name().len());
        },
        Method::PATCH => {
            assert(n.len() != Method::GET.name().len());
            assert(n.len() != Method::POST.name().len());
        },
        Method::DELETE => {
            assert(n.len() != Method::GET.name().len());
            assert(n.len() != Method::POST.name().len());
            assert(n.len() != Method::PATCH.name().len());
        },
        Method::HEAD => {
            assert(n.len() != Method::GET.name().len());
            assert(n[0] != Method::POST.name()[0]);
            assert(n.len() != Method::PATCH.name().len());
            assert(n.len() != Method::DELETE.name().len());
        },
        Method::OPTIONS => {
            assert(n.len() != Method::GET.name().len());
            assert(n.len() != Method::POST.name().len());
            assert(n.len() != Method::PATCH.name().len());
            assert(n.len() != Method::DELETE.name().len());
        },
    }
}

} // verus!
