//! The policy for cross-origin requests, and how a preflight is answered
//! under it.

use crate::bytes::{append, bytes_eq, split, unpad, unpad_range};
use crate::fields::{lookup, with_field, Field};
use crate::method::Method;
use crate::request::parse::find_in;
use crate::request::Request;
use crate::response::headers::Headers;
use crate::response::owned;
use crate::response::status::Status;
use vstd::prelude::*;
use vstd::string::StringSliceAdditionalSpecFns;

verus! {

/// `,`, which separates the items of a list in a header value.
pub const COMMA: u8 = 44;

/// Which origins may make cross-origin requests.
#[derive(Debug)]
pub enum AllowOrigin {
    /// Every origin.
    Any,
    /// The listed origins, compared byte for byte.
    Only(Vec<Vec<u8>>),
}

/// The policy for cross-origin requests.
#[derive(Debug)]
pub struct Cors {
    /// The origins that may make requests.
    pub allow_origin: AllowOrigin,
    /// Whether requests may carry credentials.
    pub allow_credentials: bool,
    /// The methods that may be asked for; `None` allows no method to be asked for.
    pub allow_methods: Option<Vec<Method>>,
    /// The headers that may be asked for; `None` allows no header to be asked for.
    pub allow_headers: Option<Vec<Vec<u8>>>,
}

/// A policy, as a mathematical value.
pub ghost struct CorsView {
    /// The allowed origins; `None` stands for every origin.
    pub origins: Option<Seq<Seq<u8>>>,
    /// Whether credentials are allowed.
    pub credentials: bool,
    /// The methods that may be asked for.
    pub methods: Option<Seq<Method>>,
    /// The headers that may be asked for.
    pub headers: Option<Seq<Seq<u8>>>,
}

/// The byte strings that `items` hold.
pub open spec fn texts(items: Seq<Vec<u8>>) -> Seq<Seq<u8>> {
    items.map_values(|v: Vec<u8>| v@)
}

impl View for Cors {
    type V = CorsView;

    open spec fn view(&self) -> CorsView {
        CorsView {
            origins: match self.allow_origin {
                AllowOrigin::Any => None,
                AllowOrigin::Only(list) => Some(texts(list@)),
            },
            credentials: self.allow_credentials,
            methods: match self.allow_methods {
                Some(list) => Some(list@),
                None => None,
            },
            headers: match self.allow_headers {
                Some(list) => Some(texts(list@)),
                None => None,
            },
        }
    }
}

/// The items of `items`, joined by `, `.
pub open spec fn listed(items: Seq<Seq<u8>>) -> Seq<u8>
    decreases items.len(),
{
    if items.len() == 0 {
        Seq::empty()
    } else if items.len() == 1 {
        items[0]
    } else {
        listed(items.drop_last()) + seq![44u8, 32u8] + items.last()
    }
}

/// The tokens of `methods`.
pub open spec fn method_names(methods: Seq<Method>) -> Seq<Seq<u8>> {
    methods.map_values(|m: Method| m.name())
}

/// Whether the policy lets `origin` make requests.
pub open spec fn origin_allowed(cors: CorsView, origin: Seq<u8>) -> bool {
    match cors.origins {
        None => true,
        Some(list) => list.contains(origin),
    }
}

/// Whether the policy lets the method be asked for that `asked` names, if
/// `asked` is given at all.
pub open spec fn method_allowed(cors: CorsView, asked: Option<Seq<u8>>) -> bool {
    match asked {
        None => true,
        Some(token) => match Method::named(token) {
            None => false,
            Some(m) => match cors.methods {
                None => false,
                Some(list) => list.contains(m),
            },
        },
    }
}

/// Whether the policy allows each of `names`, once the spaces that surround
/// it are taken away.
pub open spec fn each_allowed(allowed: Seq<Seq<u8>>, names: Seq<Seq<u8>>) -> bool {
    forall|i: int| 0 <= i < names.len() ==> allowed.contains(unpad(#[trigger] names[i]))
}

/// Whether the policy lets the headers be asked for that the
/// comma-separated list `asked` names, if `asked` is given at all.
pub open spec fn headers_allowed(cors: CorsView, asked: Option<Seq<u8>>) -> bool {
    match asked {
        None => true,
        Some(value) => match cors.headers {
            None => false,
            Some(list) => each_allowed(list, split(value, COMMA)),
        },
    }
}

/// The status that answers a preflight with the headers `headers`.
///
/// Without `Origin` the request is bad.  It is forbidden when the origin is
/// not allowed, when it carries `Authorization` though credentials are not
/// allowed, or when it asks for a method or a header that the policy does
/// not allow.  Otherwise the answer is "no content".
pub open spec fn preflight_status(cors: CorsView, headers: Seq<Field>) -> Status {
    match lookup(headers, "Origin".spec_bytes()) {
        None => Status::BadRequest,
        Some(origin) => if !origin_allowed(cors, origin) {
            Status::Forbidden
        } else if lookup(headers, "Authorization".spec_bytes()) is Some && !cors.credentials {
            Status::Forbidden
        } else if !method_allowed(
            cors,
            lookup(headers, "Access-Control-Request-Method".spec_bytes()),
        ) {
            Status::Forbidden
        } else if !headers_allowed(
            cors,
            lookup(headers, "Access-Control-Request-Headers".spec_bytes()),
        ) {
            Status::Forbidden
        } else {
            Status::NoContent
        },
    }
}

/// The headers that announce the policy, set on `fields`: `Vary: Origin`,
/// then what the policy allows.  The allowed origin is announced here only
/// when every origin is allowed.
pub open spec fn announced(cors: CorsView, fields: Seq<Field>) -> Seq<Field> {
    let a = with_field(fields, "Vary".spec_bytes(), "Origin".spec_bytes());
    let b = if cors.origins is None {
        with_field(a, "Access-Control-Allow-Origin".spec_bytes(), "*".spec_bytes())
    } else {
        a
    };
    let c = if cors.credentials {
        with_field(b, "Access-Control-Allow-Credentials".spec_bytes(), "true".spec_bytes())
    } else {
        b
    };
    let d = match cors.methods {
        Some(list) => with_field(
            c,
            "Access-Control-Allow-Methods".spec_bytes(),
            listed(method_names(list)),
        ),
        None => c,
    };
    match cors.headers {
        Some(list) => with_field(d, "Access-Control-Allow-Headers".spec_bytes(), listed(list)),
        None => d,
    }
}

/// The headers of the answer to an allowed preflight from `origin`: an
/// origin that is allowed by name is announced as the allowed origin.
pub open spec fn granted(cors: CorsView, fields: Seq<Field>, origin: Seq<u8>) -> Seq<Field> {
    if cors.origins is None {
        fields
    } else {
        with_field(fields, "Access-Control-Allow-Origin".spec_bytes(), origin)
    }
}

/// Whether `list` holds `item`.
pub fn holds(list: &Vec<Vec<u8>>, item: &[u8]) -> (r: bool)
    ensures
        r == texts(list@).contains(item@),
{
    let mut i: usize = 0;
    while i < list.len()
        invariant
            i <= list@.len(),
            forall|j: int| 0 <= j < i ==> texts(list@)[j] != item@,
        decreases list@.len() - i,
    {
        assert(texts(list@)[i as int] == list@[i as int]@);
        if bytes_eq(list[i].as_slice(), item) {
            return true;
        }
        i += 1;
    }
    false
}

/// Joins `items` with `, `.
pub fn join(items: &Vec<Vec<u8>>) -> (r: Vec<u8>)
    ensures
        r@ == listed(texts(items@)),
{
    let mut out: Vec<u8> = Vec::new();
    let mut i: usize = 0;
    let ghost all = texts(items@);
    assert(all.take(0) =~= Seq::<Seq<u8>>::empty());
    while i < items.len()
        invariant
            i <= items@.len(),
            all == texts(items@),
            out@ == listed(all.take(i as int)),
        decreases items@.len() - i,
    {
        if i > 0 {
            out.push(44);
            out.push(32);
        }
        append(&mut out, items[i].as_slice());
        proof {
            let t = all.take(i + 1);
            assert(t.drop_last() =~= all.take(i as int));
            assert(t.last() == items@[i as int]@);
            if i == 0 {
                assert(out@ =~= t[0]);
            } else {
                assert(out@ =~= listed(all.take(i as int)) + seq![44u8, 32u8] + t.last());
            }
        }
        i += 1;
    }
    assert(all.take(i as int) =~= all);
    out
}

impl Cors {
    /// Whether `origin` may make requests.
    pub fn allows_origin(&self, origin: &[u8]) -> (r: bool)
        ensures
            r == origin_allowed(self@, origin@),
    {
        match &self.allow_origin {
            AllowOrigin::Any => true,
            AllowOrigin::Only(list) => holds(list, origin),
        }
    }

    /// Whether the method that `token` names may be asked for.
    pub fn allows_method(&self, token: &[u8]) -> (r: bool)
        ensures
            r == method_allowed(self@, Some(token@)),
    {
        let m = match Method::from_bytes(token) {
            None => {
                return false;
            },
            Some(m) => m,
        };
        match &self.allow_methods {
            None => false,
            Some(list) => {
                let mut i: usize = 0;
                while i < list.len()
                    invariant
                        i <= list@.len(),
                        self@.methods == Some(list@),
                        Method::named(token@) == Some(m),
                        forall|j: int| 0 <= j < i ==> list@[j] != m,
                    decreases list@.len() - i,
                {
                    if list[i] == m {
                        assert(list@[i as int] == m);
                        return true;
                    }
                    i += 1;
                }
                false
            },
        }
    }

    /// Whether each header of the comma-separated list `value` may be asked
    /// for.
    pub fn allows_headers(&self, value: &[u8]) -> (r: bool)
        ensures
            r == headers_allowed(self@, Some(value@)),
    {
        let list = match &self.allow_headers {
            None => {
                return false;
            },
            Some(list) => list,
        };
        let ghost allowed = texts(list@);
        let ghost names = split(value@, COMMA);
        let mut pos: usize = 0;
        let mut more: bool = true;
        proof {
            assert(value@.subrange(0, value@.len() as int) =~= value@);
        }
        while more
            invariant
                pos <= value@.len(),
                allowed == texts(list@),
                self@.headers == Some(allowed),
                names == split(value@, COMMA),
                more ==> (each_allowed(allowed, names) <==> each_allowed(
                    allowed,
                    split(value@.subrange(pos as int, value@.len() as int), COMMA),
                )),
                !more ==> each_allowed(allowed, names),
                !more ==> pos == value@.len(),
            decreases value@.len() - pos + if more { 1int } else { 0int },
        {
            let ghost rest = value@.subrange(pos as int, value@.len() as int);
            let comma = find_in(value, pos, value.len(), COMMA);
            let end: usize = match comma {
                Some(c) => c,
                None => value.len(),
            };
            let ghost piece = value@.subrange(pos as int, end as int);
            let (a, b) = unpad_range(value, pos, end);
            let name = vstd::slice::slice_subrange(value, a, b);
            let ok = holds(list, name);
            proof {
                assert(split(rest, COMMA)[0] == piece) by {
                    if comma is None {
                        assert(piece =~= rest);
                    }
                }
            }
            if !ok {
                proof {
                    crate::bytes::lemma_split_pieces(rest, COMMA);
                    assert(!allowed.contains(unpad(split(rest, COMMA)[0])));
                }
                return false;
            }
            match comma {
                Some(c) => {
                    proof {
                        let tail = value@.subrange(c + 1, value@.len() as int);
                        let next = split(tail, COMMA);
                        assert(split(rest, COMMA) == seq![piece] + next);
                        if each_allowed(allowed, next) {
                            assert forall|i: int| 0 <= i < split(rest, COMMA).len() implies allowed.contains(
                                unpad(#[trigger] split(rest, COMMA)[i]),
                            ) by {
                                if i > 0 {
                                    assert(split(rest, COMMA)[i] == next[i - 1]);
                                }
                            }
                        }
                        if each_allowed(allowed, split(rest, COMMA)) {
                            assert forall|i: int| 0 <= i < next.len() implies allowed.contains(
                                unpad(#[trigger] next[i]),
                            ) by {
                                assert(split(rest, COMMA)[i + 1] == next[i]);
                            }
                        }
                    }
                    pos = c + 1;
                },
                None => {
                    proof {
                        assert(split(rest, COMMA) == seq![piece]);
                    }
                    pos = value.len();
                    more = false;
                },
            }
        }
        true
    }

    /// The status that answers the preflight `req`.
    pub fn check(&self, req: &Request) -> (r: Status)
        requires
            req.wf(),
        ensures
            r == preflight_status(self@, req@.headers),
    {
        let origin = match req.header("Origin") {
            None => {
                return Status::BadRequest;
            },
            Some(origin) => origin,
        };
        if !self.allows_origin(origin) {
            return Status::Forbidden;
        }
        if req.header("Authorization").is_some() && !self.allow_credentials {
            return Status::Forbidden;
        }
        match req.header("Access-Control-Request-Method") {
            Some(token) => {
                if !self.allows_method(token) {
                    return Status::Forbidden;
                }
            },
            None => {},
        }
        match req.header("Access-Control-Request-Headers") {
            Some(value) => {
                if !self.allows_headers(value) {
                    return Status::Forbidden;
                }
            },
            None => {},
        }
        Status::NoContent
    }

    /// Announces the policy in `headers`.
    pub fn announce(&self, headers: &mut Headers)
        ensures
            final(headers)@ == announced(self@, old(headers)@),
    {
        headers.insert("Vary".as_bytes(), owned("Origin"));
        match &self.allow_origin {
            AllowOrigin::Any => {
                headers.insert("Access-Control-Allow-Origin".as_bytes(), owned("*"));
            },
            AllowOrigin::Only(_) => {},
        }
        if self.allow_credentials {
            headers.insert("Access-Control-Allow-Credentials".as_bytes(), owned("true"));
        }
        match &self.allow_methods {
            Some(list) => {
                let mut names: Vec<Vec<u8>> = Vec::new();
                let mut i: usize = 0;
                while i < list.len()
                    invariant
                        i <= list@.len(),
                        names@.len() == i,
                        forall|j: int| 0 <= j < i ==> (#[trigger] names@[j])@ == list@[j].name(),
                    decreases list@.len() - i,
                {
                    names.push(vstd::slice::slice_to_vec(list[i].as_bytes()));
                    i += 1;
                }
                assert(texts(names@) =~= method_names(list@));
                headers.insert("Access-Control-Allow-Methods".as_bytes(), join(&names));
            },
            None => {},
        }
        match &self.allow_headers {
            Some(list) => {
                headers.insert("Access-Control-Allow-Headers".as_bytes(), join(list));
            },
            None => {},
        }
    }

    /// Completes the headers of the answer to an allowed preflight from
    /// `origin`.
    pub fn grant(&self, headers: &mut Headers, origin: &[u8])
        ensures
            final(headers)@ == granted(self@, old(headers)@, origin@),
    {
        match &self.allow_origin {
            AllowOrigin::Any => {},
            AllowOrigin::Only(_) => {
                headers.insert(
                    "Access-Control-Allow-Origin".as_bytes(),
                    vstd::slice::slice_to_vec(origin),
                );
            },
        }
    }
}

/// A preflight without `Origin` is a bad request; one from an origin that
/// the policy does not allow is forbidden; one from an allowed origin that
/// asks for an allowed method, asks for no headers and carries no
/// credentials is answered with "no content".
pub proof fn lemma_preflight_outcomes(cors: CorsView, headers: Seq<Field>)
    ensures
        lookup(headers, "Origin".spec_bytes()) is None ==> preflight_status(cors, headers)
            == Status::BadRequest,
        lookup(headers, "Origin".spec_bytes()) is Some && !origin_allowed(
            cors,
            lookup(headers, "Origin".spec_bytes())->0,
        ) ==> preflight_status(cors, headers) == Status::Forbidden,
        lookup(headers, "Origin".spec_bytes()) is Some && origin_allowed(
            cors,
            lookup(headers, "Origin".spec_bytes())->0,
        ) && lookup(headers, "Authorization".spec_bytes()) is None && method_allowed(
            cors,
            lookup(headers, "Access-Control-Request-Method".spec_bytes()),
        ) && lookup(headers, "Access-Control-Request-Headers".spec_bytes()) is None
            ==> preflight_status(cors, headers) == Status::NoContent,
{
}

} // verus!
