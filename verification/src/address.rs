//! Addresses to listen on.

use vstd::prelude::*;
use vstd::string::{StrSliceExecFns, StringExecFns};

verus! {

/// The digit `d` as a character.
pub open spec fn digit_char(d: nat) -> char {
    if d == 0 {
        '0'
    } else if d == 1 {
        '1'
    } else if d == 2 {
        '2'
    } else if d == 3 {
        '3'
    } else if d == 4 {
        '4'
    } else if d == 5 {
        '5'
    } else if d == 6 {
        '6'
    } else if d == 7 {
        '7'
    } else if d == 8 {
        '8'
    } else {
        '9'
    }
}

/// The decimal digits of `n` as characters, without leading zeros.
pub open spec fn decimal_chars(n: nat) -> Seq<char>
    decreases n,
{
    if n < 10 {
        seq![digit_char(n)]
    } else {
        decimal_chars(n / 10).push(digit_char(n % 10))
    }
}

/// The text `s` with every occurrence of `from` replaced by `to`, where the
/// occurrences are found from left to right and do not overlap.
pub open spec fn replaced(s: Seq<char>, from: Seq<char>, to: Seq<char>) -> Seq<char>
    decreases s.len(),
{
    if from.len() == 0 || s.len() < from.len() {
        s
    } else if s.take(from.len() as int) == from {
        to + replaced(s.skip(from.len() as int), from, to)
    } else {
        seq![s[0]] + replaced(s.skip(1), from, to)
    }
}

/// Replaces every occurrence of `from` in `s` by `to`.
///
/// Calls `str::replace`.  The contract claims, of a pattern that is not
/// empty, that the matches are the ones found from left to right without
/// overlap, and that each is replaced.
#[verifier::external_body]
pub(crate) fn replace_all(s: &str, from: &str, to: &str) -> (r: String)
    requires
        from@.len() > 0,
    ensures
        r@ == replaced(s@, from@, to@),
{
    s.replace(from, to)
}

/// Whether `s` starts with `prefix`.
pub open spec fn starts_with(s: Seq<char>, prefix: Seq<char>) -> bool {
    prefix.len() <= s.len() && s.take(prefix.len() as int) == prefix
}

/// Whether `s` starts with `prefix`.
pub fn has_prefix(s: &str, prefix: &str) -> (r: bool)
    ensures
        r == starts_with(s@, prefix@),
{
    let n: usize = prefix.unicode_len();
    if s.unicode_len() < n {
        return false;
    }
    let mut i: usize = 0;
    while i < n
        invariant
            i <= n,
            n == prefix@.len(),
            n <= s@.len(),
            forall|j: int| 0 <= j < i ==> s@[j] == prefix@[j],
        decreases n - i,
    {
        if s.get_char(i) != prefix.get_char(i) {
            assert(s@.take(n as int)[i as int] != prefix@[i as int]);
            return false;
        }
        i += 1;
    }
    assert(s@.take(n as int) =~= prefix@);
    true
}

/// The digit `d` as a one-character text.
pub fn digit_str(d: u16) -> (r: &'static str)
    requires
        d < 10,
    ensures
        r@ == seq![digit_char(d as nat)],
{
    proof {
        reveal_strlit("0");
        reveal_strlit("1");
        reveal_strlit("2");
        reveal_strlit("3");
        reveal_strlit("4");
        reveal_strlit("5");
        reveal_strlit("6");
        reveal_strlit("7");
        reveal_strlit("8");
        reveal_strlit("9");
    }
    let r = if d == 0 {
        "0"
    } else if d == 1 {
        "1"
    } else if d == 2 {
        "2"
    } else if d == 3 {
        "3"
    } else if d == 4 {
        "4"
    } else if d == 5 {
        "5"
    } else if d == 6 {
        "6"
    } else if d == 7 {
        "7"
    } else if d == 8 {
        "8"
    } else {
        "9"
    };
    assert(r@ =~= seq![digit_char(d as nat)]);
    r
}

/// Appends the decimal digits of `n` to `text`.
pub fn push_decimal(text: String, n: u16) -> (r: String)
    ensures
        r@ == text@ + decimal_chars(n as nat),
    decreases n,
{
    if n < 10 {
        let r = text.concat(digit_str(n));
        r
    } else {
        let r = push_decimal(text, n / 10).concat(digit_str(n % 10));
        assert(r@ =~= text@ + decimal_chars(n as nat));
        r
    }
}

/// Something that names an address to listen on.
pub trait TCPAddress: Sized {
    /// Whether the value names an address.
    spec fn valid(self) -> bool;

    /// The address that the value names, as `host:port`.
    spec fn address(self) -> Seq<char>;

    /// The address that the value names, as `host:port`.
    fn parse(self) -> (r: String)
        requires
            self.valid(),
        ensures
            r@ == self.address(),
    ;
}

/// The highest port that may be listened on: the last registered port.
pub const MAX_PORT: u16 = 49151;

impl TCPAddress for u16 {
    /// A port names an address when it is no higher than `MAX_PORT`.
    open spec fn valid(self) -> bool {
        self <= MAX_PORT
    }

    /// The port on every interface.
    open spec fn address(self) -> Seq<char> {
        "0.0.0.0:"@ + decimal_chars(self as nat)
    }

    fn parse(self) -> (r: String) {
        push_decimal(String::from_str("0.0.0.0:"), self)
    }
}

impl TCPAddress for &'static str {
    open spec fn valid(self) -> bool {
        true
    }

    /// `:port` stands for the port on every interface; in a text that
    /// starts with `localhost`, `localhost` stands for `127.0.0.1`; any
    /// other text is taken as it is.
    open spec fn address(self) -> Seq<char> {
        if starts_with(self@, ":"@) {
            "0.0.0.0"@ + self@
        } else if starts_with(self@, "localhost"@) {
            replaced(self@, "localhost"@, "127.0.0.1"@)
        } else {
            self@
        }
    }

    fn parse(self) -> (r: String) {
        if has_prefix(self, ":") {
            String::from_str("0.0.0.0").concat(self)
        } else if has_prefix(self, "localhost") {
            proof {
                reveal_strlit("localhost");
            }
            replace_all(self, "localhost", "127.0.0.1")
        } else {
            String::from_str(self)
        }
    }
}

} // verus!
