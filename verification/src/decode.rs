//! Percent-decoding of paths and query strings.

use vstd::prelude::*;
use vstd::utf8::{decode_utf8, valid_utf8};

verus! {

/// The value of a hexadecimal digit, in either case.
pub open spec fn hex_value(b: u8) -> Option<u8> {
    if 48 <= b <= 57 {
        Some((b - 48) as u8)
    } else if 97 <= b <= 102 {
        Some((b - 87) as u8)
    } else if 65 <= b <= 70 {
        Some((b - 55) as u8)
    } else {
        None
    }
}

/// `s` with every `%` that is followed by two hexadecimal digits replaced,
/// together with the digits, by the byte that the digits denote.  Any other
/// byte, a stray `%` included, stands for itself.
pub open spec fn percent_decoded(s: Seq<u8>) -> Seq<u8>
    decreases s.len(),
{
    if s.len() == 0 {
        Seq::empty()
    } else if s[0] == 37 && s.len() >= 3 && hex_value(s[1]) is Some && hex_value(s[2]) is Some {
        seq![(hex_value(s[1])->0 * 16 + hex_value(s[2])->0) as u8] + percent_decoded(s.skip(3))
    } else {
        seq![s[0]] + percent_decoded(s.skip(1))
    }
}

/// The text that the standard library's lossy UTF-8 conversion makes of
/// `bytes`: the text they encode, with U+FFFD wherever they encode none.
pub uninterp spec fn utf8_lossy(bytes: Seq<u8>) -> Seq<char>;

/// The text that percent-encoded bytes stand for: the text that the
/// decoded bytes encode where they are well-formed UTF-8, and what the lossy
/// conversion makes of them where they are not.
pub open spec fn decoded(raw: Seq<u8>) -> Seq<char> {
    if valid_utf8(percent_decoded(raw)) {
        decode_utf8(percent_decoded(raw))
    } else {
        utf8_lossy(percent_decoded(raw))
    }
}

/// Percent-decodes `input` and reads the result as UTF-8, lossily.
///
/// Calls `percent_encoding::percent_decode` and, on what it returns,
/// `decode_utf8_lossy`.  The contract claims that the first decodes exactly
/// the `%XX` sequences, as `percent_decoded` says, and that the second is
/// `String::from_utf8_lossy`, which reads well-formed UTF-8 as the text it
/// encodes.
#[verifier::external_body]
pub(crate) fn percent_decode_lossy(input: &[u8]) -> (r: String)
    ensures
        r@ == utf8_lossy(percent_decoded(input@)),
        valid_utf8(percent_decoded(input@)) ==> r@ == decode_utf8(percent_decoded(input@)),
{
    percent_encoding::percent_decode(input).decode_utf8_lossy().into_owned()
}


/// Percent-decodes `input` and reads the result as UTF-8; `None` when the
/// decoded bytes are not well-formed UTF-8.
///
/// Calls `percent_encoding::percent_decode` and, on what it returns,
/// `decode_utf8`.  The contract claims that the first decodes exactly the
/// `%XX` sequences, and that the second succeeds exactly on well-formed
/// UTF-8, with the text that the bytes encode.
#[verifier::external_body]
pub(crate) fn percent_decode_strict(input: &[u8]) -> (r: Option<String>)
    ensures
        match r {
            Some(text) => valid_utf8(percent_decoded(input@)) && text@ == decode_utf8(
                percent_decoded(input@),
            ),
            None => !valid_utf8(percent_decoded(input@)),
        },
{
    match percent_encoding::percent_decode(input).decode_utf8() {
        Ok(text) => Some(text.into_owned()),
        Err(_) => None,
    }
}

/// Percent-decodes `input`.
///
/// Calls `percent_encoding::percent_decode` and collects the bytes that it
/// yields.  The contract claims that exactly the `%XX` sequences are
/// decoded.
#[verifier::external_body]
pub(crate) fn percent_decode_bytes(input: &[u8]) -> (r: Vec<u8>)
    ensures
        r@ == percent_decoded(input@),
{
    percent_encoding::percent_decode(input).collect()
}

} // verus!
