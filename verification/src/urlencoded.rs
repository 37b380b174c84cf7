//! Reading `application/x-www-form-urlencoded` data: `key=value` pairs
//! joined by `&`.
//!
//! The reader walks over the input section by section.  What a section
//! means is decided by whoever drives the reader; the functions here cut
//! the sections and read them as the basic kinds of values.

use crate::bytes::{bytes_eq, index_of, is_number, number_value, parse_bounded};
use crate::decode::{percent_decode_bytes, percent_decode_strict, percent_decoded};
use crate::request::grammar::{AMPERSAND, EQUALS};
use crate::request::parse::find_in;
use crate::router::cors::COMMA;
use vstd::prelude::*;
use vstd::string::{StrSliceExecFns, StringSliceAdditionalSpecFns};
use vstd::utf8::{decode_utf8, valid_utf8};

verus! {

/// Which part of a pair the reader stands in.
#[derive(Clone, Copy, Debug, PartialEq, Eq, Structural)]
pub enum ParsingSide {
    /// The reader stands in a key: a section ends before the next `=`.
    Key,
    /// The reader stands in a value: a section ends before the next `&`.
    Value,
}

/// Why reading failed.
#[derive(Clone, Copy, Debug, PartialEq, Eq, Structural)]
pub enum Error {
    /// The input ended where a byte was expected.
    UnexpectedEnd,
    /// No `=` follows where a key was expected.
    MissingKey,
    /// A key is empty.
    EmptyKey,
    /// A pair does not follow the one before it after `&`.
    MissingAmpersand,
    /// A key is not followed by `=`.
    MissingEquals,
    /// An element of a list starts with `,`.
    MissingComma,
    /// A section does not decode to well-formed UTF-8.
    NotUtf8,
    /// A section is not a single character.
    NotAChar,
    /// A value is not empty where nothing was expected.
    NotUnit,
    /// A value is neither `true` nor `false`.
    NotABool,
    /// A value is not a number of the expected range.
    NotANumber,
}

/// A reader of URL-encoded data.
#[derive(Debug)]
pub struct URLEncodedDeserializer<'de> {
    /// What is left to read.
    pub input: &'de [u8],
    /// Where in a pair the reader stands.
    pub side: ParsingSide,
}

/// How long the next section of `input` is on the side `side`, or the
/// error that reading it gives.
pub open spec fn section_len(input: Seq<u8>, side: ParsingSide) -> Result<int, Error> {
    match side {
        ParsingSide::Key => {
            let k = index_of(input, EQUALS);
            if 0 < k < input.len() {
                Ok(k)
            } else if k == 0 && input.len() > 0 {
                Err(Error::EmptyKey)
            } else {
                Err(Error::MissingKey)
            }
        },
        ParsingSide::Value => {
            let k = index_of(input, AMPERSAND);
            if 0 <= k < input.len() {
                Ok(k)
            } else {
                Ok(input.len() as int)
            }
        },
    }
}

/// The number that `s` denotes as an unsigned decimal: digits, optionally
/// after `+`.
pub open spec fn unsigned_value(s: Seq<u8>) -> Option<nat> {
    let digits = if s.len() > 0 && s[0] == 43 {
        s.skip(1)
    } else {
        s
    };
    if is_number(digits) {
        Some(number_value(digits))
    } else {
        None
    }
}

/// The number that `s` denotes as a signed decimal: digits, optionally
/// after `+` or `-`.
pub open spec fn signed_value(s: Seq<u8>) -> Option<int> {
    if s.len() > 0 && s[0] == 45 {
        if is_number(s.skip(1)) {
            Some(-(number_value(s.skip(1)) as int))
        } else {
            None
        }
    } else {
        match unsigned_value(s) {
            Some(n) => Some(n as int),
            None => None,
        }
    }
}

/// Reads `s` as an unsigned decimal that is no larger than `max`.
pub fn parse_unsigned(s: &[u8], max: u64) -> (r: Option<u64>)
    ensures
        match r {
            Some(n) => unsigned_value(s@) == Some(n as nat) && n <= max,
            None => unsigned_value(s@) is None || unsigned_value(s@)->0 > max,
        },
{
    let from: usize = if s.len() > 0 && s[0] == 43 {
        1
    } else {
        0
    };
    assert(s@.subrange(from as int, s@.len() as int) =~= s@.skip(from as int));
    assert(s@.skip(0) =~= s@);
    parse_bounded(s, from, s.len(), max)
}

/// Reads `s` as a signed decimal between `min` and `max`.
pub fn parse_signed(s: &[u8], min: i64, max: i64) -> (r: Option<i64>)
    requires
        min <= 0 <= max,
    ensures
        match r {
            Some(n) => signed_value(s@) == Some(n as int) && min <= n <= max,
            None => signed_value(s@) is None || !(min <= signed_value(s@)->0 <= max),
        },
{
    if s.len() > 0 && s[0] == 45 {
        assert(s@.subrange(1, s@.len() as int) =~= s@.skip(1));
        let limit: u64 = if min == i64::MIN {
            9223372036854775808u64
        } else {
            (-min) as u64
        };
        match parse_bounded(s, 1, s.len(), limit) {
            None => None,
            Some(n) => {
                if n == 9223372036854775808u64 {
                    Some(i64::MIN)
                } else {
                    Some(-(n as i64))
                }
            },
        }
    } else {
        match parse_unsigned(s, max as u64) {
            None => None,
            Some(n) => Some(n as i64),
        }
    }
}

impl<'de> URLEncodedDeserializer<'de> {
    /// A reader at the start of `input`, standing in a key.
    pub fn new(input: &'de [u8]) -> (r: Self)
        ensures
            r.input@ == input@,
            r.side == ParsingSide::Key,
    {
        URLEncodedDeserializer { input, side: ParsingSide::Key }
    }

    /// What is left to read.
    pub fn remaining(&self) -> (r: &'de [u8])
        ensures
            r@ == self.input@,
    {
        self.input
    }

    /// The next byte, which stays where it is.
    pub fn peek(&self) -> (r: Result<u8, Error>)
        ensures
            r == (if self.input@.len() > 0 {
                Ok::<u8, Error>(self.input@[0])
            } else {
                Err::<u8, Error>(Error::UnexpectedEnd)
            }),
    {
        if self.input.len() > 0 {
            Ok(self.input[0])
        } else {
            Err(Error::UnexpectedEnd)
        }
    }

    /// Takes the next byte.
    pub fn next(&mut self) -> (r: Result<u8, Error>)
        ensures
            final(self).side == old(self).side,
            r == (if old(self).input@.len() > 0 {
                Ok::<u8, Error>(old(self).input@[0])
            } else {
                Err::<u8, Error>(Error::UnexpectedEnd)
            }),
            final(self).input@ == (if old(self).input@.len() > 0 {
                old(self).input@.skip(1)
            } else {
                old(self).input@
            }),
    {
        if self.input.len() > 0 {
            let b: u8 = self.input[0];
            let rest = vstd::slice::slice_subrange(self.input, 1, self.input.len());
            assert(rest@ =~= self.input@.skip(1));
            self.input = rest;
            Ok(b)
        } else {
            Err(Error::UnexpectedEnd)
        }
    }

    /// Takes the next `n` bytes.
    pub fn take_n(&mut self, n: usize) -> (r: &'de [u8])
        requires
            n <= old(self).input@.len(),
        ensures
            final(self).side == old(self).side,
            r@ == old(self).input@.take(n as int),
            final(self).input@ == old(self).input@.skip(n as int),
    {
        let taken = vstd::slice::slice_subrange(self.input, 0, n);
        let rest = vstd::slice::slice_subrange(self.input, n, self.input.len());
        assert(taken@ =~= self.input@.take(n as int));
        assert(rest@ =~= self.input@.skip(n as int));
        self.input = rest;
        taken
    }

    /// Takes the next section: in a key, the bytes before the next `=`,
    /// which must be there and must not come first; in a value, the bytes
    /// before the next `&` or, without one, all that is left.  The reader
    /// stays where it is when the section cannot be read.
    pub fn next_section(&mut self) -> (r: Result<&'de [u8], Error>)
        ensures
            final(self).side == old(self).side,
            match section_len(old(self).input@, old(self).side) {
                Ok(n) => r is Ok && r->Ok_0@ == old(self).input@.take(n) && final(self).input@
                    == old(self).input@.skip(n),
                Err(e) => r == Err::<&[u8], Error>(e) && final(self).input@ == old(self).input@,
            },
    {
        let all: usize = self.input.len();
        proof {
            assert(self.input@.subrange(0, all as int) =~= self.input@);
            crate::bytes::lemma_index_of(self.input@, EQUALS);
            crate::bytes::lemma_index_of(self.input@, AMPERSAND);
            let e = index_of(self.input@, EQUALS);
            let a = index_of(self.input@, AMPERSAND);
            assert(self.input@.take(e).len() == e);
            assert(self.input@.take(a).len() == a);
            assert(self.input@.take(all as int) =~= self.input@);
        }
        match self.side {
            ParsingSide::Key => match find_in(self.input, 0, all, EQUALS) {
                None => Err(Error::MissingKey),
                Some(k) => {
                    if k == 0 {
                        Err(Error::EmptyKey)
                    } else {
                        Ok(self.take_n(k))
                    }
                },
            },
            ParsingSide::Value => match find_in(self.input, 0, all, AMPERSAND) {
                None => Ok(self.take_n(all)),
                Some(k) => Ok(self.take_n(k)),
            },
        }
    }

    /// Whether the value that comes next is empty.
    pub fn at_empty_value(&self) -> (r: bool)
        ensures
            r == (self.input@.len() == 0 || self.input@[0] == AMPERSAND),
    {
        self.input.len() == 0 || self.input[0] == AMPERSAND
    }

    /// Reads the next section as text: percent-decoded, and well-formed
    /// UTF-8.
    pub fn read_str(&mut self) -> (r: Result<String, Error>)
        ensures
            final(self).side == old(self).side,
            match section_len(old(self).input@, old(self).side) {
                Ok(n) => {
                    let bytes = percent_decoded(old(self).input@.take(n));
                    &&& final(self).input@ == old(self).input@.skip(n)
                    &&& match r {
                        Ok(text) => valid_utf8(bytes) && text@ == decode_utf8(bytes),
                        Err(e) => !valid_utf8(bytes) && e == Error::NotUtf8,
                    }
                },
                Err(e) => r == Err::<String, Error>(e) && final(self).input@ == old(self).input@,
            },
    {
        match self.next_section() {
            Err(e) => Err(e),
            Ok(section) => match percent_decode_strict(section) {
                Some(text) => Ok(text),
                None => Err(Error::NotUtf8),
            },
        }
    }

    /// Reads the next section as a single character.
    pub fn read_char(&mut self) -> (r: Result<char, Error>)
        ensures
            final(self).side == old(self).side,
            match section_len(old(self).input@, old(self).side) {
                Ok(n) => {
                    let bytes = percent_decoded(old(self).input@.take(n));
                    &&& final(self).input@ == old(self).input@.skip(n)
                    &&& r == (if !valid_utf8(bytes) {
                        Err::<char, Error>(Error::NotUtf8)
                    } else if decode_utf8(bytes).len() != 1 {
                        Err::<char, Error>(Error::NotAChar)
                    } else {
                        Ok::<char, Error>(decode_utf8(bytes)[0])
                    })
                },
                Err(e) => r == Err::<char, Error>(e) && final(self).input@ == old(self).input@,
            },
    {
        match self.read_str() {
            Err(e) => Err(e),
            Ok(text) => {
                if text.as_str().unicode_len() == 1 {
                    Ok(text.as_str().get_char(0))
                } else {
                    Err(Error::NotAChar)
                }
            },
        }
    }

    /// Reads an empty value.  The reader stays where it is.
    pub fn read_unit(&self) -> (r: Result<(), Error>)
        ensures
            r == (if self.input@.len() == 0 || self.input@[0] == AMPERSAND {
                Ok::<(), Error>(())
            } else {
                Err::<(), Error>(Error::NotUnit)
            }),
    {
        if self.at_empty_value() {
            Ok(())
        } else {
            Err(Error::NotUnit)
        }
    }

    /// Reads the next value as percent-decoded bytes.
    pub fn read_bytes(&mut self) -> (r: Vec<u8>)
        requires
            old(self).side == ParsingSide::Value,
        ensures
            final(self).side == old(self).side,
            ({
                let n = section_len(old(self).input@, ParsingSide::Value)->Ok_0;
                r@ == percent_decoded(old(self).input@.take(n)) && final(self).input@ == old(
                    self,
                ).input@.skip(n)
            }),
    {
        match self.next_section() {
            Ok(section) => percent_decode_bytes(section),
            Err(_) => Vec::new(),
        }
    }

    /// Reads the next value as `true` or `false`.
    pub fn read_bool(&mut self) -> (r: Result<bool, Error>)
        requires
            old(self).side == ParsingSide::Value,
        ensures
            final(self).side == old(self).side,
            ({
                let n = section_len(old(self).input@, ParsingSide::Value)->Ok_0;
                let section = old(self).input@.take(n);
                &&& final(self).input@ == old(self).input@.skip(n)
                &&& r == (if section == "true".spec_bytes() {
                    Ok::<bool, Error>(true)
                } else if section == "false".spec_bytes() {
                    Ok::<bool, Error>(false)
                } else {
                    Err::<bool, Error>(Error::NotABool)
                })
            }),
    {
        match self.next_section() {
            Ok(section) => {
                if bytes_eq(section, "true".as_bytes()) {
                    Ok(true)
                } else if bytes_eq(section, "false".as_bytes()) {
                    Ok(false)
                } else {
                    Err(Error::NotABool)
                }
            },
            Err(e) => Err(e),
        }
    }

    /// Reads the next value as an unsigned decimal that is no larger than
    /// `max`.
    pub fn read_unsigned(&mut self, max: u64) -> (r: Result<u64, Error>)
        requires
            old(self).side == ParsingSide::Value,
        ensures
            final(self).side == old(self).side,
            ({
                let n = section_len(old(self).input@, ParsingSide::Value)->Ok_0;
                let value = unsigned_value(old(self).input@.take(n));
                &&& final(self).input@ == old(self).input@.skip(n)
                &&& match r {
                    Ok(v) => value == Some(v as nat) && v <= max,
                    Err(e) => e == Error::NotANumber && (value is None || value->0 > max),
                }
            }),
    {
        match self.next_section() {
            Ok(section) => match parse_unsigned(section, max) {
                Some(v) => Ok(v),
                None => Err(Error::NotANumber),
            },
            Err(_) => Err(Error::NotANumber),
        }
    }

    /// Reads the next value as a signed decimal between `min` and `max`.
    pub fn read_signed(&mut self, min: i64, max: i64) -> (r: Result<i64, Error>)
        requires
            old(self).side == ParsingSide::Value,
            min <= 0 <= max,
        ensures
            final(self).side == old(self).side,
            ({
                let n = section_len(old(self).input@, ParsingSide::Value)->Ok_0;
                let value = signed_value(old(self).input@.take(n));
                &&& final(self).input@ == old(self).input@.skip(n)
                &&& match r {
                    Ok(v) => value == Some(v as int) && min <= v <= max,
                    Err(e) => e == Error::NotANumber && (value is None || !(min <= value->0
                        <= max)),
                }
            }),
    {
        match self.next_section() {
            Ok(section) => match parse_signed(section, min, max) {
                Some(v) => Ok(v),
                None => Err(Error::NotANumber),
            },
            Err(_) => Err(Error::NotANumber),
        }
    }
}

/// The walk over the pairs of URL-encoded data.
#[derive(Debug)]
pub struct AmpersandSeparated {
    /// Whether no pair has been read yet.
    pub first: bool,
}

impl AmpersandSeparated {
    /// A walk that has read no pair yet.
    pub fn new() -> (r: Self)
        ensures
            r.first,
    {
        AmpersandSeparated { first: true }
    }

    /// Moves the reader to the key of the next pair.  Returns whether there
    /// is a next pair: none is left when the input is used up.  After the
    /// first pair, a pair is reached over the `&` that must stand before it;
    /// where another byte stands there, that byte is taken and the walk
    /// fails.
    pub fn next_key(&mut self, de: &mut URLEncodedDeserializer) -> (r: Result<bool, Error>)
        ensures
            r == (if old(de).input@.len() == 0 {
                Ok::<bool, Error>(false)
            } else if !old(self).first && old(de).input@[0] != AMPERSAND {
                Err::<bool, Error>(Error::MissingAmpersand)
            } else {
                Ok::<bool, Error>(true)
            }),
            r == Ok::<bool, Error>(true) ==> !final(self).first && final(de).side
                == ParsingSide::Key && final(de).input@ == (if old(self).first {
                old(de).input@
            } else {
                old(de).input@.skip(1)
            }),
            r == Ok::<bool, Error>(false) ==> *final(self) == *old(self) && *final(de) == *old(de),
            r is Err ==> *final(self) == *old(self) && final(de).side == old(de).side
                && final(de).input@ == old(de).input@.skip(1),
    {
        if de.input.len() == 0 {
            return Ok(false);
        }
        if !self.first {
            match de.next() {
                Ok(b) => {
                    if b != AMPERSAND {
                        return Err(Error::MissingAmpersand);
                    }
                },
                Err(e) => {
                    return Err(e);
                },
            }
        }
        self.first = false;
        de.side = ParsingSide::Key;
        Ok(true)
    }

    /// Moves the reader from a key to its value, over the `=` that must
    /// stand between them; where another byte stands there, that byte is
    /// taken and the walk fails.
    pub fn next_value(&mut self, de: &mut URLEncodedDeserializer) -> (r: Result<(), Error>)
        ensures
            final(self).first == old(self).first,
            r == (if old(de).input@.len() == 0 {
                Err::<(), Error>(Error::UnexpectedEnd)
            } else if old(de).input@[0] != EQUALS {
                Err::<(), Error>(Error::MissingEquals)
            } else {
                Ok::<(), Error>(())
            }),
            r is Ok ==> final(de).side == ParsingSide::Value && final(de).input@ == old(
                de,
            ).input@.skip(1),
            r is Err ==> final(de).side == old(de).side,
            r == Err::<(), Error>(Error::UnexpectedEnd) ==> final(de).input@ == old(de).input@,
            r == Err::<(), Error>(Error::MissingEquals) ==> final(de).input@ == old(de).input@.skip(
                1,
            ),
    {
        match de.next() {
            Ok(b) => {
                if b != EQUALS {
                    return Err(Error::MissingEquals);
                }
            },
            Err(e) => {
                return Err(e);
            },
        }
        de.side = ParsingSide::Value;
        Ok(())
    }
}

/// The walk over the elements of a value that is a list.
#[derive(Debug)]
pub struct CommaSeparated<'de> {
    /// What is left of the value.
    pub section: &'de [u8],
    /// Whether no element has been read yet.
    pub first: bool,
}

impl<'de> CommaSeparated<'de> {
    /// A walk over the next value of `de`.
    pub fn new(de: &mut URLEncodedDeserializer<'de>) -> (r: Self)
        requires
            old(de).side == ParsingSide::Value,
        ensures
            r.first,
            final(de).side == old(de).side,
            ({
                let n = section_len(old(de).input@, ParsingSide::Value)->Ok_0;
                r.section@ == old(de).input@.take(n) && final(de).input@ == old(de).input@.skip(n)
            }),
    {
        let empty = vstd::slice::slice_subrange(de.input, 0, 0);
        let section = match de.next_section() {
            Ok(section) => section,
            Err(_) => empty,
        };
        CommaSeparated { section, first: true }
    }

    /// Takes the next element: the bytes before the next `,`.  Nothing is
    /// left when the value is used up.  After the first element, what is
    /// left must not start with `,`.
    pub fn next_element(&mut self) -> (r: Result<Option<&'de [u8]>, Error>)
        ensures
            old(self).section@.len() == 0 ==> r == Ok::<Option<&[u8]>, Error>(None) && *final(self)
                == *old(self),
            old(self).section@.len() > 0 && !old(self).first && old(self).section@[0] == COMMA ==> r
                == Err::<Option<&[u8]>, Error>(Error::MissingComma) && *final(self) == *old(self),
            old(self).section@.len() > 0 && (old(self).first || old(self).section@[0] != COMMA)
                ==> {
                let k = index_of(old(self).section@, COMMA);
                &&& r is Ok
                &&& r->Ok_0 is Some
                &&& r->Ok_0->0@ == old(self).section@.take(k)
                &&& final(self).section@ == old(self).section@.skip(k)
                &&& !final(self).first
            },
    {
        if self.section.len() == 0 {
            return Ok(None);
        }
        if !self.first && self.section[0] == COMMA {
            return Err(Error::MissingComma);
        }
        self.first = false;
        let all: usize = self.section.len();
        let size: usize = crate::bytes::find_byte(self.section, 0, COMMA);
        assert(self.section@.skip(0) =~= self.section@);
        let element = vstd::slice::slice_subrange(self.section, 0, size);
        let rest = vstd::slice::slice_subrange(self.section, size, all);
        assert(element@ =~= self.section@.take(size as int));
        assert(rest@ =~= self.section@.skip(size as int));
        self.section = rest;
        Ok(Some(element))
    }
}

/// The access to a value that names a variant.
#[derive(Debug)]
pub struct Enum;

impl Enum {
    /// An access to the next value.
    pub fn new() -> Self {
        Enum
    }

    /// Takes the name of the variant: the next value of `de`.
    pub fn variant<'de>(&self, de: &mut URLEncodedDeserializer<'de>) -> (r: &'de [u8])
        requires
            old(de).side == ParsingSide::Value,
        ensures
            final(de).side == old(de).side,
            ({
                let n = section_len(old(de).input@, ParsingSide::Value)->Ok_0;
                r@ == old(de).input@.take(n) && final(de).input@ == old(de).input@.skip(n)
            }),
    {
        let empty = vstd::slice::slice_subrange(de.input, 0, 0);
        match de.next_section() {
            Ok(section) => section,
            Err(_) => empty,
        }
    }
}

} // verus!
