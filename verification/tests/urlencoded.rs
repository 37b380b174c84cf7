use ohkami::bytes::{
    bytes_eq, eq_ignore_ascii_case, find_byte, parse_bounded, parse_number, to_decimal, trim_range,
};
use ohkami::urlencoded::{
    parse_signed, parse_unsigned, AmpersandSeparated, CommaSeparated, Enum, Error, ParsingSide,
    URLEncodedDeserializer,
};

#[test]
fn sections_are_cut_by_side() {
    let mut de = URLEncodedDeserializer::new(b"name=ohkami&age=4");
    assert_eq!(de.side, ParsingSide::Key);
    assert_eq!(de.remaining(), b"name=ohkami&age=4");
    assert_eq!(de.peek(), Ok(b'n'));
    assert_eq!(de.next_section(), Ok(&b"name"[..]));
    assert_eq!(de.next(), Ok(b'='));
    de.side = ParsingSide::Value;
    assert_eq!(de.next_section(), Ok(&b"ohkami"[..]));
    assert_eq!(de.remaining(), b"&age=4");
    assert_eq!(de.take_n(1), b"&");
    de.side = ParsingSide::Key;
    assert_eq!(de.next_section(), Ok(&b"age"[..]));
    assert_eq!(de.take_n(1), b"=");
    de.side = ParsingSide::Value;
    assert_eq!(de.next_section(), Ok(&b"4"[..]));
    assert_eq!(de.remaining(), b"");
    assert_eq!(de.next_section(), Ok(&b""[..]));
    assert_eq!(de.peek(), Err(Error::UnexpectedEnd));
    assert_eq!(de.next(), Err(Error::UnexpectedEnd));
}

#[test]
fn a_key_needs_an_equals_sign_and_a_name() {
    let mut de = URLEncodedDeserializer::new(b"novalue");
    assert_eq!(de.next_section(), Err(Error::MissingKey));
    assert_eq!(de.remaining(), b"novalue");
    let mut de = URLEncodedDeserializer::new(b"=v");
    assert_eq!(de.next_section(), Err(Error::EmptyKey));
    assert_eq!(de.remaining(), b"=v");
    let mut de = URLEncodedDeserializer::new(b"");
    assert_eq!(de.next_section(), Err(Error::MissingKey));
}

#[test]
fn pairs_are_walked_over_ampersands() {
    let mut de = URLEncodedDeserializer::new(b"a=1&b=true&c=");
    let mut pairs = AmpersandSeparated::new();
    assert_eq!(pairs.next_key(&mut de), Ok(true));
    assert_eq!(de.read_str(), Ok("a".to_string()));
    assert_eq!(pairs.next_value(&mut de), Ok(()));
    assert_eq!(de.read_unsigned(255), Ok(1));
    assert_eq!(pairs.next_key(&mut de), Ok(true));
    assert_eq!(de.read_str(), Ok("b".to_string()));
    assert_eq!(pairs.next_value(&mut de), Ok(()));
    assert_eq!(de.read_bool(), Ok(true));
    assert_eq!(pairs.next_key(&mut de), Ok(true));
    assert_eq!(de.read_str(), Ok("c".to_string()));
    assert_eq!(pairs.next_value(&mut de), Ok(()));
    assert!(de.at_empty_value());
    assert_eq!(de.read_unit(), Ok(()));
    assert_eq!(pairs.next_key(&mut de), Ok(false));
}

#[test]
fn misplaced_separators_are_errors() {
    let mut de = URLEncodedDeserializer::new(b"a=1;b=2");
    let mut pairs = AmpersandSeparated::new();
    assert_eq!(pairs.next_key(&mut de), Ok(true));
    assert_eq!(de.next_section(), Ok(&b"a"[..]));
    assert_eq!(pairs.next_value(&mut de), Ok(()));
    de.take_n(1);
    assert_eq!(de.remaining(), b";b=2");
    assert_eq!(pairs.next_key(&mut de), Err(Error::MissingAmpersand));
    assert_eq!(de.remaining(), b"b=2");
    assert!(!pairs.first);

    let mut de = URLEncodedDeserializer::new(b"&x");
    let mut pairs = AmpersandSeparated::new();
    assert_eq!(pairs.next_value(&mut de), Err(Error::MissingEquals));
    assert_eq!(de.remaining(), b"x");
    assert_eq!(de.side, ParsingSide::Key);
    let mut de = URLEncodedDeserializer::new(b"");
    assert_eq!(pairs.next_value(&mut de), Err(Error::UnexpectedEnd));
}

#[test]
fn text_is_percent_decoded_strictly() {
    let mut de = URLEncodedDeserializer::new(b"J%C3%BCrgen%20M&x");
    de.side = ParsingSide::Value;
    assert_eq!(de.read_str(), Ok("J\u{fc}rgen M".to_string()));
    assert_eq!(de.remaining(), b"&x");

    let mut de = URLEncodedDeserializer::new(b"%ff");
    de.side = ParsingSide::Value;
    assert_eq!(de.read_str(), Err(Error::NotUtf8));

    let mut de = URLEncodedDeserializer::new(b"%e3%81%82");
    de.side = ParsingSide::Value;
    assert_eq!(de.read_char(), Ok('\u{3042}'));
    let mut de = URLEncodedDeserializer::new(b"ab");
    de.side = ParsingSide::Value;
    assert_eq!(de.read_char(), Err(Error::NotAChar));
    let mut de = URLEncodedDeserializer::new(b"");
    de.side = ParsingSide::Value;
    assert_eq!(de.read_char(), Err(Error::NotAChar));

    let mut de = URLEncodedDeserializer::new(b"%00%ff%2&rest");
    de.side = ParsingSide::Value;
    assert_eq!(de.read_bytes(), vec![0u8, 255, b'%', b'2']);
    assert_eq!(de.remaining(), b"&rest");
}

#[test]
fn values_are_read_as_booleans_units_and_numbers() {
    let value = |input: &'static [u8]| {
        let mut de = URLEncodedDeserializer::new(input);
        de.side = ParsingSide::Value;
        de
    };
    assert_eq!(value(b"false").read_bool(), Ok(false));
    assert_eq!(value(b"True").read_bool(), Err(Error::NotABool));
    assert_eq!(value(b"").read_bool(), Err(Error::NotABool));
    assert_eq!(value(b"x").read_unit(), Err(Error::NotUnit));
    assert_eq!(value(b"&x").read_unit(), Ok(()));
    assert_eq!(value(b"255").read_unsigned(255), Ok(255));
    assert_eq!(value(b"256").read_unsigned(255), Err(Error::NotANumber));
    assert_eq!(value(b"+7").read_unsigned(255), Ok(7));
    assert_eq!(value(b"-7").read_unsigned(255), Err(Error::NotANumber));
    assert_eq!(value(b"18446744073709551615").read_unsigned(u64::MAX), Ok(u64::MAX));
    assert_eq!(value(b"18446744073709551616").read_unsigned(u64::MAX), Err(Error::NotANumber));
    assert_eq!(value(b"-128").read_signed(-128, 127), Ok(-128));
    assert_eq!(value(b"-129").read_signed(-128, 127), Err(Error::NotANumber));
    assert_eq!(value(b"127&x").read_signed(-128, 127), Ok(127));
    assert_eq!(value(b"128").read_signed(-128, 127), Err(Error::NotANumber));
    assert_eq!(value(b"1 ").read_signed(-128, 127), Err(Error::NotANumber));
}

#[test]
fn numbers_follow_the_decimal_grammar() {
    assert_eq!(parse_unsigned(b"0", 10), Some(0));
    assert_eq!(parse_unsigned(b"007", 10), Some(7));
    assert_eq!(parse_unsigned(b"+", 10), None);
    assert_eq!(parse_unsigned(b"", 10), None);
    assert_eq!(parse_unsigned(b"11", 10), None);
    assert_eq!(parse_unsigned(b"1a", 10), None);
    assert_eq!(parse_signed(b"-0", i64::MIN, i64::MAX), Some(0));
    assert_eq!(parse_signed(b"-", i64::MIN, i64::MAX), None);
    assert_eq!(parse_signed(b"+-1", i64::MIN, i64::MAX), None);
    assert_eq!(parse_signed(b"-9223372036854775808", i64::MIN, i64::MAX), Some(i64::MIN));
    assert_eq!(parse_signed(b"-9223372036854775809", i64::MIN, i64::MAX), None);
    assert_eq!(parse_signed(b"9223372036854775807", i64::MIN, i64::MAX), Some(i64::MAX));
    assert_eq!(parse_signed(b"9223372036854775808", i64::MIN, i64::MAX), None);
    assert_eq!(parse_signed(b"-32768", -32768, 32767), Some(-32768));
    assert_eq!(parse_bounded(b"x42y", 1, 3, 42), Some(42));
    assert_eq!(parse_bounded(b"x42y", 1, 3, 41), None);
    assert_eq!(parse_number(b"12345", 0, 5), Some(12345));
    assert_eq!(parse_number(b"12345", 2, 2), None);
}

#[test]
fn a_list_gives_its_first_element() {
    let mut de = URLEncodedDeserializer::new(b"a,b&next=1");
    de.side = ParsingSide::Value;
    let mut list = CommaSeparated::new(&mut de);
    assert_eq!(de.remaining(), b"&next=1");
    assert_eq!(list.next_element(), Ok(Some(&b"a"[..])));
    assert_eq!(list.section, b",b");
    assert_eq!(list.next_element(), Err(Error::MissingComma));

    let mut de = URLEncodedDeserializer::new(b"single");
    de.side = ParsingSide::Value;
    let mut list = CommaSeparated::new(&mut de);
    assert_eq!(list.next_element(), Ok(Some(&b"single"[..])));
    assert_eq!(list.next_element(), Ok(None));

    let mut de = URLEncodedDeserializer::new(b",x");
    de.side = ParsingSide::Value;
    let mut list = CommaSeparated::new(&mut de);
    assert_eq!(list.next_element(), Ok(Some(&b""[..])));
}

#[test]
fn a_variant_is_named_by_the_next_value() {
    let mut de = URLEncodedDeserializer::new(b"Male&x=1");
    de.side = ParsingSide::Value;
    assert_eq!(Enum::new().variant(&mut de), b"Male");
    assert_eq!(de.remaining(), b"&x=1");
}

#[test]
fn byte_string_helpers() {
    assert_eq!(find_byte(b"a/b/c", 0, b'/'), 1);
    assert_eq!(find_byte(b"a/b/c", 2, b'/'), 3);
    assert_eq!(find_byte(b"a/b/c", 4, b'/'), 5);
    assert!(bytes_eq(b"abc", b"abc"));
    assert!(!bytes_eq(b"abc", b"abd"));
    assert!(!bytes_eq(b"abc", b"ab"));
    assert!(eq_ignore_ascii_case(b"Content-Type", b"content-type"));
    assert!(!eq_ignore_ascii_case(b"[", b"{"));
    assert!(!eq_ignore_ascii_case(b"@", b"`"));
    assert_eq!(trim_range(b"  a b\t ", 0, 7), (2, 5));
    assert_eq!(trim_range(b"   ", 0, 3), (3, 3));
    assert_eq!(to_decimal(0), b"0".to_vec());
    assert_eq!(to_decimal(1024), b"1024".to_vec());
    assert_eq!(to_decimal(u64::MAX), b"18446744073709551615".to_vec());
}
