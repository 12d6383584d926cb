use dht::str_utl::{
    base32_decode, is_digit, is_whitespace, parse_int, split_string, to_upper, trim,
    unescape_bytes, unescape_string, Error,
};

fn assert_tuple_eq(a: (&[u8], &[u8]), b: (&[u8], &[u8])) {
    assert_eq!(a, b);
}

#[test]
fn test_split_string() {
    assert_tuple_eq(split_string(b"a b", b' '), (b"a", b"b"));
    assert_tuple_eq(split_string(b"\"a b\" c", b' '), (b"\"a b\"", b"c"));
    assert_tuple_eq(
        split_string(b"\"a b\"foobar c", b' '),
        (b"\"a b\"foobar", b"c"),
    );
    assert_tuple_eq(split_string(b"a\nb foobar", b' '), (b"a\nb", b"foobar"));
    assert_tuple_eq(split_string(b"a b\"foo\"bar", b'"'), (b"a b", b"foo\"bar"));
    assert_tuple_eq(split_string(b"a", b' '), (b"a", b""));
    assert_tuple_eq(split_string(b"\"a b", b' '), (b"\"a b", b""));
    assert_tuple_eq(split_string(b"", b' '), (b"", b""));
}

#[test]
fn test_unescape_string() {
    let test_string = "!%40%23%24%25%5e%26*()-_%3d%2b%2f%2c.%20%25%3f";
    let expected = "!@#$%^&*()-_=+/,. %?";
    let actual = unescape_string(test_string.as_bytes()).unwrap();
    assert_eq!(expected, actual);
}

#[test]
fn test_base32_decode() {
    assert_eq!(base32_decode(b""), b"");
    assert_eq!(base32_decode(b"MY======"), b"f");
    assert_eq!(base32_decode(b"MZXQ===="), b"fo");
    assert_eq!(base32_decode(b"MZXW6==="), b"foo");
    assert_eq!(base32_decode(b"MZXW6YQ="), b"foob");
    assert_eq!(base32_decode(b"MZXW6YTB"), b"fooba");
    assert_eq!(base32_decode(b"MZXW6YTBOI======"), b"foobar");

    assert_eq!(base32_decode(b"MY"), b"f");
    assert_eq!(base32_decode(b"MZXW6YQ"), b"foob");
    assert_eq!(base32_decode(b"MZXW6YTBOI"), b"foobar");
    assert_eq!(base32_decode(b"mZXw6yTBO1======"), b"foobar");

    // make sure invalid encoding returns the empty string
    assert_eq!(base32_decode(b"mZXw6yTBO1{#&*()="), b"");
}

#[test]
fn test_trim() {
    assert_eq!(trim(b""), b"");
    assert_eq!(trim(b"  "), b"");
    assert_eq!(trim(b" \t \r \n "), b"");
    assert_eq!(trim(b" \t \r \n a"), b"a");
    assert_eq!(trim(b" \t \r \n a \t"), b"a");
    assert_eq!(trim(b" \t \r \n a \t   p"), b"a \t   p");
    assert_eq!(trim(b"a \t   p  "), b"a \t   p");
    assert_eq!(trim(b"a \t   p  \n"), b"a \t   p");
}

#[test]
fn escapes_must_be_whole() {
    assert_eq!(Ok(b"a b".to_vec()), unescape_bytes(b"a+b"));
    assert_eq!(Ok(vec![0xff, b'z']), unescape_bytes(b"%fFz"));
    assert_eq!(Err(Error::InvalidEscapedString), unescape_bytes(b"abc%"));
    assert_eq!(Err(Error::InvalidEscapedString), unescape_bytes(b"abc%4"));
    assert_eq!(Err(Error::InvalidEscapedString), unescape_bytes(b"%4g"));
    assert_eq!(Err(Error::InvalidEscapedString), unescape_bytes(b"%g4"));
    assert_eq!(Err(Error::InvalidEscapedString), unescape_string(b"%ff"));
    assert_eq!(Ok(String::new()), unescape_string(b""));
}

#[test]
fn bytes_are_told_apart() {
    assert_eq!(b'A', to_upper(b'a'));
    assert_eq!(b'Z', to_upper(b'z'));
    assert_eq!(b'Z', to_upper(b'Z'));
    assert_eq!(b'1', to_upper(b'1'));
    assert_eq!(b'{', to_upper(b'{'));
    assert!(is_digit(b'0') && is_digit(b'9') && !is_digit(b'a') && !is_digit(b'/'));
    for c in [b' ', b'\r', b'\n', b'\t'] {
        assert!(is_whitespace(c));
    }
    assert!(!is_whitespace(b'a') && !is_whitespace(0));
}

#[test]
fn parse_int_reads_a_signed_number() {
    assert_eq!(Ok(0), parse_int(b"0"));
    assert_eq!(Ok(42), parse_int(b"+42"));
    assert_eq!(Ok(-42), parse_int(b"-42"));
    assert_eq!(Ok(7), parse_int(b"007"));
    assert_eq!(Ok(isize::MAX), parse_int(isize::MAX.to_string().as_bytes()));
    assert_eq!(Ok(isize::MIN), parse_int(isize::MIN.to_string().as_bytes()));
    assert_eq!(Err(Error::ParseInt), parse_int(b"9223372036854775808"));
    assert_eq!(Err(Error::ParseInt), parse_int(b"-9223372036854775809"));
    assert_eq!(Err(Error::ParseInt), parse_int(b""));
    assert_eq!(Err(Error::ParseInt), parse_int(b"-"));
    assert_eq!(Err(Error::ParseInt), parse_int(b"1 "));
    assert_eq!(Err(Error::ParseInt), parse_int(b"\xff"));
}
