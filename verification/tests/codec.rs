use dht::reader::Reader;
use dht::text::{parse_integer, parse_length, push_decimal, push_integer};
use dht::{Error, Value, ValueRef};

#[test]
fn integers_are_strict() {
    assert_eq!(Some(0), parse_integer(b"0"));
    assert_eq!(Some(0), parse_integer(b"-0"));
    assert_eq!(Some(-17), parse_integer(b"-17"));
    assert_eq!(Some(i64::MIN), parse_integer(b"-9223372036854775808"));
    assert_eq!(Some(i64::MAX), parse_integer(b"9223372036854775807"));
    assert_eq!(None, parse_integer(b"-9223372036854775809"));
    assert_eq!(None, parse_integer(b"9223372036854775808"));
    assert_eq!(None, parse_integer(b"+5"));
    assert_eq!(None, parse_integer(b"05"));
    assert_eq!(None, parse_integer(b"-05"));
    assert_eq!(None, parse_integer(b""));
    assert_eq!(None, parse_integer(b"-"));
    assert_eq!(None, parse_integer(b"1a"));
    assert_eq!(None, parse_integer(b"99999999999999999999999999"));
    assert_eq!(Err(Error::ParseInt), Value::decode(b"i+5e"));
    assert_eq!(Err(Error::ParseInt), Value::decode(b"i05e"));
    assert_eq!(Err(Error::ParseInt), Value::decode(b"ie"));
    assert_eq!(Ok(Value::with_int(0)), Value::decode(b"i-0e"));
}

#[test]
fn lengths_allow_leading_zeros() {
    assert_eq!(Some(5), parse_length(b"005"));
    assert_eq!(Some(0), parse_length(b"0"));
    assert_eq!(None, parse_length(b""));
    assert_eq!(None, parse_length(b"-1"));
    assert_eq!(Some(9223372036854775807), parse_length(b"9223372036854775807"));
    assert_eq!(None, parse_length(b"9223372036854775808"));
    assert_eq!(Ok(Value::with_str("ab")), Value::decode(b"02:ab"));
    assert_eq!(Err(Error::ParseInt), Value::decode(b"9223372036854775808:ab"));
    assert_eq!(Err(Error::ParseInt), Value::decode(b"1x:ab"));
}

#[test]
fn numbers_are_written_in_decimal() {
    let mut out = b"x".to_vec();
    push_decimal(&mut out, 0);
    push_decimal(&mut out, 10);
    push_decimal(&mut out, 18446744073709551615);
    assert_eq!(b"x01018446744073709551615".to_vec(), out);
    let mut out = vec![];
    push_integer(&mut out, -1);
    push_integer(&mut out, i64::MIN);
    push_integer(&mut out, i64::MAX);
    assert_eq!(b"-1-92233720368547758089223372036854775807".to_vec(), out);
    assert_eq!("i-9223372036854775808e", Value::with_int(i64::MIN).to_string());
}

#[test]
fn errors_name_their_cause() {
    assert_eq!(Err(Error::InvalidChar(b'e')), Value::decode(b"e"));
    assert_eq!(Err(Error::InvalidChar(b'x')), Value::decode(b"x"));
    assert_eq!(Err(Error::InvalidChar(b'-')), ValueRef::decode(b"-10:helloworld"));
    assert_eq!(Err(Error::EOF), Value::decode(b"i1ei2e"));
    assert_eq!(Err(Error::EOF), Value::decode(b"l"));
    assert_eq!(Err(Error::EOF), Value::decode(b"dl"));
    assert_eq!(Err(Error::ParseDict), Value::decode(b"d1:a"));
    assert_eq!(Err(Error::ParseDict), Value::decode(b"d"));
    assert_eq!(Err(Error::ParseDict), ValueRef::decode(b"ld1:ai1e"));
    assert_eq!(Err(Error::EOF), Value::decode(b"i"));
    assert_eq!(Err(Error::EOF), Value::decode(b"3:ab"));
    assert_eq!(Err(Error::ExpectedChar(b'e')), Value::decode(b"i12"));
    assert_eq!(Err(Error::ExpectedChar(b':')), Value::decode(b"12"));
    assert_eq!(Err(Error::ParseDict), Value::decode(b"dli1eee"));
    assert_eq!(Ok(Value::with_str("")), Value::decode(b"0:"));
    assert!(Error::EOF.is_end_of_input());
    assert!(!Error::ParseInt.is_end_of_input());
    assert_eq!(Some(b'x'), Error::InvalidChar(b'x').byte());
    assert_eq!(None, Error::DepthLimit.byte());
}

#[test]
fn depth_limit_is_inclusive() {
    let nested = |d: usize| {
        let mut b = vec![b'l'; d];
        b.extend(vec![b'e'; d]);
        b
    };
    for limit in [0usize, 1, 2, 7] {
        for d in 1..10usize {
            let bytes = nested(d);
            let r = ValueRef::decode_with_limits(&bytes, Some(limit), None);
            if d <= limit {
                assert!(r.is_ok());
            } else {
                assert_eq!(Err(Error::DepthLimit), r.map(|_| ()));
            }
        }
    }
    assert!(Value::decode_with_limits(&nested(1024), Some(1024), None).is_ok());
    assert_eq!(
        Err(Error::DepthLimit),
        Value::decode_with_limits(&nested(1025), Some(1024), None)
    );
    assert!(Value::decode_with_limits(b"i1e", Some(0), None).is_ok());
    assert_eq!(
        Err(Error::DepthLimit),
        Value::decode_with_limits(b"d1:ai1ee", Some(0), None)
    );
}

#[test]
fn item_limit_counts_what_came_before() {
    let mut buf = vec![b'l'];
    for _ in 0..511 {
        buf.extend_from_slice(b"0:");
    }
    buf.push(b'e');
    assert_eq!(
        Err(Error::ItemLimit),
        ValueRef::decode_with_limits(&buf, None, Some(510)).map(|_| ())
    );
    assert!(ValueRef::decode_with_limits(&buf, None, Some(511)).is_ok());
    assert!(ValueRef::decode_with_limits(b"i1e", None, Some(0)).is_ok());
    assert_eq!(
        Err(Error::ItemLimit),
        ValueRef::decode_with_limits(b"li1ei2ee", None, Some(1)).map(|_| ())
    );
    assert!(ValueRef::decode_with_limits(b"li1ee", None, Some(1)).is_ok());
}

#[test]
fn round_trip_and_sorted_keys() {
    let v = Value::with_dict(vec![
        ("zz".to_owned(), Value::with_int(-3)),
        ("a".to_owned(), Value::with_list(vec![Value::with_str(""), Value::with_int(0)])),
        ("ab".to_owned(), Value::with_dict(vec![])),
        ("a".to_owned(), Value::with_str("later")),
        ("B".to_owned(), Value::with_string("x".to_owned())),
    ]);
    assert_eq!("d1:B1:x1:a5:later2:abde2:zzi-3ee", v.to_string());
    let bytes = v.to_vec();
    assert_eq!(Ok(&v), Value::decode(&bytes).as_ref());
    let r = ValueRef::decode(&bytes).unwrap();
    assert_eq!(bytes, r.to_vec());
    assert_eq!(v, r.to_owned());
    assert_eq!(r, v.as_ref());
    // Of two entries with one key the decoder keeps the first.
    let twice = Value::decode(b"d1:ai1e1:ai2ee").unwrap();
    assert_eq!(Some(1), twice.dict_find_int_value("a"));
    assert_eq!(Some(1), twice.dict_len());
}

#[test]
fn values_are_taken_apart() {
    let mut v = Value::decode(b"d1:lli1e3:twoe1:s3:abce").unwrap();
    assert!(v.is_dict() && !v.is_list() && !v.is_int() && !v.is_string());
    assert_eq!(None, v.as_int());
    assert_eq!(Some("abc"), v.dict_find_str_value("s"));
    assert_eq!(Some(&b"abc"[..]), v.dict_find("s").unwrap().as_bytes());
    assert_eq!(Some(2), v.dict_find("l").unwrap().list_len());
    assert_eq!(Some("two"), v.dict_find("l").unwrap().list_string_value_at(1));
    assert_eq!(None, v.dict_find("l").unwrap().list_string_value_at(0));
    assert_eq!(None, v.dict_find("l").unwrap().list_at(2));
    assert_eq!(2, v.dict_find_list_value("l").unwrap().len());
    assert!(v.dict_insert("n", Value::with_int(9)));
    assert!(v.dict_insert("s", Value::with_int(8)));
    assert_eq!("d1:lli1e3:twoe1:ni9e1:si8ee", v.to_string());
    assert_eq!(Ok(()), v.append_to_list("l", vec![Value::with_int(3)]));
    assert_eq!(Err(Error::ParseList), v.append_to_list("n", vec![]));
    assert_eq!(Err(Error::ParseList), v.append_to_list("none", vec![]));
    assert_eq!("d1:lli1e3:twoi3ee1:ni9e1:si8ee", v.to_string());
    v.as_dict_mut().unwrap().clear();
    assert_eq!("de", v.to_string());
    let mut l = Value::with_list(vec![]);
    assert!(!l.dict_insert("a", Value::with_int(1)));
    assert_eq!(Err(Error::ParseDict), l.append_to_list("a", vec![]));
    l.as_list_mut().unwrap().push(Value::with_str("x"));
    assert_eq!(Some(vec![Value::with_str("x")]), l.into_list());
    assert_eq!(None, Value::with_int(1).into_list());
    assert_eq!(Some("x".to_owned()), Value::with_str("x").into_string());
    assert_eq!(None, Value::Bytes(vec![0xff]).into_string());
    assert_eq!(None, Value::Bytes(vec![0xff]).as_str());
    assert_eq!(Some(vec![]), Value::with_dict(vec![]).into_dict());
    let r = ValueRef::with_dict(vec![("k", ValueRef::with_int(1))]);
    assert_eq!(Some(1), r.dict_find_int_value("k"));
    assert_eq!(Some(1), r.dict_len());
    assert!(r.dict_find_dict("k").is_none() && r.dict_find_list("k").is_none());
    assert!(r.dict_find_str("k").is_none() && r.dict_find_int("k").is_some());
    assert_eq!(Some(vec![(&b"k"[..], ValueRef::with_int(1))]), r.into_dict());
}

#[test]
fn the_reader_reads() {
    let mut r = Reader::new(b"ab:cd");
    assert_eq!(Some(b'a'), r.next_byte());
    r.move_back();
    assert_eq!(Ok(&b"ab"[..]), r.read_until(b':'));
    assert_eq!(3, r.consumed());
    assert_eq!(Err(Error::ExpectedChar(b'#')), r.read_until(b'#'));
    assert_eq!(3, r.consumed());
    assert_eq!(Err(Error::EOF), r.read_exact(3));
    assert_eq!(5, r.consumed());
    assert_eq!(None, r.next_byte());
    assert_eq!(Err(Error::EOF), r.read_until(b':'));
    assert_eq!(Ok(&b""[..]), r.read_exact(0));
    let mut r = Reader::new(b"-12e");
    assert_eq!(Ok(-12), r.read_int_until(b'e'));
    let mut r = Reader::new(b"1 2e");
    assert_eq!(Err(Error::ParseInt), r.read_int_until(b'e'));
}

#[test]
fn bytes_that_are_no_text_show_as_replacement_signs() {
    assert_eq!("1:\u{fffd}", Value::Bytes(vec![0xff]).to_string());
    assert_eq!("2:h\u{fffd}", ValueRef::Bytes(&[b'h', 0x80]).to_string());
    assert_eq!(None, ValueRef::Bytes(&[b'h', 0x80]).as_str());
    assert_eq!(Some("h\u{e9}"), ValueRef::Bytes("h\u{e9}".as_bytes()).as_str());
}

#[test]
fn whatever_follows_the_value_is_refused() {
    assert_eq!(Err(Error::EOF), Value::decode(b"i1ee"));
    assert_eq!(Err(Error::EOF), ValueRef::decode(b"i1ee"));
    assert_eq!(Err(Error::EOF), Value::decode(b"lee"));
    assert_eq!(Err(Error::EOF), ValueRef::decode(b"dee"));
    assert_eq!(Err(Error::EOF), Value::decode(b"1:ax"));
    assert_eq!(Err(Error::EOF), ValueRef::decode(b"le "));
    assert_eq!(Err(Error::InvalidChar(b'e')), ValueRef::decode(b"e"));
}

#[test]
fn sorted_values_are_told_from_others() {
    assert!(Value::with_int(1).is_sorted());
    assert!(Value::with_str("b").is_sorted());
    let made = Value::with_dict(vec![
        ("b".to_owned(), Value::with_int(1)),
        ("a".to_owned(), Value::with_int(2)),
    ]);
    assert!(made.is_sorted());
    assert_eq!(b"d1:ai2e1:bi1ee".to_vec(), made.to_vec());
    let decoded = ValueRef::decode(b"d1:bi1e1:ald1:zi0e1:yi0eeee").unwrap();
    assert!(decoded.is_sorted());
    assert_eq!(b"d1:ald1:yi0e1:zi0eee1:bi1ee".to_vec(), decoded.to_vec());

    let unsorted = Value::Dict(vec![
        (b"b".to_vec(), Value::with_int(1)),
        (b"a".to_vec(), Value::with_int(2)),
    ]);
    assert!(!unsorted.is_sorted());
    let twice = Value::Dict(vec![
        (b"a".to_vec(), Value::with_int(1)),
        (b"a".to_vec(), Value::with_int(2)),
    ]);
    assert!(!twice.is_sorted());
    let inside = Value::with_list(vec![Value::with_int(0), unsorted]);
    assert!(!inside.is_sorted());
    let below = Value::Dict(vec![(b"k".to_vec(), inside)]);
    assert!(!below.is_sorted());
    let borrowed = ValueRef::Dict(vec![
        (&b"b"[..], ValueRef::with_int(1)),
        (&b"a"[..], ValueRef::with_int(2)),
    ]);
    assert!(!borrowed.is_sorted());
    let prefix = ValueRef::Dict(vec![
        (&b"a"[..], ValueRef::with_int(1)),
        (&b"ab"[..], ValueRef::with_int(2)),
    ]);
    assert!(prefix.is_sorted());
}

#[test]
fn text_for_display_replaces_what_is_no_text() {
    let v = Value::Bytes(vec![0x61, 0xff, 0x62]);
    assert_eq!("3:a\u{fffd}b", v.to_string());
    let r = ValueRef::decode(b"l2:\xc3\x28e").unwrap();
    assert_eq!("l2:\u{fffd}(e", r.to_string());
    assert_eq!("li1e2:abe", ValueRef::decode(b"li1e2:abe").unwrap().to_string());
}
