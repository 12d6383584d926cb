use dht::ValueRef;

fn assert_bytes_eq(expected: &[u8], actual: &[u8]) {
    assert_eq!(expected.len(), actual.len());
    assert!(!expected.iter().zip(actual.iter()).any(|(a, b)| a != b));
}

#[test]
fn borrow_simple_test() {
    let value = ValueRef::decode(b"d1:ad1:bi1e1:c4:abcde1:di3ee").unwrap();
    match &value {
        ValueRef::Dict(_) => {
            let a = value.dict_find("a").unwrap();
            match a {
                ValueRef::Dict(_) => {
                    assert!(a.dict_find("b").unwrap().is_int());
                    assert!(a.dict_find("c").unwrap().is_string());
                }
                _ => panic!("Expected Dict"),
            }
            assert!(value.dict_find("d").unwrap().is_int());
        }
        _ => panic!("Expected Dict"),
    }
}

#[test]
fn borrow_encode_str() {
    let s = ValueRef::with_str("Hello world");
    let mut w = vec![];
    s.encode(&mut w);
    assert_bytes_eq(b"11:Hello world", &w);
}

#[test]
fn borrow_encode_i64() {
    let s = ValueRef::with_int(100);
    let mut w = vec![];
    s.encode(&mut w);
    assert_bytes_eq(b"i100e", &w);
}

#[test]
fn borrow_encode_list() {
    let v = ValueRef::with_list(vec![
        ValueRef::with_int(100),
        ValueRef::with_str("hello"),
        ValueRef::with_str("world"),
    ]);
    assert_eq!("li100e5:hello5:worlde", v.to_string());
}

#[test]
fn borrow_encode_dict() {
    let m = vec![("hello", ValueRef::with_str("world"))];
    let v = ValueRef::with_dict(m);
    assert_eq!("d5:hello5:worlde", v.to_string());
}

#[test]
fn borrow_decode_str() {
    let v = ValueRef::decode(b"10:helloworld").unwrap();
    let s = v.as_str_bytes().unwrap();
    assert_eq!(b"helloworld", s);
}

#[test]
fn borrow_decode_i64() {
    let v = ValueRef::decode(b"i100e").unwrap();
    let s: i64 = v.as_int().unwrap();
    assert_eq!(100, s);
}

#[test]
fn borrow_decode_list() {
    let v = ValueRef::decode(b"li100e10:helloworldli100e2:24ee").unwrap();

    let list = v.as_list().unwrap();
    assert_eq!(100, list[0].as_int().unwrap());
    assert_eq!(b"helloworld", list[1].as_str_bytes().unwrap());

    let sublist = list[2].as_list().unwrap();
    assert_eq!(100, sublist[0].as_int().unwrap());
    assert_eq!(b"24", sublist[1].as_str_bytes().unwrap());
}

#[test]
fn borrow_decode_dict() {
    let v = ValueRef::decode(b"d5:hello5:worlde").unwrap();
    let map = v.as_dict().unwrap();
    assert_eq!(1, map.len());
    assert_eq!(b"world", v.dict_find("hello").unwrap().as_str_bytes().unwrap());
}

#[test]
fn borrow_decode_dict_2() {
    let v = ValueRef::decode(b"d3:cow3:moo4:spam4:eggse").unwrap();
    let map = v.as_dict().unwrap();
    assert_eq!(2, map.len());
    assert_eq!(b"moo", v.dict_find("cow").unwrap().as_str_bytes().unwrap());
    assert_eq!(b"eggs", v.dict_find("spam").unwrap().as_str_bytes().unwrap());
}

#[test]
fn to_owned() {
    let v = ValueRef::decode(b"d3:cow3:moo4:spam4:eggse").unwrap();
    assert_eq!("d3:cow3:moo4:spam4:eggse", v.to_string());
    let v = v.to_owned();
    assert_eq!("d3:cow3:moo4:spam4:eggse", v.to_string());
}
