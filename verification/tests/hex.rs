use dht::hex::{from_hex, hex_to_int, is_hex, to_hex};

#[test]
fn test_from_hex() {
    let s = b"0123456789012345678901234567890123456789";
    let mut out = [0u8; 20];
    assert!(from_hex(s, &mut out));
}

#[test]
fn test_to_hex() {
    assert_eq!(to_hex(b"\x55\x73"), "5573");
    assert_eq!(to_hex(b"\xaB\xd0"), "abd0");
}

#[test]
fn test_is_hex() {
    let hex_chars = b"0123456789abcdefABCDEF";
    for i in 1..255 {
        let hex_loop = hex_chars.iter().any(|&c| c == i);
        assert_eq!(is_hex(&[i]), hex_loop);
    }
}

#[test]
fn test_hex_to_int() {
    assert_eq!(hex_to_int(b'0'), Some(0));
    assert_eq!(hex_to_int(b'7'), Some(7));
    assert_eq!(hex_to_int(b'a'), Some(10));
    assert_eq!(hex_to_int(b'f'), Some(15));
    assert_eq!(hex_to_int(b'b'), Some(11));
    assert_eq!(hex_to_int(b't'), None);
    assert_eq!(hex_to_int(b'g'), None);
}

#[test]
fn from_hex_reads_pairs() {
    let mut out = [0xeeu8; 4];
    assert!(from_hex(b"00fFa1", &mut out));
    assert_eq!([0x00, 0xff, 0xa1, 0xee], out);
    let mut out = [0u8; 4];
    assert!(!from_hex(b"abc", &mut out));
    assert!(!from_hex(b"zz", &mut out));
    assert!(from_hex(b"", &mut out));
}

#[test]
fn a_failed_read_keeps_the_pairs_before_the_failure() {
    let mut out = [0xeeu8; 4];
    assert!(!from_hex(b"0a1bxx2c", &mut out));
    assert_eq!([0x0a, 0x1b, 0xee, 0xee], out);
    let mut out = [0xeeu8; 4];
    assert!(!from_hex(b"ff0", &mut out));
    assert_eq!([0xff, 0xee, 0xee, 0xee], out);
    let mut out = [0xeeu8; 4];
    assert!(!from_hex(b"0g", &mut out));
    assert_eq!([0xee; 4], out);
    let mut out = [0xeeu8; 4];
    assert!(from_hex(b"0A1b", &mut out));
    assert_eq!([0x0a, 0x1b, 0xee, 0xee], out);
}
