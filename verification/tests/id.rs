use dht::bigend::pad_to_twenty;
use dht::id::{Id, ParseError};

#[test]
fn does_parse() {
    let hash = "00000000000000000000";
    let id: Id = hash.parse().unwrap();
    assert_eq!(Id::from([48; 20]), id);
}

#[test]
fn does_not_parse() {
    let hash = "0000";
    let id: Result<Id, ParseError> = hash.parse();
    assert!(id.is_err());
    assert_eq!(
        ParseError {
            expected: 20,
            actual: 4
        },
        id.unwrap_err()
    );
}

#[test]
fn id_xor() {
    let a: Id = [1, 1, 1, 1, 1, 1, 1, 1, 1, 1, 1, 1, 1, 1, 1, 1, 1, 1, 1, 1].into();
    let b: Id = [0, 0, 0, 0, 0, 0, 0, 0, 0, 0, 0, 0, 0, 0, 0, 0, 0, 0, 0, 2].into();
    let expected: Id = [1, 1, 1, 1, 1, 1, 1, 1, 1, 1, 1, 1, 1, 1, 1, 1, 1, 1, 1, 3].into();
    assert_eq!(
        expected,
        Id::from_hash(&a.to_hash().bitxor(&b.to_hash()))
    );
}

#[test]
fn at_dist() {
    let id: Id = [0; 20].into();
    let far = id.at_dist(6);
    let mut buf = [0; 20];
    buf[19] = 0x3F;
    let expected: Id = buf.into();
    assert_eq!(expected, far);
}

#[test]
fn get_dist() {
    let id: Id = [0; 20].into();
    let far = id.at_dist(6);
    assert_eq!(6, far.dist_to(&id));
}

#[test]
fn rand() {
    let lo = [0; 20].into();
    let hi = [1; 20].into();

    let random = Id::ranged_random(&lo, &hi);
    assert!(random >= lo);
    assert!(random < hi);
}

#[test]
fn at_dist_sets_the_low_bits() {
    let id: Id = [0; 20].into();
    let mut buf = [0u8; 20];
    buf[19] = 0xff;
    assert_eq!(Id::from(buf), id.at_dist(8));
    buf[18] = 0x01;
    assert_eq!(Id::from(buf), id.at_dist(9));
    buf[18] = 0xff;
    assert_eq!(Id::from(buf), id.at_dist(16));
    let all = id.at_dist(159);
    assert_eq!(0x7f, all.0[0]);
    assert_eq!(159, all.dist_to(&id));
    assert_eq!(0, id.dist_to(&id));
    let ones: Id = [0xff; 20].into();
    assert_eq!(Id::from([0xf0; 20]), Id::from_hash(&Id::from([0x0f; 20]).at_dist(1).at_dist(1).to_hash().not()));
    assert_eq!(160, ones.dist_to(&id));
}

#[test]
fn random_ids_differ_and_show_as_hex() {
    let a = Id::new();
    let b = Id::new();
    assert_ne!(a, b);
    assert_eq!(40, a.to_string().len());
    let id: Id = "AAAAAAAAAAAAAAAAAAAA".parse().unwrap();
    assert_eq!("4141414141414141414141414141414141414141", id.to_string());
    let narrow_lo: Id = [7; 20].into();
    let mut hi = [7u8; 20];
    hi[19] = 8;
    let narrow_hi: Id = hi.into();
    assert_eq!(narrow_lo, Id::ranged_random(&narrow_lo, &narrow_hi));
}

#[test]
fn short_numbers_are_padded_in_front() {
    assert_eq!([0u8; 20], pad_to_twenty(&[]));
    let mut expected = [0u8; 20];
    expected[18] = 1;
    expected[19] = 2;
    assert_eq!(expected, pad_to_twenty(&[1, 2]));
    let long: Vec<u8> = (0u8..25).collect();
    let last: Vec<u8> = (5u8..25).collect();
    assert_eq!(&last[..], &pad_to_twenty(&long)[..]);
    let exact: Vec<u8> = (1u8..21).collect();
    assert_eq!(&exact[..], &pad_to_twenty(&exact)[..]);
}
