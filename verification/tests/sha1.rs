use dht::Sha1Hash;

#[test]
fn shift_left_01() {
    let mut s = Sha1Hash::max();
    s.shl_assign(5);
    assert_eq!(
        &[
            0xff, 0xff, 0xff, 0xff, 0xff, 0xff, 0xff, 0xff, 0xff, 0xff, 0xff, 0xff, 0xff, 0xff,
            0xff, 0xff, 0xff, 0xff, 0xff, 0xe0
        ],
        s.data()
    )
}

#[test]
fn shift_left_02() {
    let mut s = Sha1Hash::max();
    s.shl_assign(16);
    assert_eq!(
        &[
            0xff, 0xff, 0xff, 0xff, 0xff, 0xff, 0xff, 0xff, 0xff, 0xff, 0xff, 0xff, 0xff, 0xff,
            0xff, 0xff, 0xff, 0xff, 0x00, 0x00
        ],
        s.data()
    )
}

#[test]
fn shift_left_03() {
    let mut s = Sha1Hash::max();
    s.shl_assign(17);
    assert_eq!(
        &[
            0xff, 0xff, 0xff, 0xff, 0xff, 0xff, 0xff, 0xff, 0xff, 0xff, 0xff, 0xff, 0xff, 0xff,
            0xff, 0xff, 0xff, 0xfe, 0x00, 0x00
        ],
        s.data()
    )
}

#[test]
fn shift_left_04() {
    let mut s = Sha1Hash::max();
    s.shl_assign(160);
    assert_eq!(&[0; 20], s.data())
}

#[test]
fn shift_left_05() {
    let mut s = Sha1Hash::max();
    s.shl_assign(20000);
    assert_eq!(&[0; 20], s.data())
}

#[test]
fn shift_left_06() {
    let mut s = Sha1Hash::max();
    s.shl_assign(0);
    assert_eq!(&[0xff; 20], s.data())
}

#[test]
fn shift_right_01() {
    let mut s = Sha1Hash::max();
    s.shr_assign(5);
    assert_eq!(
        &[
            0x07, 0xff, 0xff, 0xff, 0xff, 0xff, 0xff, 0xff, 0xff, 0xff, 0xff, 0xff, 0xff, 0xff,
            0xff, 0xff, 0xff, 0xff, 0xff, 0xff
        ],
        s.data()
    )
}

#[test]
fn shift_right_02() {
    let mut s = Sha1Hash::max();
    s.shr_assign(16);
    assert_eq!(
        &[
            0x00, 0x00, 0xff, 0xff, 0xff, 0xff, 0xff, 0xff, 0xff, 0xff, 0xff, 0xff, 0xff, 0xff,
            0xff, 0xff, 0xff, 0xff, 0xff, 0xff
        ],
        s.data()
    )
}

#[test]
fn shift_right_03() {
    let mut s = Sha1Hash::max();
    s.shr_assign(17);
    assert_eq!(
        &[
            0x00, 0x00, 0x7f, 0xff, 0xff, 0xff, 0xff, 0xff, 0xff, 0xff, 0xff, 0xff, 0xff, 0xff,
            0xff, 0xff, 0xff, 0xff, 0xff, 0xff,
        ],
        s.data()
    )
}

#[test]
fn shift_right_04() {
    let mut s = Sha1Hash::max();
    s.shr_assign(160);
    assert_eq!(&[0x00; 20], s.data())
}

#[test]
fn shift_right_05() {
    let mut s = Sha1Hash::max();
    s.shr_assign(20000);
    assert_eq!(&[0x00; 20], s.data())
}

#[test]
fn shift_right_06() {
    let mut s = Sha1Hash::max();
    s.shr_assign(0);
    assert_eq!(&[0xff; 20], s.data())
}

#[test]
fn count_leading_zeros_01() {
    assert_eq!(0, Sha1Hash::max().leading_zeros());
    assert_eq!(160, Sha1Hash::min().leading_zeros());
}

#[test]
fn count_leading_zeros_02() {
    let mut s = Sha1Hash::from_array([0x01; 20]);
    assert_eq!(7, s.leading_zeros());
    s.data_mut()[0] = 0;
    assert_eq!(15, s.leading_zeros());
    s.data_mut()[1] = 0;
    assert_eq!(23, s.leading_zeros());
}

#[test]
fn not() {
    assert_eq!(Sha1Hash::min(), Sha1Hash::max().not());
    assert_eq!(
        Sha1Hash::from_array([0xfe; 20]),
        Sha1Hash::from_array([0x01; 20]).not()
    );
}

#[test]
fn sha1_xor() {
    assert_eq!(Sha1Hash::min(), Sha1Hash::max().bitxor(&Sha1Hash::max()));
    assert_eq!(Sha1Hash::max(), Sha1Hash::min().bitxor(&Sha1Hash::max()));
    assert_eq!(Sha1Hash::max(), Sha1Hash::max().bitxor(&Sha1Hash::min()));
    assert_eq!(Sha1Hash::min(), Sha1Hash::min().bitxor(&Sha1Hash::min()));
    assert_eq!(
        Sha1Hash::from_array([0x01; 20]),
        Sha1Hash::from_array([0x01; 20]).bitxor(&Sha1Hash::min())
    );
    assert_eq!(
        Sha1Hash::from_array([0xfe; 20]),
        Sha1Hash::from_array([0x01; 20]).bitxor(&Sha1Hash::max())
    );
    assert_eq!(
        Sha1Hash::max(),
        Sha1Hash::from_array([0x01; 20]).bitxor(&Sha1Hash::from_array([0xfe; 20]))
    );
}

#[test]
fn and() {
    assert_eq!(Sha1Hash::min(), Sha1Hash::min().bitand(&Sha1Hash::max()));
    assert_eq!(
        Sha1Hash::from_array([0x01; 20]),
        Sha1Hash::from_array([0x01; 20]).bitand(&Sha1Hash::max())
    );
    assert_eq!(
        Sha1Hash::min(),
        Sha1Hash::from_array([0x01; 20]).bitand(&Sha1Hash::from_array([0xfe; 20]))
    );
}

#[test]
fn or() {
    assert_eq!(Sha1Hash::max(), Sha1Hash::min().bitor(&Sha1Hash::max()));
    assert_eq!(
        Sha1Hash::max(),
        Sha1Hash::from_array([0x01; 20]).bitor(&Sha1Hash::max())
    );
    assert_eq!(
        Sha1Hash::from_array([0x81; 20]),
        Sha1Hash::from_array([0x01; 20]).bitor(&Sha1Hash::from_array([0x80; 20]))
    );
}

#[test]
fn index() {
    assert_eq!(0, Sha1Hash::min().index(0));
    assert_eq!(0xff, Sha1Hash::max().index(0));
    let mut s = Sha1Hash::new();
    *s.index_mut(0) = 0xff;
    let mut data = [0x00; 20];
    data[0] = 0xff;
    assert_eq!(Sha1Hash::from_array(data), s);
}

#[test]
fn xor_twice_gives_the_first_back() {
    let a = Sha1Hash::update(b"first");
    let b = Sha1Hash::update(b"second");
    assert_eq!(a, a.bitxor(&b).bitxor(&b));
}

#[test]
fn digest_of_known_input() {
    let h = Sha1Hash::update(b"abc");
    assert_eq!("a9993e364706816aba3e25717850c26c9cd0d89d", h.to_string());
    assert_ne!(&h.data()[..3], b"abc");
}

#[test]
fn shifts_follow_the_numbers() {
    let mut one = Sha1Hash::new();
    *one.index_mut(19) = 1;
    let mut s = one;
    s.shl_assign(9);
    let mut expected = [0u8; 20];
    expected[18] = 2;
    assert_eq!(&expected, s.data());
    s.shr_assign(9);
    assert_eq!(one, s);
    s.shr_assign(1);
    assert!(s.all_zeroes());
    let mut top = Sha1Hash::new();
    *top.index_mut(0) = 0x80;
    top.shl_assign(1);
    assert!(top.all_zeroes());
}

#[test]
fn order_follows_the_bytes() {
    let mut a = Sha1Hash::new();
    let mut b = Sha1Hash::new();
    *a.index_mut(19) = 0xff;
    *b.index_mut(18) = 0x01;
    assert!(a.lt(&b));
    assert!(a.le(&b));
    assert!(!b.lt(&a));
    assert!(a.le(&a));
    assert!(a.same(&a));
    assert!(!a.same(&b));
    assert!(a < b);
}

#[test]
fn clear_zeroes_every_byte() {
    let mut s = Sha1Hash::max();
    assert!(!s.all_zeroes());
    s.clear();
    assert!(s.all_zeroes());
    assert_eq!(Sha1Hash::min(), s);
    let t = Sha1Hash::from_bytes(b"aaaaabbbbbcccccddddd");
    assert_eq!(b"aaaaabbbbbcccccddddd", t.as_bytes());
}

#[test]
fn bits_count_from_the_front() {
    let mut h = Sha1Hash::new();
    *h.index_mut(0) = 0x80;
    *h.index_mut(19) = 0x01;
    *h.index_mut(1) = 0x40;
    assert!(h.bit(0));
    assert!(!h.bit(1));
    assert!(h.bit(9));
    assert!(!h.bit(8));
    assert!(h.bit(159));
    assert!(!h.bit(158));
}

#[test]
fn numbers_are_added_and_subtracted() {
    let one = Sha1Hash::min().successor();
    assert_eq!(1, one.index(19));
    assert_eq!(Sha1Hash::min(), Sha1Hash::max().successor());
    assert_eq!(Sha1Hash::max(), Sha1Hash::min().sub(&one));
    let mut a = Sha1Hash::new();
    *a.index_mut(19) = 0xff;
    *a.index_mut(18) = 0xff;
    let b = a.add(&one);
    let mut expected = Sha1Hash::new();
    *expected.index_mut(17) = 1;
    assert_eq!(expected, b);
    assert_eq!(a, b.sub(&one));
    assert_eq!(one, b.sub(&a));
    let mut twice = Sha1Hash::max();
    *twice.index_mut(19) = 0xfe;
    assert_eq!(twice, Sha1Hash::max().add(&Sha1Hash::max()));
}

#[test]
fn bytes_are_gone_through() {
    let mut h = Sha1Hash::from([3; 20]);
    assert_eq!(vec![3u8; 20], h.iter());
    for b in h.iter_mut().iter_mut() {
        *b += 1;
    }
    assert_eq!(Sha1Hash::from([4; 20]), h);
}
