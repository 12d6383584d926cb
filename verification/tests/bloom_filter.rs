use dht::bloom_filter::{count_zero_bits, has_bits, set_bits, BloomFilter};
use dht::Sha1Hash;

#[test]
fn test_set_and_get() {
    let mut filter = BloomFilter::new(32);
    let k1 = Sha1Hash::update(b"test1");
    let k2 = Sha1Hash::update(b"test2");
    let k3 = Sha1Hash::update(b"test3");
    let k4 = Sha1Hash::update(b"test4");
    assert!(!filter.find(&k1));
    assert!(!filter.find(&k2));
    assert!(!filter.find(&k3));
    assert!(!filter.find(&k4));

    filter.set(&k1);
    assert!(filter.find(&k1));
    assert!(!filter.find(&k2));
    assert!(!filter.find(&k3));
    assert!(!filter.find(&k4));

    filter.set(&k4);
    assert!(filter.find(&k1));
    assert!(!filter.find(&k2));
    assert!(!filter.find(&k3));
    assert!(filter.find(&k4));
}

#[test]
fn test_set_bits() {
    let mut bits = [0_u8; 4];

    for i in 0_u8..4 * 8 {
        let t = [i, 0, i, 0];
        assert!(!has_bits(&t, &bits, 6));
    }

    for i in (0_u8..4 * 8).step_by(2) {
        let t = [i, 0, i, 0];
        assert!(!has_bits(&t, &bits, 4));
        set_bits(&t, &mut bits, 4);
        assert!(has_bits(&t, &bits, 4));
    }

    let compare = [0x55_u8; 4];
    assert_eq!(compare, bits);
}

#[test]
fn test_count_zeroes() {
    let mut bits = [0x00_u8, 0xff, 0x55, 0xaa];

    assert_eq!(count_zero_bits(&bits, 4), 16);

    let t = [4_u8, 0, 4, 0];
    set_bits(&t, &mut bits, 4);
    assert_eq!(count_zero_bits(&bits, 4), 15);

    let compare = [0x10_u8, 0xff, 0x55, 0xaa];
    assert_eq!(compare, bits);
}

#[test]
fn test_to_from_string() {
    let bits = [0x10_u8, 0xff, 0x55, 0xaa];
    let mut filter = BloomFilter::from_bytes(bits.to_vec());
    let bits_out = filter.as_bytes();
    assert_eq!(bits_out, bits);

    let k = Sha1Hash::from_bytes(b"\x01\x00\x02\x00                ");
    assert!(!filter.find(&k));
    filter.set(&k);
    assert!(filter.find(&k));

    let compare = [0x16_u8, 0xff, 0x55, 0xaa];
    let bits_out = filter.as_bytes();
    assert_eq!(compare, bits_out);
}

#[test]
fn filter_counts_and_clears() {
    let mut filter = BloomFilter::new(128);
    assert_eq!(1024, filter.count_zeros_bits());
    assert_eq!(1023, filter.estimate_zero_bits());
    let mut key = Sha1Hash::new();
    *key.index_mut(0) = 0x01;
    *key.index_mut(1) = 0x04;
    *key.index_mut(2) = 0x09;
    filter.set(&key);
    // 0x0401 = 1025, reduced modulo 1024 bits, selects bit 1; 9 selects bit 9.
    assert_eq!(0x02, filter.as_bytes()[0]);
    assert_eq!(0x02, filter.as_bytes()[1]);
    assert_eq!(1022, filter.count_zeros_bits());
    assert_eq!(1022, filter.estimate_zero_bits());
    filter.clear();
    assert_eq!(1024, filter.count_zeros_bits());
    assert!(!filter.find(&key));
}

#[test]
fn zero_bits_are_the_bits_that_no_key_selects() {
    let size: usize = 128;
    let total = size * 8;
    let mut filter = BloomFilter::new(size);
    assert_eq!(total, filter.count_zeros_bits());
    let mut selected = std::collections::BTreeSet::new();
    for i in 0u32..300 {
        let before = filter.as_bytes().to_vec();
        let key = Sha1Hash::update(&i.to_be_bytes());
        filter.set(&key);
        let d = key.as_bytes();
        selected.insert((d[0] as usize + 256 * d[1] as usize) % total);
        selected.insert((d[2] as usize + 256 * d[3] as usize) % total);
        assert_eq!(total - selected.len(), filter.count_zeros_bits());
        assert!(filter.count_zeros_bits() >= total.saturating_sub(2 * (i as usize + 1)));
        let after = filter.as_bytes();
        for j in 0..size {
            assert_eq!(before[j], before[j] & after[j]);
        }
    }
}

#[test]
fn keys_with_different_bits_take_two_zero_bits_each() {
    let mut filter = BloomFilter::new(4);
    let mut a = Sha1Hash::min();
    *a.index_mut(0) = 1;
    *a.index_mut(2) = 2;
    let mut b = Sha1Hash::min();
    *b.index_mut(0) = 3;
    *b.index_mut(2) = 4;
    filter.set(&a);
    filter.set(&b);
    assert_eq!(32 - 4, filter.count_zeros_bits());
    filter.set(&a);
    assert_eq!(32 - 4, filter.count_zeros_bits());
    let mut c = Sha1Hash::min();
    *c.index_mut(0) = 1;
    *c.index_mut(2) = 33;
    filter.set(&c);
    assert_eq!(32 - 4, filter.count_zeros_bits());
    assert_eq!(&[0b0001_1110u8, 0, 0, 0][..], filter.as_bytes());
}
