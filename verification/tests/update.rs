use dht::{Sha1Hash, ValueRef};

#[test]
fn parse_torrent_file() {
    let pieces: [u8; 20] = [
        0x07, 0x69, 0x1f, 0xe6, 0x5b, 0x4c, 0x51, 0xdb, 0x22, 0x94, 0x60, 0xba, 0x52, 0x7e, 0xb1,
        0xc7, 0x48, 0x7f, 0x24, 0x77,
    ];
    let mut f: Vec<u8> = Vec::new();
    f.extend_from_slice(b"d8:announce29:http://0.0.0.0:52585/announce7:comment10:update.txt");
    f.extend_from_slice(b"10:created by17:BitTorrent/7.10.513:creation datei1577614375e");
    f.extend_from_slice(b"8:encoding5:UTF-84:infod6:lengthi359e4:name10:update.txt");
    f.extend_from_slice(b"12:piece lengthi16384e6:pieces20:");
    f.extend_from_slice(&pieces);
    f.extend_from_slice(b"ee");
    let val = ValueRef::decode(&f).unwrap();

    assert!(val.as_dict().is_some());
    assert_eq!(
        "http://0.0.0.0:52585/announce",
        val.dict_find("announce").unwrap().as_str().unwrap()
    );
    assert_eq!(
        "update.txt",
        val.dict_find("comment").unwrap().as_str().unwrap()
    );
    assert_eq!(
        "BitTorrent/7.10.5",
        val.dict_find("created by").unwrap().as_str().unwrap()
    );
    assert_eq!(
        1577614375,
        val.dict_find("creation date").unwrap().as_int().unwrap()
    );
    assert_eq!("UTF-8", val.dict_find("encoding").unwrap().as_str().unwrap());

    let info = val.dict_find("info").unwrap();
    assert!(info.as_dict().is_some());

    assert_eq!(359, info.dict_find("length").unwrap().as_int().unwrap());
    assert_eq!(
        "update.txt",
        info.dict_find("name").unwrap().as_str().unwrap()
    );
    assert_eq!(
        16384,
        info.dict_find("piece length").unwrap().as_int().unwrap()
    );
    let pieces = info.dict_find("pieces").unwrap().as_bytes().unwrap();
    assert_eq!(20, pieces.len()); // Only one piece
    let hash = Sha1Hash::from_bytes(pieces);
    assert_eq!("07691fe65b4c51db229460ba527eb1c7487f2477", hash.to_string());
    assert_eq!(f, val.to_vec());
}
