use ipfs_unixfs::{compute_hash, split_hash, Hamt, HamtError};

fn key(i: usize) -> Vec<u8> {
    format!("entry-{}", i).into_bytes()
}

#[test]
fn split_hash_fixed_vector() {
    let h = compute_hash(b"Hello, World! Foobarbaz 3.141592653589");
    assert_eq!(h, 0x15f1_3a8d_15ee_35dc);
    let groups: Vec<u8> = (0u8..10).map(|i| split_hash(h, 6, i).unwrap()).collect();
    assert_eq!(groups, vec![5, 31, 4, 58, 35, 17, 23, 46, 13, 29]);
}

#[test]
fn compute_hash_takes_high_half() {
    // murmur3 x64 128 of "hello", seed zero: h1 = cbd8a7b341bd9b02, h2 = 5b1e906a48ae1d19.
    assert_eq!(compute_hash(b"hello"), 0x5b1e_906a_48ae_1d19);
}

#[test]
fn split_hash_rejects_bad_arguments() {
    assert_eq!(split_hash(0, 0, 0), Err(HamtError::InvalidSplit));
    assert_eq!(split_hash(0, 9, 0), Err(HamtError::InvalidSplit));
    assert_eq!(split_hash(0, 6, 10), Err(HamtError::InvalidSplit));
    assert_eq!(split_hash(0, 8, 8), Err(HamtError::InvalidSplit));
    assert_eq!(split_hash(u64::MAX, 8, 7), Ok(255));
    assert_eq!(split_hash(u64::MAX, 6, 9), Ok(63));
    assert_eq!(split_hash(0x8000_0000_0000_0000, 1, 0), Ok(1));
    assert_eq!(split_hash(0x8000_0000_0000_0000, 1, 63), Ok(0));
    assert_eq!(split_hash(1, 1, 63), Ok(1));
}

#[test]
fn new_rejects_bad_width() {
    assert!(Hamt::new(0).is_err());
    assert!(Hamt::new(9).is_err());
    let (t, root) = Hamt::new(8).unwrap();
    assert_eq!(t.bit_width(), 8);
    assert_eq!(t.lookup(root, b"x"), None);
}

#[test]
fn thousands_of_keys_are_found() {
    let (mut t, mut root) = Hamt::new(6).unwrap();
    for i in 0..3000 {
        root = t.insert(root, key(i), format!("value-{}", i).into_bytes()).unwrap();
    }
    for i in 0..3000 {
        assert_eq!(t.lookup(root, &key(i)), Some(format!("value-{}", i).into_bytes()));
    }
    assert_eq!(t.lookup(root, &key(3000)), None);
    assert_eq!(t.lookup(root, b"never inserted"), None);
}

#[test]
fn last_write_wins() {
    let (mut t, root) = Hamt::new(6).unwrap();
    let r1 = t.insert(root, b"k".to_vec(), b"first".to_vec()).unwrap();
    let r2 = t.insert(r1, b"k".to_vec(), b"second".to_vec()).unwrap();
    assert_eq!(t.lookup(r2, b"k"), Some(b"second".to_vec()));
    assert_eq!(t.lookup(r1, b"k"), Some(b"first".to_vec()));
}

#[test]
fn older_versions_are_unchanged() {
    let (mut t, mut r1) = Hamt::new(6).unwrap();
    for i in 0..200 {
        r1 = t.insert(r1, key(i), vec![i as u8]).unwrap();
    }
    let r2 = t.insert(r1, b"k2".to_vec(), b"v2".to_vec()).unwrap();
    for i in 0..200 {
        assert_eq!(t.lookup(r1, &key(i)), Some(vec![i as u8]));
        assert_eq!(t.lookup(r2, &key(i)), Some(vec![i as u8]));
    }
    assert_eq!(t.lookup(r1, b"k2"), None);
    assert_eq!(t.lookup(r2, b"k2"), Some(b"v2".to_vec()));
}

#[test]
fn narrow_tries_split_deep() {
    let (mut t, mut root) = Hamt::new(1).unwrap();
    for i in 0..500 {
        root = t.insert(root, key(i), vec![1]).unwrap();
    }
    for i in 0..500 {
        assert_eq!(t.lookup(root, &key(i)), Some(vec![1]));
    }
    assert!(t.len() > 500);
}

#[test]
fn empty_node_encoding() {
    let (t, root) = Hamt::new(4).unwrap();
    assert_eq!(t.encode_node(root, &Vec::new()), vec![0xa1, 0x65, b's', b'l', b'o', b't', b's', 0x80]);
}

#[test]
fn entry_node_encoding() {
    let (mut t, root) = Hamt::new(8).unwrap();
    let r = t.insert(root, b"k".to_vec(), b"vv".to_vec()).unwrap();
    let slot = split_hash(compute_hash(b"k"), 8, 0).unwrap();
    let addrs: Vec<ipfs_unixfs::Address> = (0..r).map(|i| ipfs_unixfs::Address::from_bytes(vec![i as u8])).collect();
    let mut expected = vec![0xa1, 0x65, b's', b'l', b'o', b't', b's', 0x81, 0x82];
    if slot < 24 {
        expected.push(slot);
    } else {
        expected.extend_from_slice(&[0x18, slot]);
    }
    expected.extend_from_slice(&[0xa2, 0x63, b'k', b'e', b'y', 0x41, b'k']);
    expected.extend_from_slice(&[0x65, b'v', b'a', b'l', b'u', b'e', 0x42, b'v', b'v']);
    assert_eq!(t.encode_node(r, &addrs), expected);
}

#[test]
fn links_encode_earlier_addresses() {
    let (mut t, mut root) = Hamt::new(1).unwrap();
    for i in 0..20 {
        root = t.insert(root, key(i), vec![i as u8]).unwrap();
    }
    let addrs: Vec<ipfs_unixfs::Address> =
        (0..root).map(|i| ipfs_unixfs::Address::from_bytes(vec![0x55, (i >> 8) as u8, i as u8])).collect();
    let b = t.encode_node(root, &addrs);
    assert_eq!(&b[..7], &[0xa1, 0x65, b's', b'l', b'o', b't', b's']);
    let link = [0xa1, 0x64, b'l', b'i', b'n', b'k', 0xd8, 0x2a, 0x44, 0x00, 0x55];
    assert!(b.windows(link.len()).any(|w| w == link));
}
