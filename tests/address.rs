use ipfs_unixfs::{parse_cid, Address, AddressError};

#[test]
fn parses_base32_cid() {
    let a = parse_cid("bafkreifzjut3te2nhyekklss27nh3k72ysco7y32koao5eei66wof36n5e").unwrap();
    let b = a.as_bytes();
    assert_eq!(b.len(), 36);
    assert_eq!(&b[..4], &[1, 0x55, 0x12, 0x20]);
    assert_eq!(b[4], 0xb9);
    assert_eq!(b[35], 0xe9);
}

#[test]
fn parses_base58_cid_v0() {
    let a = parse_cid("zQmUNLLsPACCz1vLxQVkXqqLX5R1X345qqfHbsf67hvA3Nn").unwrap();
    let b = a.as_bytes();
    assert_eq!(b.len(), 34);
    assert_eq!(&b[..2], &[0x12, 0x20]);
}

#[test]
fn rejects_unknown_base() {
    assert_eq!(parse_cid("!abc").err(), Some(AddressError::Base));
    assert_eq!(parse_cid("").err(), Some(AddressError::Base));
}

#[test]
fn rejects_non_identifier() {
    assert_eq!(parse_cid("zz").err(), Some(AddressError::Identifier));
}

#[test]
fn same_compares_bytes() {
    let a = Address::from_bytes(vec![1, 2, 3]);
    assert!(a.same(&a.duplicate()));
    assert!(!a.same(&Address::from_bytes(vec![1, 2])));
    assert!(!a.same(&Address::from_bytes(vec![1, 2, 4])));
}

#[test]
fn bytes_after_the_identifier_are_dropped() {
    let a = parse_cid("bafkreifzjut3te2nhyekklss27nh3k72ysco7y32koao5eei66wof36n5h7qc").unwrap();
    let b = a.as_bytes();
    assert_eq!(b.len(), 36);
    assert_eq!(&b[..4], &[1, 0x55, 0x12, 0x20]);
    assert_eq!(b[35], 0xe9);
}
