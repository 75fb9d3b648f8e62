use ipfs_unixfs::{build_manifest, Address, Error, File, FileDataBounds, FileDataEntry};

fn sample() -> File {
    build_manifest(vec![(10, Address::from_bytes(vec![1, 0x55])), (300, Address::from_bytes(vec![7]))]).unwrap()
}

#[test]
fn encoding_is_canonical() {
    let f = build_manifest(vec![(10, Address::from_bytes(vec![1, 0x55]))]).unwrap();
    let expected: Vec<u8> = vec![
        0xa3, 0x64, b'd', b'a', b't', b'a', 0x81, // {"data": [
        0xa2, 0x64, b'l', b'i', b'n', b'k', 0xd8, 0x2a, 0x43, 0x00, 0x01, 0x55, // {"link": CID
        0x66, b'b', b'o', b'u', b'n', b'd', b's', 0x82, 0x00, 0x0a, // "bounds": [0, 10]}]
        0x64, b's', b'i', b'z', b'e', 0x0a, // "size": 10
        0x64, b't', b'y', b'p', b'e', 0x64, b'f', b'i', b'l', b'e', // "type": "file"}
    ];
    assert_eq!(f.encode(), expected);
}

#[test]
fn encoding_uses_shortest_heads() {
    let f = sample();
    let b = f.encode();
    // The second range ends at 310, written as a two-byte integer.
    let tail = [0x19u8, 0x01, 0x36, 0x64, b's', b'i', b'z', b'e', 0x19, 0x01, 0x36];
    assert!(b.windows(tail.len()).any(|w| w == tail));
}

#[test]
fn decode_round_trip() {
    let f = sample();
    let g = File::decode(&f.encode()).unwrap();
    assert_eq!(g.size, 310);
    assert_eq!(g.data.len(), 2);
    assert_eq!(g.data[1].bounds, FileDataBounds(10, 310));
    assert_eq!(g.data[1].link.as_bytes(), &vec![7]);
    assert_eq!(g.encode(), f.encode());
}

#[test]
fn decode_empty_manifest() {
    let f = File::new(Vec::new()).unwrap();
    let g = File::decode(&f.encode()).unwrap();
    assert_eq!(g.size, 0);
    assert!(g.data.is_empty());
}

#[test]
fn decode_rejects_trailing_bytes() {
    let mut b = sample().encode();
    b.push(0);
    assert_eq!(File::decode(&b).err(), Some(Error::TrailingCharacters));
}

#[test]
fn decode_rejects_truncation() {
    let b = sample().encode();
    assert_eq!(File::decode(&b[..b.len() - 3]).err(), Some(Error::Eof));
    assert_eq!(File::decode(&[]).err(), Some(Error::Eof));
}

#[test]
fn decode_rejects_non_tiling_ranges() {
    let f = File {
        data: vec![FileDataEntry { bounds: FileDataBounds(1, 5), link: Address::from_bytes(vec![3]) }],
        size: 5,
        kind: b"file".to_vec(),
    };
    assert_eq!(File::decode(&f.encode()).err(), Some(Error::MalformedRanges));
}

#[test]
fn decode_rejects_long_heads() {
    let mut b = build_manifest(vec![(10, Address::from_bytes(vec![1]))]).unwrap().encode();
    // The size 10 written in the two-byte form instead of the one-byte form.
    let n = b.len();
    let at = n - 11;
    assert_eq!(b[at], 0x0a);
    b.splice(at..at + 1, [0x18u8, 0x0a]);
    assert_eq!(File::decode(&b).err(), Some(Error::Syntax));
}

#[test]
fn decode_rejects_wrong_type() {
    let mut b = sample().encode();
    b[0] = 0x83;
    assert_eq!(File::decode(&b).err(), Some(Error::Syntax));
    let mut c = sample().encode();
    c[6] = 0x02;
    assert_eq!(File::decode(&c).err(), Some(Error::ExpectedArray));
}

fn one_entry() -> Vec<u8> {
    build_manifest(vec![(10, Address::from_bytes(vec![1, 0x55]))]).unwrap().encode()
}

#[test]
fn decode_rejects_non_integer_size() {
    let mut b = one_entry();
    let at = b.len() - 11;
    b[at] = 0x4a;
    assert_eq!(File::decode(&b).err(), Some(Error::ExpectedInteger));
}

#[test]
fn decode_rejects_non_bytes_link() {
    let mut b = one_entry();
    assert_eq!(b[15], 0x43);
    b[15] = 0x63;
    assert_eq!(File::decode(&b).err(), Some(Error::ExpectedBytes));
}

#[test]
fn decode_rejects_empty_link() {
    let mut b = one_entry();
    b[15] = 0x40;
    assert_eq!(File::decode(&b).err(), Some(Error::ExpectedLink));
}

#[test]
fn kind_is_carried() {
    let f = sample();
    assert_eq!(f.kind, b"file".to_vec());
    let mut g = File::decode(&f.encode()).unwrap();
    assert_eq!(g.kind, b"file".to_vec());
    g.kind = b"symlink".to_vec();
    let b = g.encode();
    let tail = [0x64u8, b't', b'y', b'p', b'e', 0x67, b's', b'y', b'm', b'l', b'i', b'n', b'k'];
    assert!(b.ends_with(&tail));
    assert_eq!(File::decode(&b).unwrap().kind, b"symlink".to_vec());
}

#[test]
fn decode_rejects_non_text_kind() {
    let mut b = one_entry();
    let at = b.len() - 5;
    assert_eq!(b[at], 0x64);
    b[at] = 0x44;
    assert_eq!(File::decode(&b).err(), Some(Error::ExpectedString));
}
