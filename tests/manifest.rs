use ipfs_unixfs::{build_manifest, Address, File, FileDataBounds, FileDataEntry, ManifestError};

fn addr(tag: u8) -> Address {
    Address::from_bytes(vec![1, 0x55, tag])
}

fn entry(start: u64, end: u64, tag: u8) -> FileDataEntry {
    FileDataEntry { bounds: FileDataBounds(start, end), link: addr(tag) }
}

fn bounds_of(f: &File) -> Vec<(u64, u64)> {
    f.data.iter().map(|e| (e.bounds.0, e.bounds.1)).collect()
}

#[test]
fn gap_is_malformed() {
    let r = File::new(vec![entry(0, 10, b'A'), entry(11, 20, b'B')]);
    assert_eq!(r.err(), Some(ManifestError::MalformedRanges));
}

#[test]
fn overlap_is_malformed() {
    let r = File::new(vec![entry(0, 10, b'A'), entry(5, 20, b'B')]);
    assert_eq!(r.err(), Some(ManifestError::MalformedRanges));
}

#[test]
fn adjacent_ranges_build() {
    let f = File::new(vec![entry(0, 10, b'A'), entry(10, 20, b'B')]).unwrap();
    assert_eq!(f.size(), 20);
    assert_eq!(bounds_of(&f), vec![(0, 10), (10, 20)]);
}

#[test]
fn entries_are_sorted_by_start() {
    let f = File::new(vec![entry(10, 20, b'B'), entry(20, 25, b'C'), entry(0, 10, b'A')]).unwrap();
    assert_eq!(bounds_of(&f), vec![(0, 10), (10, 20), (20, 25)]);
    assert_eq!(f.data[0].link.as_bytes(), &vec![1, 0x55, b'A']);
    assert_eq!(f.size(), 25);
}

#[test]
fn empty_manifest_has_size_zero() {
    let f = File::new(Vec::new()).unwrap();
    assert_eq!(f.size(), 0);
    assert_eq!(f.len(), 0);
}

#[test]
fn first_range_must_start_at_zero() {
    let r = File::new(vec![entry(1, 10, b'A')]);
    assert_eq!(r.err(), Some(ManifestError::MalformedRanges));
}

#[test]
fn empty_ranges_are_accepted() {
    let f = File::new(vec![entry(0, 10, b'A'), entry(0, 0, b'B')]).unwrap();
    assert_eq!(bounds_of(&f), vec![(0, 0), (0, 10)]);
    let g = File::new(vec![entry(10, 10, b'B'), entry(0, 10, b'A')]).unwrap();
    assert_eq!(bounds_of(&g), vec![(0, 10), (10, 10)]);
    assert_eq!(g.size(), 10);
    assert_eq!(g.find(9), Some(0));
    assert_eq!(g.find(10), None);
}

#[test]
fn reversed_range_is_malformed() {
    let r = File::new(vec![entry(0, 10, b'A'), entry(10, 5, b'B')]);
    assert_eq!(r.err(), Some(ManifestError::MalformedRanges));
}

#[test]
fn entry_new_sets_bounds() {
    let e = FileDataEntry::new(100, 28, addr(b'A')).unwrap();
    assert_eq!(e.bounds, FileDataBounds(100, 128));
}

#[test]
fn entry_new_rejects_overflow() {
    let r = FileDataEntry::new(u64::MAX - 3, 4, addr(b'A'));
    assert_eq!(r.err(), Some(ManifestError::MalformedRanges));
    assert!(FileDataEntry::new(u64::MAX - 3, 3, addr(b'A')).is_ok());
}

#[test]
fn build_lays_chunks_end_to_end() {
    let f = build_manifest(vec![(10, addr(b'A')), (10, addr(b'B')), (3, addr(b'C'))]).unwrap();
    assert_eq!(bounds_of(&f), vec![(0, 10), (10, 20), (20, 23)]);
    assert_eq!(f.size(), 23);
}

#[test]
fn build_accepts_empty_chunk() {
    let f = build_manifest(vec![(10, addr(b'A')), (0, addr(b'B')), (5, addr(b'C'))]).unwrap();
    assert_eq!(bounds_of(&f), vec![(0, 10), (10, 10), (10, 15)]);
    assert_eq!(f.find(10), Some(2));
}

#[test]
fn find_uses_ranges() {
    let f = build_manifest(vec![(10, addr(b'A')), (10, addr(b'B')), (3, addr(b'C'))]).unwrap();
    assert_eq!(f.find(0), Some(0));
    assert_eq!(f.find(9), Some(0));
    assert_eq!(f.find(10), Some(1));
    assert_eq!(f.find(19), Some(1));
    assert_eq!(f.find(22), Some(2));
    assert_eq!(f.find(23), None);
    assert_eq!(f.find(1000), None);
}

#[test]
fn validity_check() {
    let f = build_manifest(vec![(4, addr(b'A'))]).unwrap();
    assert!(f.is_valid());
    let g = File { data: vec![entry(0, 4, b'A')], size: 5, kind: b"file".to_vec() };
    assert!(!g.is_valid());
}
