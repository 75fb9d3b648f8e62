use std::collections::HashMap;

use ipfs_unixfs::{build_manifest, split_chunks, Address, Error, FileReader, Phase, ReadError, ReadStep};

/// A block store in memory, keyed by address bytes.
struct Store {
    blocks: HashMap<Vec<u8>, Vec<u8>>,
}

impl Store {
    fn get(&self, a: &Address) -> Option<Vec<u8>> {
        self.blocks.get(a.as_bytes()).cloned()
    }
}

/// Stores `data` cut into chunks of `c` bytes and its manifest; the root.
fn import(store: &mut Store, data: &[u8], c: usize) -> Address {
    let chunks = split_chunks(data, c);
    let mut list = Vec::new();
    for (k, chunk) in chunks.into_iter().enumerate() {
        let a = Address::from_bytes(vec![1, 0x55, (k >> 16) as u8, (k >> 8) as u8, k as u8]);
        list.push((chunk.len(), a.duplicate()));
        store.blocks.insert(a.as_bytes().clone(), chunk);
    }
    let f = build_manifest(list).unwrap();
    let root = Address::from_bytes(vec![0x71, c as u8, data.len() as u8]);
    store.blocks.insert(root.as_bytes().clone(), f.encode());
    root
}

/// Reads the whole file sequentially, `max` bytes at a time.
fn read_all(store: &Store, root: Address, max: usize) -> Result<Vec<u8>, ReadError> {
    let mut r = FileReader::new(root);
    let mut out = Vec::new();
    loop {
        match r.read(max) {
            ReadStep::FetchManifest(a) => r.manifest_fetched(store.get(&a)),
            ReadStep::Pending => panic!("nothing else is in flight"),
            ReadStep::FetchChunk(k, a) => r.chunk_fetched(k, store.get(&a))?,
            ReadStep::Data(bytes) => {
                assert!(!bytes.is_empty() && bytes.len() <= max);
                out.extend_from_slice(&bytes);
            }
            ReadStep::Eof => return Ok(out),
            ReadStep::Failed(e) => return Err(e),
        }
    }
}

fn pattern(n: usize) -> Vec<u8> {
    (0..n).map(|i| (i * 31 + i / 7) as u8).collect()
}

#[test]
fn round_trip_for_chunk_sizes_and_lengths() {
    for c in [1usize, 7, 262144] {
        for n in [0usize, 1, c, c + 1, 10 * c] {
            let data = pattern(n);
            let mut store = Store { blocks: HashMap::new() };
            let root = import(&mut store, &data, c);
            let max = if c == 262144 { 100_000 } else { 5 };
            assert_eq!(read_all(&store, root, max).unwrap(), data, "c = {}, n = {}", c, n);
        }
    }
}

#[test]
fn reads_stop_at_chunk_boundaries() {
    let data = pattern(20);
    let mut store = Store { blocks: HashMap::new() };
    let root = import(&mut store, &data, 8);
    let mut r = FileReader::new(root);
    let a = match r.read(100) {
        ReadStep::FetchManifest(a) => a,
        other => panic!("{:?}", other),
    };
    assert!(matches!(r.read(100), ReadStep::Pending));
    r.manifest_fetched(store.get(&a));
    let c = match r.read(100) {
        ReadStep::FetchChunk(0, c) => c,
        other => panic!("{:?}", other),
    };
    r.chunk_fetched(0, store.get(&c)).unwrap();
    match r.read(100) {
        ReadStep::Data(b) => assert_eq!(b, data[0..8].to_vec()),
        other => panic!("{:?}", other),
    }
    assert_eq!(r.position(), 8);
    assert!(matches!(r.read(100), ReadStep::FetchChunk(1, _)));
}

#[test]
fn seek_keeps_or_drops_the_buffer() {
    let data = pattern(20);
    let mut store = Store { blocks: HashMap::new() };
    let root = import(&mut store, &data, 8);
    let mut r = FileReader::new(root);
    if let ReadStep::FetchManifest(a) = r.read(4) {
        r.manifest_fetched(store.get(&a));
    }
    if let ReadStep::FetchChunk(k, c) = r.read(4) {
        r.chunk_fetched(k, store.get(&c)).unwrap();
    }
    r.seek(5);
    match r.read(4) {
        ReadStep::Data(b) => assert_eq!(b, data[5..8].to_vec()),
        other => panic!("{:?}", other),
    }
    r.seek(17);
    assert!(r.buffer.is_none());
    assert!(matches!(r.read(4), ReadStep::FetchChunk(2, _)));
    r.seek(20);
    assert!(matches!(r.read(4), ReadStep::Eof));
}

#[test]
fn missing_manifest_fails_for_good() {
    let store = Store { blocks: HashMap::new() };
    let mut r = FileReader::new(Address::from_bytes(vec![9]));
    if let ReadStep::FetchManifest(a) = r.read(4) {
        r.manifest_fetched(store.get(&a));
    }
    assert!(matches!(r.read(4), ReadStep::Failed(ReadError::Fetch)));
    assert!(matches!(r.read(4), ReadStep::Failed(ReadError::Fetch)));
}

#[test]
fn garbage_manifest_is_a_decode_error() {
    let mut r = FileReader::new(Address::from_bytes(vec![9]));
    assert!(matches!(r.read(4), ReadStep::FetchManifest(_)));
    r.manifest_fetched(Some(vec![1, 2, 3, 4, 5, 6, 7]));
    assert!(matches!(r.phase, Phase::Failed(ReadError::Decode(Error::Syntax))));
    assert!(matches!(r.read(4), ReadStep::Failed(ReadError::Decode(Error::Syntax))));
}

#[test]
fn chunk_failures_are_not_remembered() {
    let data = pattern(10);
    let mut store = Store { blocks: HashMap::new() };
    let root = import(&mut store, &data, 4);
    let mut r = FileReader::new(root);
    if let ReadStep::FetchManifest(a) = r.read(4) {
        r.manifest_fetched(store.get(&a));
    }
    let c = match r.read(4) {
        ReadStep::FetchChunk(0, c) => c,
        other => panic!("{:?}", other),
    };
    assert_eq!(r.chunk_fetched(0, None), Err(ReadError::Fetch));
    assert_eq!(r.chunk_fetched(0, Some(vec![1, 2, 3])), Err(ReadError::ChunkLength));
    assert!(matches!(r.read(4), ReadStep::FetchChunk(0, _)));
    r.chunk_fetched(0, store.get(&c)).unwrap();
    match r.read(4) {
        ReadStep::Data(b) => assert_eq!(b, data[0..4].to_vec()),
        other => panic!("{:?}", other),
    }
}
