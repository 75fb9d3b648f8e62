use std::collections::HashMap;

use ipfs_unixfs::{compute_hash, Address, Error, Hamt, Probe, StoredNode, StoredSlot};

fn key(i: usize) -> Vec<u8> {
    format!("name-{}", i).into_bytes()
}

/// Stores every node of the arena in order; the address of each.
fn store_all(t: &Hamt, blocks: &mut HashMap<Vec<u8>, Vec<u8>>) -> Vec<Address> {
    let mut addrs: Vec<Address> = Vec::new();
    for i in 0..t.len() {
        let bytes = t.encode_node(i, &addrs);
        let a = Address::from_bytes(vec![0x01, 0x71, (i >> 8) as u8, i as u8]);
        blocks.insert(a.as_bytes().clone(), bytes);
        addrs.push(a);
    }
    addrs
}

/// Looks `k` up through stored nodes only, starting at `root`.
fn remote_lookup(blocks: &HashMap<Vec<u8>, Vec<u8>>, root: &Address, n: u8, k: &[u8]) -> Option<Vec<u8>> {
    let h = compute_hash(k);
    let mut at = root.duplicate();
    let mut level = 0u8;
    loop {
        let node = StoredNode::decode(&blocks[at.as_bytes()], n).unwrap();
        match node.probe(k, h, n, level) {
            Probe::Found(v) => return Some(v),
            Probe::Missing => return None,
            Probe::Descend(a) => {
                at = a;
                level += 1;
            }
        }
    }
}

#[test]
fn stored_trie_answers_like_the_arena() {
    let (mut t, mut root) = Hamt::new(6).unwrap();
    for i in 0..1500 {
        root = t.insert(root, key(i), format!("v{}", i).into_bytes()).unwrap();
    }
    let mut blocks = HashMap::new();
    let addrs = store_all(&t, &mut blocks);
    for i in 0..1500 {
        assert_eq!(remote_lookup(&blocks, &addrs[root], 6, &key(i)), Some(format!("v{}", i).into_bytes()));
    }
    assert_eq!(remote_lookup(&blocks, &addrs[root], 6, &key(1500)), None);
}

#[test]
fn decoding_gives_back_the_encoded_node() {
    let (mut t, mut root) = Hamt::new(2).unwrap();
    for i in 0..10 {
        root = t.insert(root, key(i), vec![i as u8]).unwrap();
    }
    let mut blocks = HashMap::new();
    let addrs = store_all(&t, &mut blocks);
    let bytes = t.encode_node(root, &addrs);
    let node = StoredNode::decode(&bytes, 2).unwrap();
    assert_eq!(node.slots.len(), 4);
    let occupied = node.slots.iter().filter(|s| !matches!(s, StoredSlot::Empty)).count();
    assert!(occupied > 0);
    assert_eq!(bytes[7], 0x80 + occupied as u8);
}

#[test]
fn decode_rejects_malformed_nodes() {
    let (t, root) = Hamt::new(4).unwrap();
    let empty = t.encode_node(root, &Vec::new());
    assert!(StoredNode::decode(&empty, 4).is_ok());
    let mut trailing = empty.clone();
    trailing.push(0);
    assert_eq!(StoredNode::decode(&trailing, 4).err(), Some(Error::TrailingCharacters));
    assert_eq!(StoredNode::decode(&empty[..5], 4).err(), Some(Error::Eof));
    // One item announced, none present.
    let mut missing = empty.clone();
    missing[7] = 0x81;
    assert_eq!(StoredNode::decode(&missing, 4).err(), Some(Error::Eof));
    // An item whose index lies past the last slot.
    let mut past = empty.clone();
    past[7] = 0x81;
    past.extend_from_slice(&[0x82, 0x10, 0xa1, 0x64, b'l', b'i', b'n', b'k', 0xd8, 0x2a, 0x42, 0x00, 0x07]);
    assert_eq!(StoredNode::decode(&past, 4).err(), Some(Error::Syntax));
    let mut inside = empty.clone();
    inside[7] = 0x81;
    inside.extend_from_slice(&[0x82, 0x0f, 0xa1, 0x64, b'l', b'i', b'n', b'k', 0xd8, 0x2a, 0x42, 0x00, 0x07]);
    let node = StoredNode::decode(&inside, 4).unwrap();
    match &node.slots[15] {
        StoredSlot::Link(a) => assert_eq!(a.as_bytes(), &vec![7]),
        other => panic!("{:?}", other),
    }
}

#[test]
fn probe_reads_the_selected_slot() {
    let (mut t, root) = Hamt::new(8).unwrap();
    let r = t.insert(root, b"alpha".to_vec(), b"one".to_vec()).unwrap();
    let node = StoredNode::decode(&t.encode_node(r, &vec![Address::from_bytes(vec![1])]), 8).unwrap();
    let h = compute_hash(b"alpha");
    assert!(matches!(node.probe(b"alpha", h, 8, 0), Probe::Found(ref v) if v == b"one"));
    assert!(matches!(node.probe(b"beta", h, 8, 0), Probe::Missing));
}
