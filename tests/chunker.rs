use ipfs_unixfs::{split_chunks, Chunker, BLOCK_SIZE};

#[test]
fn split_into_fixed_chunks() {
    let data: Vec<u8> = (0..20u8).collect();
    let chunks = split_chunks(&data, 7);
    assert_eq!(chunks.len(), 3);
    assert_eq!(chunks[0], (0..7u8).collect::<Vec<u8>>());
    assert_eq!(chunks[2], (14..20u8).collect::<Vec<u8>>());
    assert!(split_chunks(&[], 7).is_empty());
    assert_eq!(split_chunks(&data, 20).len(), 1);
    assert_eq!(split_chunks(&data, 1).len(), 20);
}

#[test]
fn default_block_size() {
    assert_eq!(BLOCK_SIZE, 262144);
}

#[test]
fn short_reads_fill_the_current_chunk() {
    let mut c = Chunker::new(4);
    assert_eq!(c.room(), 4);
    assert_eq!(c.push(&[1, 2]), None);
    assert_eq!(c.room(), 2);
    assert_eq!(c.push(&[3]), None);
    assert_eq!(c.push(&[4]), Some((0, vec![1, 2, 3, 4])));
    assert_eq!(c.room(), 4);
    assert_eq!(c.push(&[5, 6, 7, 8]), Some((4, vec![5, 6, 7, 8])));
    assert_eq!(c.push(&[9]), None);
    assert_eq!(c.finish(), Some((8, vec![9])));
}

#[test]
fn empty_stream_yields_no_chunk() {
    let c = Chunker::new(4);
    assert_eq!(c.finish(), None);
    let mut d = Chunker::new(2);
    assert_eq!(d.push(&[1, 2]), Some((0, vec![1, 2])));
    assert_eq!(d.finish(), None);
}

#[test]
fn chunk_counts_for_edge_lengths() {
    for c in [1usize, 7, 262144] {
        let cases = [(0usize, 0usize, 0usize), (1, 1, 1), (c, 1, c), (c + 1, 2, 1), (10 * c, 10, c)];
        for (len, count, last) in cases {
            let data = vec![3u8; len];
            let chunks = split_chunks(&data, c);
            assert_eq!(chunks.len(), count, "c = {}, len = {}", c, len);
            if count > 0 {
                assert_eq!(chunks.last().unwrap().len(), last);
                assert!(chunks[..count - 1].iter().all(|x| x.len() == c));
            }
        }
    }
}
