use patchsync::chunker::{chunk, chunks_at, FileChunk, AVG_SIZE, MAX_SIZE, MIN_SIZE};

/// Bytes without a period, the same on every run.
fn noise(len: usize) -> Vec<u8> {
    let mut state: u64 = 0x9e37_79b9_7f4a_7c15;
    let mut out: Vec<u8> = Vec::with_capacity(len);
    while out.len() < len {
        state ^= state << 13;
        state ^= state >> 7;
        state ^= state << 17;
        out.push((state >> 24) as u8);
    }
    out
}

fn assert_tiles(data: &[u8], chunks: &[FileChunk]) {
    let mut covered: u64 = 0;
    for c in chunks {
        assert_eq!(c.offset, covered);
        assert!(c.length > 0);
        let slice = &data[c.offset as usize..(c.offset + c.length) as usize];
        assert_eq!(c.hash, *blake3::hash(slice).as_bytes());
        covered += c.length;
    }
    assert_eq!(covered, data.len() as u64);
}

#[test]
fn test_chunk_empty_data() {
    let chunks = chunk(&[]);
    assert!(chunks.is_empty());
}

#[test]
fn test_chunk_small_data() {
    let data = b"hello patchsync world";
    let chunks = chunk(data);
    assert_eq!(chunks.len(), 1);
    assert_eq!(chunks[0].offset, 0);
    assert_eq!(chunks[0].length, data.len() as u64);
    assert_eq!(chunks[0].hash, *blake3::hash(data).as_bytes());
}

#[test]
fn test_chunk_large_data() {
    // Generate 256KB pattern
    let data: Vec<u8> = (0..256 * 1024).map(|i| (i % 251) as u8).collect();
    let chunks = chunk(&data);
    assert!(!chunks.is_empty());

    let mut covered_bytes = 0u64;
    for c in &chunks {
        assert_eq!(c.offset, covered_bytes);
        let slice = &data[c.offset as usize..(c.offset + c.length) as usize];
        assert_eq!(c.hash, *blake3::hash(slice).as_bytes());
        covered_bytes += c.length;
    }
    assert_eq!(covered_bytes, data.len() as u64);
}

#[test]
fn test_to_hashmap_kv() {
    let chunk_item = FileChunk {
        hash: [42u8; 32],
        offset: 10,
        length: 100,
    };
    let (hash, val) = chunk_item.to_hashmap_kv();
    assert_eq!(hash, [42u8; 32]);
    assert_eq!(val.offset, 10);
    assert_eq!(val.length, 100);
    assert_eq!(val.hash, [42u8; 32]);
}

#[test]
fn chunk_sizes_are_powers_of_two() {
    assert_eq!(MIN_SIZE, 2 << 13);
    assert_eq!(AVG_SIZE, 2 << 14);
    assert_eq!(MAX_SIZE, 2 << 16);
}

#[test]
fn chunks_are_cut_where_fastcdc_cuts() {
    let data = noise(400_000);
    let chunks = chunk(&data);
    let cuts: Vec<(u64, u64)> = fastcdc::v2020::FastCDC::new(&data, 2 << 13, 2 << 14, 2 << 16)
        .map(|c| (c.offset as u64, c.length as u64))
        .collect();
    let found: Vec<(u64, u64)> = chunks.iter().map(|c| (c.offset, c.length)).collect();
    assert_eq!(found, cuts);
    assert!(found.len() > 1);
    assert_tiles(&data, &chunks);
}

#[test]
fn chunks_of_one_file_survive_an_insertion_at_its_front() {
    let data = noise(600_000);
    let mut longer = b"something in front".to_vec();
    longer.extend_from_slice(&data);
    let old = chunk(&data);
    let new = chunk(&longer);
    assert_tiles(&longer, &new);
    let kept = new
        .iter()
        .filter(|n| old.iter().any(|o| o.hash == n.hash))
        .count();
    assert!(kept > 0);
}

#[test]
fn chunks_at_given_cuts() {
    let data = b"abcdefgh";
    let chunks = chunks_at(data, &vec![(0, 3), (3, 5)]);
    assert_eq!(chunks.len(), 2);
    assert_eq!((chunks[0].offset, chunks[0].length), (0, 3));
    assert_eq!(chunks[0].hash, *blake3::hash(b"abc").as_bytes());
    assert_eq!((chunks[1].offset, chunks[1].length), (3, 5));
    assert_eq!(chunks[1].hash, *blake3::hash(b"defgh").as_bytes());
}
