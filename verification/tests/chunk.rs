use scup::chunk::{split_chunks, ChunkReader, ChunkStep};
use scup::ids::chunk_object_id;
use scup::model::ObjectId;
use scup::rollsum::{Rollsum, MAX_CHUNK_SIZE, SPLIT_MASK};

fn noise(n: usize, seed: u64) -> Vec<u8> {
    let mut x = seed | 1;
    let mut v = Vec::new();
    for _ in 0..n {
        x ^= x << 13;
        x ^= x >> 7;
        x ^= x << 17;
        v.push((x >> 24) as u8);
    }
    v
}

fn drain(reader: &mut ChunkReader, out: &mut Vec<(ObjectId, Vec<u8>, u64)>) -> bool {
    loop {
        match reader.next() {
            ChunkStep::Chunk { id, data, digest } => out.push((id, data, digest)),
            ChunkStep::NeedInput => return false,
            ChunkStep::Done => return true,
        }
    }
}

fn chunks_in_pieces(data: &[u8], piece: usize) -> Vec<(ObjectId, Vec<u8>, u64)> {
    let mut reader = split_chunks();
    let mut out = Vec::new();
    let mut at = 0;
    while !drain(&mut reader, &mut out) {
        let end = (at + piece).min(data.len());
        reader.refill(data[at..end].to_vec());
        at = end;
    }
    assert_eq!(reader.next(), ChunkStep::Done);
    out
}

#[test]
fn digest_of_the_zero_window() {
    let mut rs = Rollsum::new();
    assert_eq!(rs.digest(), 130082880);
    rs.roll(1);
    assert_eq!(rs.digest(), 130148417);
    let mut whole = Rollsum::new();
    whole.sum(&[1]);
    assert_eq!(whole.digest(), 130148417);
}

#[test]
fn digest_forgets_what_has_left_the_window() {
    let tail = noise(64, 9);
    let mut a = Rollsum::new();
    a.sum(&noise(1000, 1));
    a.sum(&tail);
    let mut b = Rollsum::new();
    b.sum(&tail);
    assert_eq!(a.digest(), b.digest());
}

#[test]
fn chunks_are_the_file() {
    let data = noise(300_000, 5);
    let chunks = chunks_in_pieces(&data, 64 * 1024);
    let mut all = Vec::new();
    for (id, bytes, _) in &chunks {
        assert!(!bytes.is_empty() && bytes.len() <= MAX_CHUNK_SIZE);
        assert_eq!(*id, chunk_object_id(bytes));
        all.extend_from_slice(bytes);
    }
    assert_eq!(all, data);
    assert!(chunks.len() > 10);
}

#[test]
fn chunks_end_where_the_digest_says_so() {
    let data = noise(100_000, 5);
    let chunks = chunks_in_pieces(&data, 1000);
    let mut rs = Rollsum::new();
    let mut last = chunks.len();
    for (_, bytes, digest) in &chunks {
        last -= 1;
        for i in 0..bytes.len() {
            rs.roll(bytes[i]);
            let ends = rs.digest() as u64 & SPLIT_MASK == 0 || i + 1 >= MAX_CHUNK_SIZE;
            if i + 1 < bytes.len() {
                assert!(!ends);
            } else {
                assert!(ends || last == 0);
            }
        }
        assert_eq!(*digest, rs.digest() as u64);
    }
}

#[test]
fn chunks_do_not_depend_on_the_pieces() {
    let data = noise(120_000, 77);
    let whole = chunks_in_pieces(&data, data.len());
    for piece in [1000, 4096, 33333] {
        assert_eq!(chunks_in_pieces(&data, piece), whole);
    }
}

#[test]
fn a_change_in_front_leaves_the_chunks_behind() {
    let data = noise(200_000, 3);
    let mut other = noise(777, 4);
    other.extend_from_slice(&data[500..]);
    let a = chunks_in_pieces(&data, 65536);
    let b = chunks_in_pieces(&other, 65536);
    let tail = a.len().min(b.len()) - 3;
    for i in 1..=tail {
        assert_eq!(a[a.len() - i].0, b[b.len() - i].0);
    }
}

#[test]
fn no_byte_no_chunk() {
    assert_eq!(chunks_in_pieces(&[], 10), vec![]);
}

#[test]
fn a_file_without_borders_is_cut_at_the_limit() {
    // The digest of a window of equal bytes stays the same, and here it ends no chunk.
    let data = vec![7u8; MAX_CHUNK_SIZE * 2 + 5];
    let chunks = chunks_in_pieces(&data, 10_000);
    assert_eq!(chunks[0].1.len(), MAX_CHUNK_SIZE);
    assert_eq!(chunks[1].1.len(), MAX_CHUNK_SIZE);
    assert_eq!(chunks[2].1.len(), 5);
    assert_eq!(chunks.len(), 3);
}

#[test]
fn what_comes_after_the_end_is_passed_over() {
    let mut reader = split_chunks();
    reader.refill(vec![1, 2, 3]);
    reader.refill(vec![]);
    reader.refill(vec![4]);
    match reader.next() {
        ChunkStep::Chunk { data, .. } => assert_eq!(data, vec![1, 2, 3]),
        other => panic!("{other:?}"),
    }
    assert_eq!(reader.next(), ChunkStep::Done);
}
