use block_dedupe::dedupe::{confirm_block, dedupe, hash_blocks, BlockIndex};
use block_dedupe::digest::strong_digest;
use block_dedupe::rolling::RollingHash;

fn weak_of(block: &[u8]) -> u64 {
    RollingHash::new(block.len()).feed(block)
}

fn index_under(data: &[u8], k: u8, weak: &dyn Fn(&[u8]) -> u64) -> BlockIndex {
    let b = 1usize << k;
    let mut index = BlockIndex::with_capacity(data.len() / b);
    for block in data.chunks_exact(b) {
        index.push_block(weak(block), strong_digest(block));
    }
    index
}

#[test]
fn confirm_block_sets_the_distance_back_to_the_window_start() {
    let digest = strong_digest(b"AAAA");
    let mut remap = vec![0usize, 0, 0];
    assert!(confirm_block(&mut remap, 2, 4, 4, &digest, &digest));
    assert_eq!(remap, vec![0, 0, 8]);
}

#[test]
fn confirm_block_takes_a_window_that_ends_where_the_block_starts() {
    let digest = strong_digest(b"AAAA");
    let mut remap = vec![0usize, 0];
    assert!(confirm_block(&mut remap, 1, 4, 4, &digest, &digest));
    assert_eq!(remap, vec![0, 4]);
    let mut remap = vec![0usize, 0, 0, 0];
    assert!(confirm_block(&mut remap, 3, 9, 4, &digest, &digest));
    assert_eq!(remap, vec![0, 0, 0, 7]);
}

#[test]
fn confirm_block_leaves_a_block_that_the_window_overlaps() {
    let digest = strong_digest(b"AAAA");
    let mut remap = vec![0usize, 0, 0];
    assert!(!confirm_block(&mut remap, 2, 9, 4, &digest, &digest));
    assert!(!confirm_block(&mut remap, 0, 4, 4, &digest, &digest));
    assert_eq!(remap, vec![0, 0, 0]);
}

#[test]
fn confirm_block_leaves_a_resolved_block() {
    let digest = strong_digest(b"AAAA");
    let mut remap = vec![0usize, 0, 5];
    assert!(!confirm_block(&mut remap, 2, 4, 4, &digest, &digest));
    assert_eq!(remap, vec![0, 0, 5]);
}

#[test]
fn confirm_block_leaves_a_block_with_another_digest() {
    let mut remap = vec![0usize, 0, 0];
    let resolved =
        confirm_block(&mut remap, 2, 4, 4, &strong_digest(b"AAAA"), &strong_digest(b"AAAB"));
    assert!(!resolved);
    assert_eq!(remap, vec![0, 0, 0]);
}

#[test]
fn empty_index_has_no_blocks_and_no_buckets() {
    let index = BlockIndex::with_capacity(8);
    assert_eq!(index.num_blocks(), 0);
    assert_eq!(index.bucket(0), None);
    assert_eq!(index.bucket(17), None);
}

#[test]
fn push_block_numbers_blocks_in_order_and_appends_to_buckets() {
    let mut index = BlockIndex::with_capacity(0);
    index.push_block(7, strong_digest(b"a"));
    index.push_block(9, strong_digest(b"b"));
    index.push_block(7, strong_digest(b"c"));
    assert_eq!(index.num_blocks(), 3);
    assert_eq!(index.bucket(7), Some(&vec![0, 2]));
    assert_eq!(index.bucket(9), Some(&vec![1]));
    assert_eq!(index.bucket(8), None);
    assert_eq!(index.block_digest(1), strong_digest(b"b"));
    assert_eq!(index.block_digest(2), strong_digest(b"c"));
}

#[test]
fn handmade_index_agrees_with_hash_blocks() {
    let data = b"AAAABBBBAAAACCCC";
    let made = index_under(data, 2, &weak_of);
    let built = hash_blocks(data, 2);
    assert_eq!(made.num_blocks(), built.num_blocks());
    for block in data.chunks_exact(4) {
        assert_eq!(made.bucket(weak_of(block)), built.bucket(weak_of(block)));
    }
    assert_eq!(dedupe(data, 2, made), dedupe(data, 2, built));
}

#[test]
fn one_bucket_for_all_blocks_still_matches_only_equal_digests() {
    let data = b"AAAABBBBAAAABBBB";
    let key = weak_of(b"AAAA");
    let index = index_under(data, 2, &|_| key);
    assert_eq!(index.bucket(key), Some(&vec![0, 1, 2, 3]));
    // Only windows with the fingerprint of "AAAA" probe this index, so the
    // blocks "BBBB" are never found; no block is matched to other content.
    assert_eq!(dedupe(data, 2, index), vec![0, 0, 8, 0]);
}

#[test]
fn index_under_another_weak_function_finds_nothing_and_reports_nothing() {
    let data = b"AAAABBBBAAAABBBB";
    let index = index_under(data, 2, &|block| block.iter().map(|&x| x as u64).sum::<u64>());
    assert_eq!(dedupe(data, 2, index), vec![0, 0, 0, 0]);
}
