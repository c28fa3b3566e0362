use block_dedupe::dedupe::{dedupe, hash_blocks, IndexBuilder, Scanner, Step};
use block_dedupe::digest::strong_digest;

fn stream(data: &[u8], k: u8) -> (Vec<usize>, Vec<Step>) {
    let mut scanner = Scanner::new(k, hash_blocks(data, k));
    let mut steps = Vec::new();
    loop {
        let step = scanner.next_step(data.len());
        steps.push(step);
        match step {
            Step::Done => break,
            Step::Skip => scanner.skip(),
            Step::Read => scanner.push(data[scanner.position()]),
        }
    }
    (scanner.finish(), steps)
}

#[test]
fn builder_gives_the_index_of_the_blocks_it_was_handed() {
    let mut builder = IndexBuilder::new(2, 3);
    assert_eq!(builder.block_size(), 4);
    builder.add_block(b"AAAA");
    builder.add_block(b"BBBB");
    builder.add_block(b"AAAA");
    let built = builder.finish();
    let whole = hash_blocks(b"AAAABBBBAAAA", 2);
    assert_eq!(built.num_blocks(), 3);
    for block in 0..3 {
        assert_eq!(built.block_digest(block), whole.block_digest(block));
    }
    assert_eq!(built.block_digest(1), strong_digest(b"BBBB"));
    let mut seen = 0;
    for weak in [1u64, 0, u64::MAX] {
        assert_eq!(built.bucket(weak), whole.bucket(weak));
        seen += 1;
    }
    assert_eq!(seen, 3);
    assert_eq!(dedupe(b"AAAABBBBAAAA", 2, built), vec![0, 0, 8]);
}

#[test]
fn builder_with_no_blocks_gives_an_empty_index() {
    let index = IndexBuilder::new(11, 0).finish();
    assert_eq!(index.num_blocks(), 0);
    assert_eq!(index.bucket(0), None);
}

#[test]
fn scanner_starts_at_the_first_byte_and_asks_to_read() {
    let data = b"AAAABBBBAAAA";
    let scanner = Scanner::new(2, hash_blocks(data, 2));
    assert_eq!(scanner.position(), 0);
    assert_eq!(scanner.block_size(), 4);
    assert!(!scanner.in_resolved_block());
    assert_eq!(scanner.next_step(data.len()), Step::Read);
    assert_eq!(scanner.next_step(0), Step::Done);
    assert_eq!(scanner.finish(), vec![0, 0, 0]);
}

#[test]
fn scanner_resolves_a_block_when_its_twin_fills_the_window() {
    let data = b"AAAABBBBAAAA";
    let mut scanner = Scanner::new(2, hash_blocks(data, 2));
    for &byte in &data[..3] {
        scanner.push(byte);
    }
    assert_eq!(scanner.position(), 3);
    scanner.push(data[3]);
    assert_eq!(scanner.position(), 4);
    assert_eq!(scanner.finish(), vec![0, 0, 8]);
}

#[test]
fn scanner_is_done_where_a_jump_would_reach_the_end() {
    let data = b"AAAABBBBAAAA";
    let (remap, steps) = stream(data, 2);
    assert_eq!(remap, vec![0, 0, 8]);
    let mut expected = vec![Step::Read; 8];
    expected.push(Step::Done);
    assert_eq!(steps, expected);
}

#[test]
fn scanner_jumps_over_a_resolved_block_and_reads_on() {
    let data = b"abcdabcdefghij";
    let (remap, steps) = stream(data, 2);
    assert_eq!(remap, vec![0, 4, 0]);
    let mut expected = vec![Step::Read; 4];
    expected.push(Step::Skip);
    expected.extend_from_slice(&[Step::Read; 6]);
    expected.push(Step::Done);
    assert_eq!(steps, expected);
}

#[test]
fn skip_moves_one_block_ahead_and_empties_the_window() {
    let data = b"abcdabcdefgh";
    let mut scanner = Scanner::new(2, hash_blocks(data, 2));
    for &byte in &data[..4] {
        scanner.push(byte);
    }
    assert!(scanner.in_resolved_block());
    assert_eq!(scanner.next_step(data.len()), Step::Skip);
    scanner.skip();
    assert_eq!(scanner.position(), 8);
    assert!(!scanner.in_resolved_block());
}

#[test]
fn streaming_gives_the_table_of_the_whole_file_scan() {
    let mut data = Vec::new();
    for i in 0..40u8 {
        data.extend_from_slice(&[i % 5, i % 3, 7, i % 2]);
    }
    for k in 0..5u8 {
        let (remap, _) = stream(&data, k);
        assert_eq!(remap, dedupe(&data, k, hash_blocks(&data, k)));
    }
}
