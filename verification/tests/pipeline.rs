use block_dedupe::dedupe::{dedupe, hash_blocks};

fn remap_of(data: &[u8], k: u8) -> Vec<usize> {
    let index = hash_blocks(data, k);
    dedupe(data, k, index)
}

#[test]
fn three_blocks_last_repeats_first() {
    let remap = remap_of(b"AAAABBBBAAAA", 2);
    assert_eq!(remap, vec![0, 0, 8]);
}

#[test]
fn file_shorter_than_a_block_has_no_blocks() {
    let data = b"abc";
    let index = hash_blocks(data, 2);
    assert_eq!(index.num_blocks(), 0);
    let remap = dedupe(data, 2, index);
    assert!(remap.is_empty());
}

#[test]
fn empty_file_has_no_blocks() {
    let index = hash_blocks(b"", 11);
    assert_eq!(index.num_blocks(), 0);
    assert!(dedupe(b"", 11, index).is_empty());
}

#[test]
fn zero_blocks_are_never_remapped() {
    let data = vec![0u8; 64];
    assert_eq!(remap_of(&data, 3), vec![0; 8]);
}

#[test]
fn second_half_points_back_by_half_the_file() {
    let half: Vec<u8> = (1u8..=32).collect();
    let mut data = half.clone();
    data.extend_from_slice(&half);
    let remap = remap_of(&data, 3);
    assert_eq!(remap, vec![0, 0, 0, 0, 32, 32, 32, 32]);
}

#[test]
fn scanning_twice_gives_the_same_table() {
    let data = b"abcdefghabcdefgh0123abcdefgh4567";
    assert_eq!(remap_of(data, 2), remap_of(data, 2));
}

fn assert_sound(data: &[u8], k: u8, remap: &[usize]) {
    let b = 1usize << k;
    assert_eq!(remap.len(), data.len() >> k);
    for (block, &back) in remap.iter().enumerate() {
        if back != 0 {
            let start = block * b;
            assert!(back >= b);
            assert!(back <= start);
            assert_eq!(&data[start - back..start - back + b], &data[start..start + b]);
        }
    }
}

fn noise(len: usize, seed: u64) -> Vec<u8> {
    let mut state = seed;
    let mut out = Vec::with_capacity(len);
    for _ in 0..len {
        state ^= state << 13;
        state ^= state >> 7;
        state ^= state << 17;
        out.push((state >> 24) as u8);
    }
    out
}

#[test]
fn block_pointing_to_the_start_of_the_file_has_its_own_offset() {
    let remap = remap_of(b"AAAABBBBAAAA", 2);
    assert_eq!(remap[2], 2 * 4);
}

#[test]
fn window_off_the_block_grid_is_found() {
    let data = b"xAAAAyyyAAAAzzz";
    let remap = remap_of(data, 2);
    assert_eq!(remap, vec![0, 0, 7]);
    assert_sound(data, 2, &remap);
}

#[test]
fn one_window_resolves_every_later_twin() {
    let remap = remap_of(b"AAAABBBBAAAAAAAA", 2);
    assert_eq!(remap, vec![0, 0, 8, 12]);
}

#[test]
fn run_of_one_block_repeated_points_each_back_to_the_first() {
    let remap = remap_of(b"abcdabcdabcdabcd", 2);
    assert_eq!(remap, vec![0, 4, 8, 12]);
}

#[test]
fn resolved_block_is_skipped_and_the_window_starts_afresh() {
    // Block 1 repeats block 0. The scan jumps over it, so the window "Dqrs",
    // which straddles its end, is never seen and block 3 stays unresolved.
    let data = b"abcDabcDqrsxDqrs";
    let remap = remap_of(data, 2);
    assert_eq!(remap, vec![0, 4, 0, 0]);
    assert_sound(data, 2, &remap);
}

#[test]
fn trailing_partial_block_is_scanned_but_not_remapped() {
    let data = b"abcdabcdab";
    let remap = remap_of(data, 2);
    assert_eq!(remap, vec![0, 4]);
}

#[test]
fn zero_blocks_between_data_stay_unresolved() {
    let mut data = b"abcdefgh".to_vec();
    data.extend_from_slice(&[0u8; 16]);
    data.extend_from_slice(b"abcdefgh");
    let remap = remap_of(&data, 3);
    assert_eq!(remap, vec![0, 0, 0, 24]);
}

#[test]
fn every_reported_match_is_a_copy_of_earlier_bytes() {
    for seed in 1..6u64 {
        let mut data = noise(300, seed);
        let copy: Vec<u8> = data[37..37 + 96].to_vec();
        data.extend_from_slice(&copy);
        data.extend_from_slice(&noise(50, seed + 100));
        let again: Vec<u8> = data[5..5 + 64].to_vec();
        data.extend_from_slice(&again);
        for k in 0..6u8 {
            let remap = remap_of(&data, k);
            assert_sound(&data, k, &remap);
        }
    }
}

#[test]
fn doubled_noise_resolves_the_whole_second_half() {
    let half = noise(256, 42);
    let mut data = half.clone();
    data.extend_from_slice(&half);
    for k in 3..7u8 {
        let blocks = 256usize >> k;
        let remap = remap_of(&data, k);
        let mut expected = vec![0usize; blocks];
        expected.extend(std::iter::repeat(256usize).take(blocks));
        assert_eq!(remap, expected);
    }
}

#[test]
fn index_of_another_file_of_the_same_size_resolves_nothing_wrongly() {
    let data = b"abcdabcd";
    let other = hash_blocks(b"wxyzwxyz", 2);
    let remap = dedupe(data, 2, other);
    assert_eq!(remap, vec![0, 0]);
}

#[test]
fn default_block_size_finds_a_repeated_block() {
    let block = noise(2048, 7);
    let mut data = block.clone();
    data.extend_from_slice(&noise(1000, 8));
    data.extend_from_slice(&block);
    data.extend_from_slice(&noise(48, 9));
    let remap = remap_of(&data, 11);
    assert_eq!(remap.len(), 2);
    assert_eq!(remap, vec![0, 0]);
    let mut aligned = block.clone();
    aligned.extend_from_slice(&noise(2048, 8));
    aligned.extend_from_slice(&block);
    assert_eq!(remap_of(&aligned, 11), vec![0, 0, 4096]);
}
