use block_dedupe::remap::{bytes_saved, encode_remap};

#[test]
fn remap_is_written_as_little_endian_words() {
    let remap: Vec<usize> = vec![0, 8, 0x0102, usize::MAX];
    let mut expected = Vec::new();
    for entry in &remap {
        expected.extend_from_slice(&entry.to_le_bytes());
    }
    assert_eq!(encode_remap(&remap), expected);
}

#[test]
fn remap_word_starts_with_the_low_byte() {
    let bytes = encode_remap(&[0x0807_0605_0403_0201usize as usize]);
    assert_eq!(bytes.len(), std::mem::size_of::<usize>());
    assert_eq!(&bytes[..4], &[1, 2, 3, 4]);
}

#[test]
fn empty_remap_has_no_bytes() {
    assert!(encode_remap(&[]).is_empty());
}

#[test]
fn bytes_saved_counts_a_block_for_every_resolved_entry() {
    assert_eq!(bytes_saved(&[0, 0, 8], 2), 4);
    assert_eq!(bytes_saved(&[0, 2048, 0, 4096, 17], 11), 3 * 2048);
    assert_eq!(bytes_saved(&[0, 0], 11), 0);
    assert_eq!(bytes_saved(&[], 11), 0);
}
