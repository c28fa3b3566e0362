use block_dedupe::dedupe::{block_size_of, hash_blocks};
use block_dedupe::digest::{same_digest, strong_digest};
use block_dedupe::rolling::RollingHash;

fn weak_of(block: &[u8]) -> u64 {
    RollingHash::new(block.len()).feed(block)
}

fn hex(bytes: &[u8]) -> String {
    let mut out = String::new();
    for byte in bytes {
        out.push_str(&format!("{:02x}", byte));
    }
    out
}

#[test]
fn strong_digest_is_blake3() {
    assert_eq!(
        hex(&strong_digest(b"abc")),
        "6437b3ac38465133ffb63b75273a8db548c558465d79db03fd359c6cd5bd9d85"
    );
    assert_eq!(
        hex(&strong_digest(b"")),
        "af1349b9f5f9a1a6a0404dea36dcc9499bcb25c9adc112b7cc9a93cae41f3262"
    );
    assert_eq!(&strong_digest(b"some block"), blake3::hash(b"some block").as_bytes());
}

#[test]
fn same_digest_compares_all_bytes() {
    let a = strong_digest(b"AAAA");
    let mut b = a;
    assert!(same_digest(&a, &b));
    b[31] ^= 1;
    assert!(!same_digest(&a, &b));
    b[31] ^= 1;
    b[0] ^= 0x80;
    assert!(!same_digest(&a, &b));
    assert!(!same_digest(&a, &strong_digest(b"BBBB")));
}

#[test]
fn block_size_is_two_to_the_exponent() {
    assert_eq!(block_size_of(0), 1);
    assert_eq!(block_size_of(2), 4);
    assert_eq!(block_size_of(11), 2048);
    assert_eq!(block_size_of(31), 1 << 31);
}

#[test]
fn index_holds_a_digest_for_every_whole_block() {
    let data = b"AAAABBBBAAAAxy";
    let index = hash_blocks(data, 2);
    assert_eq!(index.num_blocks(), 3);
    assert_eq!(index.block_digest(0), strong_digest(b"AAAA"));
    assert_eq!(index.block_digest(1), strong_digest(b"BBBB"));
    assert_eq!(index.block_digest(2), strong_digest(b"AAAA"));
}

#[test]
fn index_buckets_blocks_by_weak_fingerprint_in_ascending_order() {
    let data = b"AAAABBBBAAAACCCCBBBBAAAA";
    let index = hash_blocks(data, 2);
    assert_eq!(index.bucket(weak_of(b"AAAA")), Some(&vec![0, 2, 5]));
    assert_eq!(index.bucket(weak_of(b"BBBB")), Some(&vec![1, 4]));
    assert_eq!(index.bucket(weak_of(b"CCCC")), Some(&vec![3]));
    assert_eq!(index.bucket(weak_of(b"DDDD")), None);
}

#[test]
fn every_block_stands_in_exactly_one_bucket() {
    let mut data = Vec::new();
    for i in 0..64u32 {
        data.extend_from_slice(&(i % 7).to_le_bytes());
        data.extend_from_slice(&(i % 3).to_le_bytes());
    }
    let index = hash_blocks(&data, 3);
    assert_eq!(index.num_blocks(), 64);
    let mut seen = vec![0usize; 64];
    let mut keys = Vec::new();
    for block in 0..64usize {
        let weak = weak_of(&data[block * 8..block * 8 + 8]);
        let bucket = index.bucket(weak).expect("a bucket for every block");
        assert_eq!(bucket.iter().filter(|&&b| b == block).count(), 1);
        assert!(bucket.windows(2).all(|pair| pair[0] < pair[1]));
        if !keys.contains(&weak) {
            keys.push(weak);
            for &member in bucket {
                seen[member] += 1;
            }
        }
    }
    assert_eq!(seen, vec![1usize; 64]);
}

#[test]
fn zero_block_is_indexed_under_fingerprint_zero() {
    let index = hash_blocks(&[0u8; 8], 2);
    assert_eq!(index.bucket(0), Some(&vec![0, 1]));
}

#[test]
fn block_size_of_one_byte_indexes_every_byte() {
    let index = hash_blocks(b"aba", 0);
    assert_eq!(index.num_blocks(), 3);
    assert_eq!(index.bucket(weak_of(b"a")), Some(&vec![0, 2]));
    assert_eq!(index.bucket(weak_of(b"b")), Some(&vec![1]));
}
