use block_dedupe::rolling::{absorb_byte, departure_table, lookup_table, RollingHash};

const POLY: u64 = 0xc96c5795d7870f42;

/// The fingerprint computed bit by bit, without any table.
fn bitwise(bytes: &[u8]) -> u64 {
    let mut h: u64 = 0;
    for &byte in bytes {
        h ^= byte as u64;
        for _ in 0..8 {
            h = if h & 1 == 1 { (h >> 1) ^ POLY } else { h >> 1 };
        }
    }
    h
}

fn sample(len: usize, seed: u64) -> Vec<u8> {
    let mut state = seed;
    let mut out = Vec::with_capacity(len);
    for _ in 0..len {
        state = state.wrapping_mul(6364136223846793005).wrapping_add(1442695040888963407);
        out.push((state >> 56) as u8);
    }
    out
}

#[test]
fn lookup_table_has_the_polynomial_entries() {
    let table = lookup_table();
    assert_eq!(table.len(), 256);
    assert_eq!(table[0], 0);
    assert_eq!(table[1], 0xb32e4cbe03a75f6f);
    assert_eq!(table[128], POLY);
    for i in 0..256usize {
        let mut r = i as u64;
        for _ in 0..8 {
            r = if r & 1 == 1 { (r >> 1) ^ POLY } else { r >> 1 };
        }
        assert_eq!(table[i], r);
    }
}

#[test]
fn absorbing_one_byte_from_zero_reads_the_table() {
    let table = lookup_table();
    assert_eq!(absorb_byte(&table, 0, 1), 0xb32e4cbe03a75f6f);
    assert_eq!(absorb_byte(&table, 0, 0), 0);
    assert_eq!(absorb_byte(&table, 0x0100, 0), 1 ^ table[0]);
}

#[test]
fn departure_table_is_the_fingerprint_of_a_byte_and_zeros() {
    let table = lookup_table();
    for &capacity in &[0usize, 1, 4, 7, 64] {
        let departures = departure_table(&table, capacity);
        assert_eq!(departures.len(), 256);
        for byte in 0..256usize {
            let mut bytes = vec![byte as u8];
            bytes.extend(std::iter::repeat(0u8).take(capacity));
            assert_eq!(departures[byte], bitwise(&bytes));
        }
    }
}

#[test]
fn feed_gives_the_fingerprint_of_the_buffer() {
    let mut engine = RollingHash::new(4);
    assert_eq!(engine.feed(b"AAAA"), bitwise(b"AAAA"));
    assert!(engine.valid());
    assert_eq!(engine.window_bytes(), b"AAAA".to_vec());
    assert_eq!(engine.feed(b"wxyz"), bitwise(b"wxyz"));
    assert_eq!(engine.window_bytes(), b"wxyz".to_vec());
}

#[test]
fn feed_of_zeros_is_zero() {
    let mut engine = RollingHash::new(16);
    assert_eq!(engine.feed(&[0u8; 16]), 0);
}

#[test]
fn update_fills_the_window_before_it_is_valid() {
    let mut engine = RollingHash::new(3);
    assert!(!engine.valid());
    assert_eq!(engine.update(b'a'), bitwise(b"a"));
    assert!(!engine.valid());
    assert_eq!(engine.update(b'b'), bitwise(b"ab"));
    assert!(!engine.valid());
    assert_eq!(engine.update(b'c'), bitwise(b"abc"));
    assert!(engine.valid());
    assert_eq!(engine.window_bytes(), b"abc".to_vec());
}

#[test]
fn update_rolls_the_oldest_byte_out() {
    let mut engine = RollingHash::new(3);
    for &byte in b"abc" {
        engine.update(byte);
    }
    assert_eq!(engine.update(b'd'), bitwise(b"bcd"));
    assert_eq!(engine.window_bytes(), b"bcd".to_vec());
    assert_eq!(engine.update(b'e'), bitwise(b"cde"));
    assert!(engine.valid());
}

#[test]
fn rolling_agrees_with_hashing_every_window_from_scratch() {
    for &size in &[1usize, 2, 5, 16, 33] {
        let data = sample(200, size as u64);
        let mut engine = RollingHash::new(size);
        for end in 1..=data.len() {
            let weak = engine.update(data[end - 1]);
            let start = end.saturating_sub(size);
            assert_eq!(weak, bitwise(&data[start..end]));
            assert_eq!(engine.valid(), end >= size);
            let held: Vec<u8> = engine.current_window().iter().copied().collect();
            assert_eq!(held, data[start..end].to_vec());
        }
    }
}

#[test]
fn update_after_feed_continues_from_the_fed_window() {
    let mut engine = RollingHash::new(4);
    engine.feed(b"abcd");
    assert_eq!(engine.update(b'e'), bitwise(b"bcde"));
}

#[test]
fn reset_empties_the_window() {
    let mut engine = RollingHash::new(2);
    engine.update(1);
    engine.update(2);
    assert!(engine.valid());
    engine.reset();
    assert!(!engine.valid());
    assert!(engine.window_bytes().is_empty());
    assert_eq!(engine.window_size(), 2);
    assert_eq!(engine.update(9), bitwise(&[9]));
    assert!(!engine.valid());
    assert_eq!(engine.update(8), bitwise(&[9, 8]));
    assert!(engine.valid());
}

#[test]
fn window_of_no_bytes_is_always_valid_and_hashes_to_zero() {
    let mut engine = RollingHash::new(0);
    assert!(engine.valid());
    assert_eq!(engine.update(7), 0);
    assert!(engine.valid());
    assert!(engine.window_bytes().is_empty());
    assert_eq!(engine.feed(&[]), 0);
}
