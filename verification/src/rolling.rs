//! The rolling hash engine: a window of the most recent bytes and its weak
//! fingerprint, advanced one byte at a time without rescanning the window.

use crate::fingerprint::{
    absorb, departure, fingerprint, lemma_departure_linear, lemma_departure_step,
    lemma_fingerprint_rolls, shift_round, shift_rounds, table_entry, POLYNOMIAL,
};
use std::collections::VecDeque;
use vstd::prelude::*;

verus! {

/// What a rolling hash stands for: the bytes in its window, oldest first, and
/// the number of bytes that the window holds when it is full.
pub struct Window {
    pub bytes: Seq<u8>,
    pub capacity: nat,
}

/// The window after one more byte: the byte is appended, and only the last
/// `capacity` bytes stay.
pub open spec fn slide(bytes: Seq<u8>, capacity: nat, byte: u8) -> Seq<u8> {
    let grown = bytes.push(byte);
    if grown.len() <= capacity {
        grown
    } else {
        grown.skip(grown.len() - capacity)
    }
}

/// A sliding window over a byte stream together with its weak fingerprint.
pub struct RollingHash {
    window: VecDeque<u8>,
    capacity: usize,
    hash: u64,
    table: Vec<u64>,
    departures: Vec<u64>,
}

/// Whether `table` is the polynomial's lookup table.
pub open spec fn is_lookup_table(table: Seq<u64>) -> bool {
    &&& table.len() == 256
    &&& forall|i: int| 0 <= i < 256 ==> #[trigger] table[i] == table_entry(i as u8)
}

/// Whether `departures` says, for each byte, what it still contributes after
/// `capacity` further bytes.
pub open spec fn is_departure_table(departures: Seq<u64>, capacity: nat) -> bool {
    &&& departures.len() == 256
    &&& forall|i: int| 0 <= i < 256 ==> #[trigger] departures[i] == departure(i as u8, capacity)
}

/// Computes the polynomial's lookup table: for each byte, eight shifts.
pub fn lookup_table() -> (table: Vec<u64>)
    ensures
        is_lookup_table(table@),
{
    let mut table: Vec<u64> = Vec::with_capacity(256);
    let mut i: usize = 0;
    while i < 256
        invariant
            i <= 256,
            table@.len() == i,
            forall|j: int| 0 <= j < i ==> #[trigger] table@[j] == table_entry(j as u8),
        decreases 256 - i,
    {
        let mut r: u64 = i as u64;
        let mut round: usize = 0;
        assert(shift_rounds(i as u64, 0) == i as u64);
        while round < 8
            invariant
                round <= 8,
                i < 256,
                r == shift_rounds(i as u64, round as nat),
            decreases 8 - round,
        {
            if r & 1 == 1 {
                r = (r >> 1) ^ POLYNOMIAL;
            } else {
                r = r >> 1;
            }
            round += 1;
            assert(shift_rounds(i as u64, round as nat) == shift_round(
                shift_rounds(i as u64, (round - 1) as nat),
            ));
        }
        assert((i as u8) as u64 == i as u64);
        table.push(r);
        i += 1;
    }
    table
}

/// One step of the fingerprint: `byte` absorbed into `h`.
pub fn absorb_byte(table: &Vec<u64>, h: u64, byte: u8) -> (next: u64)
    requires
        is_lookup_table(table@),
    ensures
        next == absorb(h, byte),
{
    let low: u64 = (h ^ (byte as u64)) & 0xff;
    assert(low < 256 && low == (low as u8) as u64) by (bit_vector)
        requires
            low == (h ^ (byte as u64)) & 0xff,
    ;
    (h >> 8) ^ table[low as usize]
}

/// Computes, for each byte, what it still contributes to a fingerprint after
/// `capacity` further bytes. Only the eight single-bit bytes are carried
/// through `capacity` steps; every other entry is the exclusive-or of entries
/// already known.
pub fn departure_table(table: &Vec<u64>, capacity: usize) -> (departures: Vec<u64>)
    requires
        is_lookup_table(table@),
    ensures
        is_departure_table(departures@, capacity as nat),
{
    let mut departures: Vec<u64> = Vec::with_capacity(256);
    departures.push(0);
    proof {
        lemma_departure_linear(0, 0, capacity as nat);
    }
    let mut bit: usize = 1;
    while bit < 256
        invariant
            is_lookup_table(table@),
            bit == 1 || bit == 2 || bit == 4 || bit == 8 || bit == 16 || bit == 32 || bit == 64
                || bit == 128 || bit == 256,
            departures@.len() == bit,
            forall|j: int|
                0 <= j < bit ==> #[trigger] departures@[j] == departure(j as u8, capacity as nat),
        decreases 256 - bit,
    {
        let mut h: u64 = table[bit];
        let mut distance: usize = 0;
        proof {
            lemma_departure_step(bit as u8, 0);
        }
        while distance < capacity
            invariant
                is_lookup_table(table@),
                bit < 256,
                distance <= capacity,
                h == departure(bit as u8, distance as nat),
            decreases capacity - distance,
        {
            proof {
                lemma_departure_step(bit as u8, distance as nat);
            }
            h = absorb_byte(table, h, 0);
            distance += 1;
        }
        let mut low: usize = 0;
        while low < bit
            invariant
                bit == 1 || bit == 2 || bit == 4 || bit == 8 || bit == 16 || bit == 32 || bit
                    == 64 || bit == 128,
                low <= bit,
                h == departure(bit as u8, capacity as nat),
                departures@.len() == bit + low,
                forall|j: int|
                    0 <= j < bit + low ==> #[trigger] departures@[j] == departure(
                        j as u8,
                        capacity as nat,
                    ),
            decreases bit - low,
        {
            let known: u64 = departures[low];
            proof {
                let b: u8 = bit as u8;
                let l: u8 = low as u8;
                let sum: u8 = (bit + low) as u8;
                assert(sum == l ^ b) by (bit_vector)
                    requires
                        b == 1 || b == 2 || b == 4 || b == 8 || b == 16 || b == 32 || b == 64 || b
                            == 128,
                        l < b,
                        sum == b + l,
                ;
                lemma_departure_linear(l, b, capacity as nat);
            }
            departures.push(known ^ h);
            low += 1;
        }
        bit = bit * 2;
    }
    departures
}

impl View for RollingHash {
    type V = Window;

    closed spec fn view(&self) -> Window {
        Window { bytes: self.window@, capacity: self.capacity as nat }
    }
}

impl RollingHash {
    /// The invariant of the engine: the window never outgrows its capacity,
    /// the stored fingerprint is that of the window, and both tables are
    /// those of the polynomial and of the capacity.
    pub closed spec fn wf(&self) -> bool {
        &&& self.window@.len() <= self.capacity
        &&& self.hash == fingerprint(self.window@)
        &&& is_lookup_table(self.table@)
        &&& is_departure_table(self.departures@, self.capacity as nat)
    }

    /// An engine for windows of `window_size` bytes, with nothing in its
    /// window yet.
    pub fn new(window_size: usize) -> (engine: RollingHash)
        ensures
            engine.wf(),
            engine@.bytes == Seq::<u8>::empty(),
            engine@.capacity == window_size,
    {
        let table = lookup_table();
        let departures = departure_table(&table, window_size);
        RollingHash {
            window: VecDeque::with_capacity(window_size),
            capacity: window_size,
            hash: 0,
            table,
            departures,
        }
    }

    /// Empties the window and forgets the fingerprint; the capacity stays.
    pub fn reset(&mut self)
        requires
            old(self).wf(),
        ensures
            final(self).wf(),
            final(self)@.bytes == Seq::<u8>::empty(),
            final(self)@.capacity == old(self)@.capacity,
    {
        self.window.clear();
        self.hash = 0;
    }

    /// Loads a whole window at once and returns its fingerprint, computed
    /// from scratch. Whatever the window held before is gone.
    pub fn feed(&mut self, buffer: &[u8]) -> (weak: u64)
        requires
            old(self).wf(),
            buffer@.len() == old(self)@.capacity,
        ensures
            final(self).wf(),
            final(self)@.bytes == buffer@,
            final(self)@.capacity == old(self)@.capacity,
            weak == fingerprint(buffer@),
    {
        self.window.clear();
        self.hash = 0;
        let mut i: usize = 0;
        while i < buffer.len()
            invariant
                i <= buffer@.len(),
                buffer@.len() == self.capacity,
                self.capacity == old(self).capacity,
                self.window@ == buffer@.take(i as int),
                self.hash == fingerprint(self.window@),
                is_lookup_table(self.table@),
                is_departure_table(self.departures@, self.capacity as nat),
            decreases buffer@.len() - i,
        {
            let byte = buffer[i];
            self.hash = absorb_byte(&self.table, self.hash, byte);
            self.window.push_back(byte);
            i += 1;
            proof {
                let now = buffer@.take(i as int);
                assert(now.drop_last() =~= buffer@.take(i - 1));
                assert(now.last() == byte);
                assert(self.window@ =~= now);
            }
        }
        assert(buffer@.take(buffer@.len() as int) =~= buffer@);
        self.hash
    }

    /// Pushes one byte into the window and returns the fingerprint of the
    /// window as it then stands. A full window first lets go of its oldest
    /// byte; the other bytes of the window are not read again.
    pub fn update(&mut self, byte: u8) -> (weak: u64)
        requires
            old(self).wf(),
        ensures
            final(self).wf(),
            final(self)@.bytes == slide(old(self)@.bytes, old(self)@.capacity, byte),
            final(self)@.capacity == old(self)@.capacity,
            weak == fingerprint(final(self)@.bytes),
    {
        let ghost before = self.window@;
        if self.window.len() < self.capacity {
            self.hash = absorb_byte(&self.table, self.hash, byte);
            self.window.push_back(byte);
            proof {
                assert(self.window@.drop_last() =~= before);
                assert(before.push(byte).skip(0) =~= before.push(byte));
            }
        } else {
            match self.window.pop_front() {
                Some(oldest) => {
                    proof {
                        lemma_fingerprint_rolls(before, byte);
                        assert((oldest as usize) as u8 == oldest);
                    }
                    let entered = absorb_byte(&self.table, self.hash, byte);
                    self.hash = entered ^ self.departures[oldest as usize];
                    self.window.push_back(byte);
                    proof {
                        assert(self.window@ =~= before.skip(1).push(byte));
                        assert(before.push(byte).skip(1) =~= before.skip(1).push(byte));
                    }
                },
                None => {
                    proof {
                        assert(before.push(byte).skip(1) =~= Seq::<u8>::empty());
                        assert(self.window@ =~= Seq::<u8>::empty());
                    }
                },
            }
        }
        self.hash
    }

    /// Whether the window is full, so that the fingerprint covers exactly
    /// `capacity` bytes.
    pub fn valid(&self) -> (full: bool)
        requires
            self.wf(),
        ensures
            full == (self@.bytes.len() == self@.capacity),
    {
        self.window.len() == self.capacity
    }

    /// The bytes now in the window, oldest first.
    pub fn current_window(&self) -> (window: &VecDeque<u8>)
        ensures
            window@ == self@.bytes,
    {
        &self.window
    }

    /// The size of a full window.
    pub fn window_size(&self) -> (size: usize)
        ensures
            size == self@.capacity,
    {
        self.capacity
    }

    /// A copy of the window in one piece, oldest byte first.
    pub fn window_bytes(&self) -> (bytes: Vec<u8>)
        ensures
            bytes@ == self@.bytes,
    {
        let mut bytes: Vec<u8> = Vec::with_capacity(self.window.len());
        let mut i: usize = 0;
        while i < self.window.len()
            invariant
                i <= self.window@.len(),
                bytes@ == self.window@.take(i as int),
            decreases self.window@.len() - i,
        {
            bytes.push(self.window[i]);
            i += 1;
            assert(bytes@ =~= self.window@.take(i as int));
        }
        assert(self.window@.take(self.window@.len() as int) =~= self.window@);
        bytes
    }
}

} // verus!
