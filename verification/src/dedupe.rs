//! The block index of a file and the scan that deduplicates it.

use crate::digest::{blake3_digest, same_digest, strong_digest, Digest};
use crate::laws::{lemma_index_extends, lemma_scan_points_back, points_back};
use crate::model::{
    after_byte, after_skip, block_at, block_count, block_size, confirm, confirm_all,
    empty_index, extend, in_resolved_block, index_of, index_upto, offsets, polynomial_weak,
    probe, scan, scan_from, unresolved, window_at, IndexModel, ScanState,
};
use crate::rolling::RollingHash;
use nohash_hasher::{BuildNoHashHasher, NoHashHasher};
use std::collections::HashMap;
use std::hash::BuildHasherDefault;
use vstd::arithmetic::power2::{
    lemma2_to64, lemma_pow2_strictly_increases, lemma_pow2_unfold, pow2,
};
use vstd::prelude::*;
use vstd::slice::slice_subrange;
use vstd::std_specs::hash::builds_valid_hashers;

verus! {

/// nohash_hasher's `NoHashHasher<T>`: a hasher whose output is the one integer
/// written to it. Nothing is said of what a value of it holds.
#[verifier::external_type_specification]
#[verifier::external_body]
#[verifier::reject_recursive_types(T)]
pub struct ExNoHashHasher<T>(NoHashHasher<T>);

/// std's `BuildHasherDefault<H>`: builds hashers with `H::default()`. Nothing
/// is said of what a value of it holds.
#[verifier::external_type_specification]
#[verifier::external_body]
#[verifier::reject_recursive_types(H)]
pub struct ExBuildHasherDefault<H>(BuildHasherDefault<H>);

/// Whether the hashers that `builder` builds are valid ones: all of them give
/// the same output for the same key, so that a map keyed through them behaves
/// as a map.
pub open spec fn builds_by_key(builder: BuildNoHashHasher<u64>) -> bool {
    builds_valid_hashers::<BuildNoHashHasher<u64>>()
}

/// Makes nohash_hasher's `BuildNoHashHasher<u64>` by its `default()`.
///
/// Trusted: the hashers that it builds are valid ones. Each is a
/// `NoHashHasher<u64>` in its default state, and its output is the `u64` key
/// that was written to it.
#[verifier::external_body]
fn key_hasher() -> (builder: BuildNoHashHasher<u64>)
    ensures
        builds_by_key(builder),
{
    BuildNoHashHasher::default()
}

/// std's `HashMap::with_capacity_and_hasher`: an empty map that hashes its
/// keys with `hasher`.
pub assume_specification<K, V, S>[ HashMap::<K, V, S>::with_capacity_and_hasher ](
    capacity: usize,
    hasher: S,
) -> (map: HashMap<K, V, S>)
    ensures
        map@ =~= Map::empty(),
;

/// For every aligned block of a file its strong digest, and for every weak
/// fingerprint that occurs the blocks that have it, in ascending order.
pub struct BlockIndex {
    crc_map: HashMap<u64, Vec<usize>, BuildNoHashHasher<u64>>,
    block_hashes: Vec<Digest>,
}

impl View for BlockIndex {
    type V = IndexModel;

    closed spec fn view(&self) -> IndexModel {
        IndexModel {
            digests: Seq::new(self.block_hashes@.len(), |i: int| self.block_hashes@[i]@),
            buckets: Map::new(
                |h: u64| self.crc_map@.contains_key(h),
                |h: u64| self.crc_map@[h]@,
            ),
        }
    }
}

impl BlockIndex {
    /// The invariant of an index: its buckets can be looked up by their
    /// fingerprint, and every block that a bucket names has a digest.
    pub closed spec fn wf(&self) -> bool {
        &&& builds_valid_hashers::<BuildNoHashHasher<u64>>()
        &&& self@.well_formed()
    }

    /// An index of no blocks, with room for `capacity` of them.
    pub fn with_capacity(capacity: usize) -> (index: BlockIndex)
        ensures
            index.wf(),
            index@ == empty_index(),
    {
        let index = BlockIndex {
            crc_map: HashMap::with_capacity_and_hasher(capacity, key_hasher()),
            block_hashes: Vec::with_capacity(capacity),
        };
        proof {
            assert(index@.digests =~= empty_index().digests);
            assert(index@.buckets =~= empty_index().buckets);
        }
        index
    }

    /// Takes one more block into the index, under its weak fingerprint and
    /// with its strong digest. The block gets the next number.
    pub fn push_block(&mut self, weak: u64, digest: Digest)
        requires
            old(self).wf(),
            old(self)@.digests.len() < usize::MAX,
        ensures
            final(self).wf(),
            final(self)@ == extend(old(self)@, weak, digest@),
    {
        broadcast use vstd::std_specs::hash::group_hash_axioms;

        let block = self.block_hashes.len();
        let mut bucket: Vec<usize> = match self.crc_map.remove(&weak) {
            Some(found) => found,
            None => Vec::new(),
        };
        bucket.push(block);
        self.crc_map.insert(weak, bucket);
        self.block_hashes.push(digest);
        proof {
            let model = extend(old(self)@, weak, digest@);
            assert(self@.digests =~= model.digests);
            assert(self@.buckets =~= model.buckets);
            assert forall|h: u64, j: int|
                self@.buckets.contains_key(h) && 0 <= j < self@.buckets[h].len() implies (
            #[trigger] self@.buckets[h][j]) < self@.digests.len() by {
                if h == weak {
                    if j < self@.buckets[h].len() - 1 {
                        assert(old(self)@.buckets.contains_key(h));
                        assert(self@.buckets[h][j] == old(self)@.buckets[h][j]);
                    }
                } else {
                    assert(old(self)@.buckets.contains_key(h));
                    assert(self@.buckets[h][j] == old(self)@.buckets[h][j]);
                }
            }
        }
    }

    /// The number of blocks that the index covers.
    pub fn num_blocks(&self) -> (n: usize)
        ensures
            n == self@.digests.len(),
    {
        self.block_hashes.len()
    }

    /// The strong digest of the block `block`.
    pub fn block_digest(&self, block: usize) -> (digest: Digest)
        requires
            block < self@.digests.len(),
        ensures
            digest@ == self@.digests[block as int],
    {
        self.block_hashes[block]
    }

    /// The blocks whose weak fingerprint is `weak`, in ascending order, if
    /// there is such a block.
    pub fn bucket(&self, weak: u64) -> (blocks: Option<&Vec<usize>>)
        requires
            self.wf(),
        ensures
            match blocks {
                Some(found) => self@.buckets.contains_key(weak) && found@ == self@.buckets[weak],
                None => !self@.buckets.contains_key(weak),
            },
    {
        broadcast use vstd::std_specs::hash::group_hash_axioms;

        self.crc_map.get(&weak)
    }
}

/// The block size for the exponent `k`.
pub fn block_size_of(k: u8) -> (b: usize)
    requires
        k < usize::BITS,
    ensures
        b == block_size(k),
        b >= 1,
{
    let mut b: usize = 1;
    let mut i: u8 = 0;
    proof {
        lemma2_to64();
        vstd::layout::unsigned_int_max_values();
    }
    while i < k
        invariant
            i <= k,
            k < usize::BITS,
            b == pow2(i as nat),
            b >= 1,
            (usize::MAX as nat) == pow2(usize::BITS as nat) - 1,
        decreases k - i,
    {
        proof {
            lemma_pow2_unfold((i + 1) as nat);
            if i + 1 < k {
                lemma_pow2_strictly_increases((i + 1) as nat, k as nat);
            }
            lemma_pow2_strictly_increases(k as nat, usize::BITS as nat);
        }
        b = b * 2;
        i += 1;
    }
    b
}

/// Builds a block index from the blocks of a file, handed over one at a time
/// and in order.
pub struct IndexBuilder {
    index: BlockIndex,
    rolling_hasher: RollingHash,
}

impl View for IndexBuilder {
    type V = IndexModel;

    closed spec fn view(&self) -> IndexModel {
        self.index@
    }
}

impl IndexBuilder {
    /// The invariant of a builder.
    pub closed spec fn wf(&self) -> bool {
        &&& self.index.wf()
        &&& self.rolling_hasher.wf()
    }

    /// The length that every block must have.
    pub closed spec fn block_len(&self) -> nat {
        self.rolling_hasher@.capacity
    }

    /// A builder for blocks of `2^block_size_log2` bytes, with room for
    /// `expected_blocks` of them and none taken yet.
    pub fn new(block_size_log2: u8, expected_blocks: usize) -> (builder: IndexBuilder)
        requires
            block_size_log2 < usize::BITS,
        ensures
            builder.wf(),
            builder.block_len() == block_size(block_size_log2),
            builder@ == empty_index(),
    {
        let block_size = block_size_of(block_size_log2);
        IndexBuilder {
            index: BlockIndex::with_capacity(expected_blocks),
            rolling_hasher: RollingHash::new(block_size),
        }
    }

    /// The number of bytes in a block.
    pub fn block_size(&self) -> (size: usize)
        ensures
            size == self.block_len(),
    {
        self.rolling_hasher.window_size()
    }

    /// Takes the next block of the file: computes its weak fingerprint from
    /// scratch and its strong digest, and enters it into the index.
    pub fn add_block(&mut self, block: &[u8])
        requires
            old(self).wf(),
            block@.len() == old(self).block_len(),
            old(self)@.digests.len() < usize::MAX,
        ensures
            final(self).wf(),
            final(self).block_len() == old(self).block_len(),
            final(self)@ == extend(old(self)@, polynomial_weak()(block@), blake3_digest(block@)),
    {
        self.rolling_hasher.reset();
        let rolling_hash = self.rolling_hasher.feed(block);
        let secure_hash = strong_digest(block);
        self.index.push_block(rolling_hash, secure_hash);
    }

    /// The index of the blocks taken so far.
    pub fn finish(self) -> (index: BlockIndex)
        requires
            self.wf(),
        ensures
            index.wf(),
            index@ == self@,
    {
        self.index
    }
}

/// Indexes `data`, cut into blocks of `2^block_size_log2` bytes: the strong
/// digest of every block, and the blocks by their weak fingerprint. Bytes
/// after the last whole block are not indexed.
pub fn hash_blocks(data: &[u8], block_size_log2: u8) -> (index: BlockIndex)
    requires
        block_size_log2 < usize::BITS,
    ensures
        index.wf(),
        index@ == index_of(data@, block_size(block_size_log2), polynomial_weak()),
        index@.digests.len() == block_count(data@.len(), block_size(block_size_log2)),
        index@.digests.len() * block_size(block_size_log2) <= data@.len() <= usize::MAX,
{
    let block_size = block_size_of(block_size_log2);
    let num_blocks = data.len() / block_size;
    let ghost b = block_size as nat;
    let ghost weak = polynomial_weak();

    let mut builder = IndexBuilder::new(block_size_log2, num_blocks);
    proof {
        let none = index_upto(data@, b, weak, 0);
        assert(none.digests =~= empty_index().digests);
        assert(none.buckets =~= empty_index().buckets);
    }

    assert(num_blocks * block_size <= data@.len()) by (nonlinear_arith)
        requires
            num_blocks == data@.len() / (block_size as nat),
            block_size >= 1,
    ;

    let mut index: usize = 0;
    while index < num_blocks
        invariant
            index <= num_blocks,
            block_size >= 1,
            b == block_size,
            weak == polynomial_weak(),
            num_blocks * block_size <= data@.len() <= usize::MAX,
            builder.wf(),
            builder.block_len() == b,
            builder@ == index_upto(data@, b, weak, index as nat),
        decreases num_blocks - index,
    {
        assert(index * block_size + block_size <= data@.len()) by (nonlinear_arith)
            requires
                index < num_blocks,
                num_blocks * block_size <= data@.len(),
        ;
        let start = index * block_size;
        let buffer = slice_subrange(data, start, start + block_size);
        assert(buffer@ == block_at(data@, b, index as int));
        proof {
            lemma_index_extends(data@, b, weak, index as nat);
        }
        builder.add_block(buffer);
        index += 1;
    }
    builder.finish()
}

/// Holds one candidate block against the window that ends at `window_end`,
/// given the digest stored for the block and the digest of the window. The
/// block is resolved if it was unresolved, starts no earlier than the window
/// ends, and the digests agree: its entry then is the distance from its start
/// back to the window's start.
pub fn confirm_block(
    remap: &mut Vec<usize>,
    block: usize,
    window_end: usize,
    block_size: usize,
    block_digest: &Digest,
    window_digest: &Digest,
) -> (resolved: bool)
    requires
        block < old(remap)@.len(),
        block_size <= window_end,
        block * block_size <= usize::MAX,
    ensures
        resolved == (old(remap)@[block as int] == 0 && window_end <= block * block_size
            && block_digest@ == window_digest@),
        resolved ==> final(remap)@ == old(remap)@.update(
            block as int,
            (block * block_size + block_size - window_end) as usize,
        ),
        !resolved ==> final(remap)@ == old(remap)@,
{
    let block_pos = block * block_size;
    if remap[block] == 0 && window_end <= block_pos && same_digest(block_digest, window_digest) {
        remap[block] = block_pos - (window_end - block_size);
        true
    } else {
        false
    }
}

/// What a scan asks for next.
#[derive(Clone, Copy, Debug, PartialEq, Eq)]
pub enum Step {
    /// Read one byte and `push` it.
    Read,
    /// Move the read position one block ahead and call `skip`.
    Skip,
    /// Nothing: the remap table is complete.
    Done,
}

/// What a scan in `state` asks for next in a file of `total` bytes. It is done
/// at the end of the file, and also where a jump would reach or pass the end,
/// since nothing is read after it.
pub open spec fn next_step_of(state: ScanState, b: nat, total: nat) -> Step {
    if state.cursor >= total {
        Step::Done
    } else if in_resolved_block(state, b) {
        if state.cursor + b >= total {
            Step::Done
        } else {
            Step::Skip
        }
    } else {
        Step::Read
    }
}

/// A scan in progress over the bytes of a file, fed from outside: the caller
/// reads the bytes and moves the read position, the scanner decides what is
/// to happen next and keeps the remap table.
pub struct Scanner {
    block_index: BlockIndex,
    rolling_hasher: RollingHash,
    remap: Vec<usize>,
    window_end: usize,
    block_size: usize,
}

impl View for Scanner {
    type V = ScanState;

    closed spec fn view(&self) -> ScanState {
        ScanState {
            cursor: self.window_end as nat,
            window: self.rolling_hasher@.bytes,
            remap: offsets(self.remap@),
        }
    }
}

impl Scanner {
    /// The invariant of a scanner: the window holds no more than a block and
    /// no more than was read, and the remap table has an entry for each block
    /// of the index.
    pub closed spec fn wf(&self) -> bool {
        &&& self.block_index.wf()
        &&& self.rolling_hasher.wf()
        &&& self.rolling_hasher@.capacity == self.block_size
        &&& self.block_size >= 1
        &&& self.rolling_hasher@.bytes.len() <= self.window_end
        &&& self.remap@.len() == self.block_index@.digests.len()
        &&& self.block_index@.digests.len() * self.block_size <= usize::MAX
    }

    /// The index that the scan probes.
    pub closed spec fn index(&self) -> IndexModel {
        self.block_index@
    }

    /// The number of bytes in a block.
    pub closed spec fn block_len(&self) -> nat {
        self.block_size as nat
    }

    /// A scanner at the start of a file, with no block resolved.
    pub fn new(block_size_log2: u8, block_index: BlockIndex) -> (scanner: Scanner)
        requires
            block_size_log2 < usize::BITS,
            block_index.wf(),
            block_index@.digests.len() * block_size(block_size_log2) <= usize::MAX,
        ensures
            scanner.wf(),
            scanner.index() == block_index@,
            scanner.block_len() == block_size(block_size_log2),
            scanner@ == (ScanState {
                cursor: 0,
                window: Seq::empty(),
                remap: unresolved(block_index@.digests.len()),
            }),
    {
        let block_size = block_size_of(block_size_log2);
        let num_blocks = block_index.num_blocks();
        let scanner = Scanner {
            block_index,
            rolling_hasher: RollingHash::new(block_size),
            remap: vec![0; num_blocks],
            window_end: 0,
            block_size,
        };
        assert(scanner@.remap =~= unresolved(block_index@.digests.len()));
        scanner
    }

    /// The number of bytes behind the scanner.
    pub fn position(&self) -> (cursor: usize)
        ensures
            cursor == self@.cursor,
    {
        self.window_end
    }

    /// The number of bytes in a block, which is how far a jump goes.
    pub fn block_size(&self) -> (size: usize)
        ensures
            size == self.block_len(),
    {
        self.block_size
    }

    /// Whether the next bytes belong to a block that is already resolved.
    pub fn in_resolved_block(&self) -> (resolved: bool)
        requires
            self.wf(),
        ensures
            resolved == in_resolved_block(self@, self.block_len()),
    {
        let current = self.window_end / self.block_size;
        current < self.remap.len() && self.remap[current] != 0
    }

    /// What the caller is to do next, in a file of `total_bytes` bytes.
    pub fn next_step(&self, total_bytes: usize) -> (step: Step)
        requires
            self.wf(),
        ensures
            step == next_step_of(self@, self.block_len(), total_bytes as nat),
    {
        if self.window_end >= total_bytes {
            Step::Done
        } else if self.in_resolved_block() {
            if total_bytes - self.window_end <= self.block_size {
                Step::Done
            } else {
                Step::Skip
            }
        } else {
            Step::Read
        }
    }

    /// Records a jump of one block's length: the window is emptied, since it
    /// must not span the gap.
    pub fn skip(&mut self)
        requires
            old(self).wf(),
            old(self)@.cursor + old(self).block_len() <= usize::MAX,
        ensures
            final(self).wf(),
            final(self).index() == old(self).index(),
            final(self).block_len() == old(self).block_len(),
            final(self)@ == after_skip(old(self)@, old(self).block_len()),
    {
        self.window_end = self.window_end + self.block_size;
        self.rolling_hasher.reset();
    }

    /// Takes the next byte of the file: the window slides over it, and once
    /// the window is full and its weak fingerprint is not zero, the blocks
    /// that share the fingerprint are held against it.
    pub fn push(&mut self, byte: u8)
        requires
            old(self).wf(),
            old(self)@.cursor < usize::MAX,
        ensures
            final(self).wf(),
            final(self).index() == old(self).index(),
            final(self).block_len() == old(self).block_len(),
            final(self)@ == after_byte(
                old(self)@,
                old(self).index(),
                polynomial_weak(),
                old(self).block_len(),
                byte,
            ),
    {
        self.window_end = self.window_end + 1;
        let rolling_hash = self.rolling_hasher.update(byte);
        if self.rolling_hasher.valid() {
            self.probe_index(rolling_hash);
        }
    }

    /// Holds the blocks that share the window's weak fingerprint against the
    /// window, and resolves those that it confirms. The window's strong
    /// digest is computed once, and only when a candidate asks for it.
    fn probe_index(&mut self, rolling_hash: u64)
        requires
            old(self).wf(),
            old(self).rolling_hasher@.bytes.len() == old(self).block_size,
        ensures
            final(self).wf(),
            final(self).block_index == old(self).block_index,
            final(self).rolling_hasher == old(self).rolling_hasher,
            final(self).window_end == old(self).window_end,
            final(self).block_size == old(self).block_size,
            offsets(final(self).remap@) == probe(
                offsets(old(self).remap@),
                old(self).block_index@,
                rolling_hash,
                old(self).rolling_hasher@.bytes,
                old(self).window_end as nat,
                old(self).block_size as nat,
            ),
    {
        broadcast use vstd::std_specs::hash::group_hash_axioms;

        if rolling_hash == 0 {
            return ;
        }
        let block_size = self.block_size;
        let window_end = self.window_end;
        let ghost b = block_size as nat;
        let ghost digests = self.block_index@.digests;
        let ghost start = offsets(self.remap@);
        let ghost window_digest = blake3_digest(self.rolling_hasher@.bytes);
        match self.block_index.crc_map.get(&rolling_hash) {
            Some(indices) => {
                let ghost bucket = indices@;
                assert(bucket == self.block_index@.buckets[rolling_hash]);
                let mut secure_hash: Option<Digest> = None;
                let mut j: usize = 0;
                assert(bucket.take(0) =~= Seq::<usize>::empty());
                while j < indices.len()
                    invariant
                        j <= bucket.len(),
                        bucket == indices@,
                        b == block_size,
                        self.block_index == old(self).block_index,
                        self.rolling_hasher == old(self).rolling_hasher,
                        self.window_end == old(self).window_end,
                        self.block_size == old(self).block_size,
                        digests == self.block_index@.digests,
                        block_size <= window_end,
                        window_digest == blake3_digest(self.rolling_hasher@.bytes),
                        self.remap@.len() == digests.len(),
                        digests.len() == self.block_index.block_hashes@.len(),
                        digests.len() * block_size <= usize::MAX,
                        forall|i: int|
                            0 <= i < bucket.len() ==> (#[trigger] bucket[i]) < digests.len(),
                        forall|i: int|
                            0 <= i < digests.len() ==> (#[trigger] digests[i])
                                == self.block_index.block_hashes@[i]@,
                        secure_hash matches Some(d) ==> d@ == window_digest,
                        offsets(self.remap@) == confirm_all(
                            start,
                            bucket.take(j as int),
                            window_end as nat,
                            b,
                            window_digest,
                            digests,
                        ),
                    decreases bucket.len() - j,
                {
                    let index = indices[j];
                    let ghost before = offsets(self.remap@);
                    assert(bucket.take(j + 1).drop_last() =~= bucket.take(j as int));
                    assert(bucket.take(j + 1).last() == index);
                    assert(index * block_size <= usize::MAX) by (nonlinear_arith)
                        requires
                            index < digests.len(),
                            digests.len() * block_size <= usize::MAX,
                    ;
                    let block_pos = index * block_size;
                    if self.remap[index] == 0 && window_end <= block_pos {
                        let confirmed = match secure_hash {
                            Some(known) => known,
                            None => {
                                let window = self.rolling_hasher.window_bytes();
                                let computed = strong_digest(window.as_slice());
                                secure_hash = Some(computed);
                                computed
                            },
                        };
                        let resolved = confirm_block(
                            &mut self.remap,
                            index,
                            window_end,
                            block_size,
                            &self.block_index.block_hashes[index],
                            &confirmed,
                        );
                        if resolved {
                            assert(offsets(self.remap@) =~= before.update(
                                index as int,
                                (index * b + b - window_end) as nat,
                            ));
                        }
                    }
                    assert(offsets(self.remap@) == confirm(
                        before,
                        index as int,
                        window_end as nat,
                        b,
                        window_digest,
                        digests,
                    ));
                    j += 1;
                }
                assert(bucket.take(bucket.len() as int) =~= bucket);
            },
            None => {},
        }
    }

    /// Ends the scan and hands out the remap table.
    pub fn finish(self) -> (remap: Vec<usize>)
        requires
            self.wf(),
        ensures
            offsets(remap@) == self@.remap,
            remap@.len() == self.index().digests.len(),
    {
        self.remap
    }
}

/// Scans `data` byte by byte with a rolling window of one block, and returns
/// the remap table: for each block of the index, zero where no earlier copy
/// was found, else the distance in bytes from the block's start back to the
/// start of a window with the same strong digest.
pub fn dedupe(data: &[u8], block_size_log2: u8, block_index: BlockIndex) -> (remap: Vec<usize>)
    requires
        block_size_log2 < usize::BITS,
        block_index.wf(),
        block_index@.digests.len() * block_size(block_size_log2) <= usize::MAX,
    ensures
        remap@.len() == block_index@.digests.len(),
        offsets(remap@) == scan(
            data@,
            block_size(block_size_log2),
            polynomial_weak(),
            block_index@,
        ),
        points_back(offsets(remap@), data@, block_size(block_size_log2), block_index@.digests),
{
    let ghost b = block_size(block_size_log2);
    let ghost weak = polynomial_weak();
    let ghost model = block_index@;

    let mut scanner = Scanner::new(block_size_log2, block_index);
    let num_bytes = data.len();
    let ghost mut run_start: nat = 0;
    assert(data@.subrange(0, 0) =~= Seq::<u8>::empty());

    let mut at_end = false;
    while !at_end
        invariant
            at_end ==> scanner@.remap == scan(data@, b, weak, model),
            scanner.wf(),
            scanner.index() == model,
            scanner.block_len() == b,
            b >= 1,
            weak == polynomial_weak(),
            num_bytes == data@.len(),
            run_start <= scanner@.cursor <= num_bytes,
            scanner@.remap.len() == model.digests.len(),
            scanner@.window == data@.subrange(
                if scanner@.cursor - run_start >= b {
                    scanner@.cursor - b
                } else {
                    run_start as int
                },
                scanner@.cursor as int,
            ),
            scan_from(data@, b, weak, model, scanner@.cursor, run_start, scanner@.remap) == scan(
                data@,
                b,
                weak,
                model,
            ),
        decreases
            num_bytes - scanner@.cursor,
            (if at_end {
                0int
            } else {
                1int
            }),
    {
        let ghost before = scanner@;
        match scanner.next_step(num_bytes) {
            Step::Done => {
                proof {
                    if before.cursor < num_bytes {
                        let jumped = before.cursor + b;
                        assert(scan_from(
                            data@,
                            b,
                            weak,
                            model,
                            before.cursor,
                            run_start,
                            before.remap,
                        ) == scan_from(data@, b, weak, model, jumped, jumped, before.remap));
                    }
                }
                at_end = true;
            },
            Step::Skip => {
                scanner.skip();
                proof {
                    let jumped = before.cursor + b;
                    assert(scan_from(
                        data@,
                        b,
                        weak,
                        model,
                        before.cursor,
                        run_start,
                        before.remap,
                    ) == scan_from(data@, b, weak, model, jumped, jumped, before.remap));
                    run_start = jumped;
                    assert(data@.subrange(jumped as int, jumped as int) =~= Seq::<u8>::empty());
                }
            },
            Step::Read => {
                scanner.push(data[scanner.position()]);
                proof {
                    let end = before.cursor + 1;
                    if end - run_start >= b {
                        assert(scanner@.window =~= data@.subrange(end - b, end as int));
                        assert(scanner@.window == window_at(data@, end - b, b));
                    } else {
                        assert(scanner@.window =~= data@.subrange(run_start as int, end as int));
                    }
                    assert(scan_from(
                        data@,
                        b,
                        weak,
                        model,
                        before.cursor,
                        run_start,
                        before.remap,
                    ) == scan_from(data@, b, weak, model, end, run_start, scanner@.remap));
                }
            },
        }
    }
    proof {
        lemma_scan_points_back(data@, b, weak, model);
    }
    scanner.finish()
}

} // verus!
