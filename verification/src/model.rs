//! The mathematical model of a file's block index and of the scan that turns
//! it into a remap table.
//!
//! Everything here is stated over any weak fingerprint, given as a function
//! from a window's bytes to 64 bits: which fingerprint probes the index
//! changes what is found, never whether a reported match was confirmed.

use crate::digest::blake3_digest;
use crate::fingerprint::fingerprint;
use crate::rolling::slide;
use vstd::arithmetic::power2::pow2;
use vstd::prelude::*;

verus! {

/// The number of bytes in a block whose size has the exponent `k`.
pub open spec fn block_size(k: u8) -> nat {
    pow2(k as nat)
}

/// The `b` bytes of `data` that start at `start`.
pub open spec fn window_at(data: Seq<u8>, start: int, b: nat) -> Seq<u8> {
    data.subrange(start, start + b)
}

/// The aligned block of `data` with the index `i`.
pub open spec fn block_at(data: Seq<u8>, b: nat, i: int) -> Seq<u8> {
    window_at(data, i * b, b)
}

/// The number of whole blocks in a file of `len` bytes; a trailing partial
/// block does not count.
pub open spec fn block_count(len: nat, b: nat) -> nat {
    if b == 0 {
        0
    } else {
        len / b
    }
}

/// The weak fingerprint that the library computes.
pub open spec fn polynomial_weak() -> spec_fn(Seq<u8>) -> u64 {
    |w: Seq<u8>| fingerprint(w)
}

/// What a block index stands for: the strong digest of every block, and for
/// each weak fingerprint that occurs the blocks that have it.
pub struct IndexModel {
    pub digests: Seq<Seq<u8>>,
    pub buckets: Map<u64, Seq<usize>>,
}

impl IndexModel {
    /// Every block that a bucket names has a digest.
    pub open spec fn well_formed(self) -> bool {
        forall|h: u64, j: int|
            self.buckets.contains_key(h) && 0 <= j < self.buckets[h].len() ==> (
            #[trigger] self.buckets[h][j]) < self.digests.len()
    }
}

/// The blocks among the first `n` whose weak fingerprint is `h`, in
/// ascending order.
pub open spec fn bucket_upto(
    data: Seq<u8>,
    b: nat,
    weak: spec_fn(Seq<u8>) -> u64,
    h: u64,
    n: nat,
) -> Seq<usize>
    decreases n,
{
    if n == 0 {
        Seq::empty()
    } else {
        let earlier = bucket_upto(data, b, weak, h, (n - 1) as nat);
        if weak(block_at(data, b, n - 1)) == h {
            earlier.push((n - 1) as usize)
        } else {
            earlier
        }
    }
}

/// Whether one of the first `n` blocks has the weak fingerprint `h`.
pub open spec fn occurs_upto(
    data: Seq<u8>,
    b: nat,
    weak: spec_fn(Seq<u8>) -> u64,
    h: u64,
    n: nat,
) -> bool {
    exists|i: int| 0 <= i < n && weak(#[trigger] block_at(data, b, i)) == h
}

/// The index of the first `n` blocks of `data`.
pub open spec fn index_upto(
    data: Seq<u8>,
    b: nat,
    weak: spec_fn(Seq<u8>) -> u64,
    n: nat,
) -> IndexModel {
    IndexModel {
        digests: Seq::new(n, |i: int| blake3_digest(block_at(data, b, i))),
        buckets: Map::new(
            |h: u64| occurs_upto(data, b, weak, h, n),
            |h: u64| bucket_upto(data, b, weak, h, n),
        ),
    }
}

/// The index of `data` cut into blocks of `b` bytes.
pub open spec fn index_of(data: Seq<u8>, b: nat, weak: spec_fn(Seq<u8>) -> u64) -> IndexModel {
    index_upto(data, b, weak, block_count(data.len(), b))
}

/// The index of no blocks.
pub open spec fn empty_index() -> IndexModel {
    IndexModel { digests: Seq::empty(), buckets: Map::empty() }
}

/// The index after one more block, with the weak fingerprint `weak_value` and
/// the strong digest `digest`: the block gets the next number, its digest
/// comes last, and the block joins the end of its fingerprint's bucket.
pub open spec fn extend(index: IndexModel, weak_value: u64, digest: Seq<u8>) -> IndexModel {
    let block = index.digests.len() as usize;
    IndexModel {
        digests: index.digests.push(digest),
        buckets: index.buckets.insert(
            weak_value,
            if index.buckets.contains_key(weak_value) {
                index.buckets[weak_value].push(block)
            } else {
                seq![block]
            },
        ),
    }
}

/// A remap table with no block resolved.
pub open spec fn unresolved(n: nat) -> Seq<nat> {
    Seq::new(n, |i: int| 0nat)
}

/// Whether the window that ends at `window_end` resolves the candidate block:
/// the block is still unresolved, starts no earlier than the window ends, and
/// has the window's digest.
pub open spec fn confirms(
    remap: Seq<nat>,
    candidate: int,
    window_end: nat,
    b: nat,
    window_digest: Seq<u8>,
    digests: Seq<Seq<u8>>,
) -> bool {
    &&& 0 <= candidate < remap.len()
    &&& candidate < digests.len()
    &&& remap[candidate] == 0
    &&& window_end <= candidate * b
    &&& digests[candidate] == window_digest
}

/// The remap table after one candidate block was held against the window that
/// ends at `window_end`. A candidate that the window resolves then points back
/// to the window's start.
pub open spec fn confirm(
    remap: Seq<nat>,
    candidate: int,
    window_end: nat,
    b: nat,
    window_digest: Seq<u8>,
    digests: Seq<Seq<u8>>,
) -> Seq<nat> {
    if confirms(remap, candidate, window_end, b, window_digest, digests) {
        remap.update(candidate, (candidate * b + b - window_end) as nat)
    } else {
        remap
    }
}

/// The remap table after every candidate of a bucket was held against the
/// window, in the bucket's order.
pub open spec fn confirm_all(
    remap: Seq<nat>,
    bucket: Seq<usize>,
    window_end: nat,
    b: nat,
    window_digest: Seq<u8>,
    digests: Seq<Seq<u8>>,
) -> Seq<nat>
    decreases bucket.len(),
{
    if bucket.len() == 0 {
        remap
    } else {
        confirm(
            confirm_all(remap, bucket.drop_last(), window_end, b, window_digest, digests),
            bucket.last() as int,
            window_end,
            b,
            window_digest,
            digests,
        )
    }
}

/// The remap table after the index was probed with a full window that ends at
/// `window_end`. A fingerprint of zero probes nothing, and neither does one
/// that no block has.
pub open spec fn probe(
    remap: Seq<nat>,
    index: IndexModel,
    weak_value: u64,
    window: Seq<u8>,
    window_end: nat,
    b: nat,
) -> Seq<nat> {
    if weak_value != 0 && index.buckets.contains_key(weak_value) {
        confirm_all(
            remap,
            index.buckets[weak_value],
            window_end,
            b,
            blake3_digest(window),
            index.digests,
        )
    } else {
        remap
    }
}

/// Where a scan stands: the number of bytes behind it, the bytes in its
/// window, and the remap table so far.
pub struct ScanState {
    pub cursor: nat,
    pub window: Seq<u8>,
    pub remap: Seq<nat>,
}

/// Whether the cursor stands in a block that is already resolved, so that the
/// scan jumps ahead instead of reading.
pub open spec fn in_resolved_block(state: ScanState, b: nat) -> bool {
    b > 0 && state.cursor / b < state.remap.len() && state.remap[(state.cursor / b) as int] != 0
}

/// The state after a jump: a block's length further on, with an empty window.
pub open spec fn after_skip(state: ScanState, b: nat) -> ScanState {
    ScanState { cursor: state.cursor + b, window: Seq::empty(), remap: state.remap }
}

/// The state after one byte was read: the window slides over it, and a full
/// window probes the index.
pub open spec fn after_byte(
    state: ScanState,
    index: IndexModel,
    weak: spec_fn(Seq<u8>) -> u64,
    b: nat,
    byte: u8,
) -> ScanState {
    let window = slide(state.window, b, byte);
    let cursor = state.cursor + 1;
    ScanState {
        cursor,
        window,
        remap: if window.len() == b {
            probe(state.remap, index, weak(window), window, cursor, b)
        } else {
            state.remap
        },
    }
}

/// The remap table when the scan has run to the end of `data`, from a state
/// in which `cursor` bytes are behind it, the bytes since `run_start` were
/// read without a gap, and `remap` holds what was resolved so far.
///
/// Where the cursor stands in a block that is already resolved, the scan
/// jumps a block's length ahead and starts a new run. Otherwise it takes one
/// byte, and probes the index once the run holds a full window.
pub open spec fn scan_from(
    data: Seq<u8>,
    b: nat,
    weak: spec_fn(Seq<u8>) -> u64,
    index: IndexModel,
    cursor: nat,
    run_start: nat,
    remap: Seq<nat>,
) -> Seq<nat>
    decreases
        (if cursor < data.len() {
            data.len() - cursor
        } else {
            0
        }),
{
    if b == 0 || cursor >= data.len() {
        remap
    } else if cursor / b < remap.len() && remap[(cursor / b) as int] != 0 {
        scan_from(data, b, weak, index, cursor + b, cursor + b, remap)
    } else {
        let end = cursor + 1;
        let probed = if end - run_start >= b {
            let window = window_at(data, end - b, b);
            probe(remap, index, weak(window), window, end, b)
        } else {
            remap
        };
        scan_from(data, b, weak, index, end, run_start, probed)
    }
}

/// The remap table of `data` under `index`: the scan from the first byte,
/// with no block resolved.
pub open spec fn scan(
    data: Seq<u8>,
    b: nat,
    weak: spec_fn(Seq<u8>) -> u64,
    index: IndexModel,
) -> Seq<nat> {
    scan_from(data, b, weak, index, 0, 0, unresolved(index.digests.len()))
}

/// A remap table as numbers: entry `i` is how far back block `i` points, or
/// zero.
pub open spec fn offsets(remap: Seq<usize>) -> Seq<nat> {
    Seq::new(remap.len(), |i: int| remap[i] as nat)
}

} // verus!
