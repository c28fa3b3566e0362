//! What holds of every index and of every scan.

use crate::dedupe::{next_step_of, Step};
use crate::digest::blake3_digest;
use crate::fingerprint::{lemma_fingerprint_zeros, zeros};
use crate::model::{
    after_byte, after_skip, block_at, block_count, bucket_upto, confirm, confirm_all, extend,
    index_of, index_upto, occurs_upto, offsets, polynomial_weak, probe, scan, scan_from,
    unresolved, window_at, IndexModel, ScanState,
};
use vstd::prelude::*;

verus! {

/// Whether `bucket` holds blocks below `n` in strictly ascending order, all
/// with the weak fingerprint `h`.
pub open spec fn is_bucket_of(
    bucket: Seq<usize>,
    data: Seq<u8>,
    b: nat,
    weak: spec_fn(Seq<u8>) -> u64,
    h: u64,
    n: nat,
) -> bool {
    &&& forall|j: int|
        0 <= j < bucket.len() ==> (#[trigger] bucket[j]) < n && weak(
            block_at(data, b, bucket[j] as int),
        ) == h
    &&& forall|j1: int, j2: int|
        0 <= j1 < j2 < bucket.len() ==> (#[trigger] bucket[j1]) < (#[trigger] bucket[j2])
}

/// The bucket of a fingerprint names exactly the blocks that have it, each
/// once and in ascending order.
pub proof fn lemma_bucket_upto(
    data: Seq<u8>,
    b: nat,
    weak: spec_fn(Seq<u8>) -> u64,
    h: u64,
    n: nat,
)
    requires
        n <= usize::MAX,
    ensures
        is_bucket_of(bucket_upto(data, b, weak, h, n), data, b, weak, h, n),
        forall|i: int|
            0 <= i < n && weak(#[trigger] block_at(data, b, i)) == h ==> bucket_upto(
                data,
                b,
                weak,
                h,
                n,
            ).contains(i as usize),
        !occurs_upto(data, b, weak, h, n) ==> bucket_upto(data, b, weak, h, n) == Seq::<
            usize,
        >::empty(),
    decreases n,
{
    if n > 0 {
        let m = (n - 1) as nat;
        lemma_bucket_upto(data, b, weak, h, m);
        let earlier = bucket_upto(data, b, weak, h, m);
        let now = bucket_upto(data, b, weak, h, n);
        if weak(block_at(data, b, n - 1)) == h {
            assert(now == earlier.push(m as usize));
            assert(now[now.len() - 1] == m as usize);
            assert forall|i: int| 0 <= i < n && weak(#[trigger] block_at(data, b, i)) == h implies now.contains(
                i as usize,
            ) by {
                if i < m {
                    let j = choose|j: int| 0 <= j < earlier.len() && earlier[j] == i as usize;
                    assert(now[j] == i as usize);
                } else {
                    assert(now[now.len() - 1] == i as usize);
                }
            }
            assert(occurs_upto(data, b, weak, h, n));
        } else {
            assert(now == earlier);
            assert forall|i: int| 0 <= i < n && weak(#[trigger] block_at(data, b, i)) == h implies now.contains(
                i as usize,
            ) by {
                assert(i < m);
            }
            if !occurs_upto(data, b, weak, h, n) {
                if occurs_upto(data, b, weak, h, m) {
                    let i = choose|i: int| 0 <= i < m && weak(#[trigger] block_at(data, b, i)) == h;
                    assert(0 <= i < n && weak(block_at(data, b, i)) == h);
                    assert(false);
                }
            }
        }
    }
}

/// A fingerprint occurs among one more block exactly when it occurred before
/// or the new block has it.
pub proof fn lemma_occurs_extends(
    data: Seq<u8>,
    b: nat,
    weak: spec_fn(Seq<u8>) -> u64,
    h: u64,
    n: nat,
)
    ensures
        occurs_upto(data, b, weak, h, n + 1) == (occurs_upto(data, b, weak, h, n) || weak(
            block_at(data, b, n as int),
        ) == h),
{
    if occurs_upto(data, b, weak, h, n + 1) {
        let i = choose|i: int| 0 <= i < n + 1 && weak(#[trigger] block_at(data, b, i)) == h;
        if i < n {
            assert(occurs_upto(data, b, weak, h, n));
        }
    }
    if occurs_upto(data, b, weak, h, n) {
        let i = choose|i: int| 0 <= i < n && weak(#[trigger] block_at(data, b, i)) == h;
        assert(0 <= i < n + 1 && weak(block_at(data, b, i)) == h);
    }
    if weak(block_at(data, b, n as int)) == h {
        assert(0 <= n < n + 1 && weak(block_at(data, b, n as int)) == h);
    }
}

/// The index of one more block is the index so far, extended by that block.
pub proof fn lemma_index_extends(
    data: Seq<u8>,
    b: nat,
    weak: spec_fn(Seq<u8>) -> u64,
    n: nat,
)
    requires
        n < usize::MAX,
    ensures
        index_upto(data, b, weak, n + 1) == extend(
            index_upto(data, b, weak, n),
            weak(block_at(data, b, n as int)),
            blake3_digest(block_at(data, b, n as int)),
        ),
{
    let so_far = index_upto(data, b, weak, n);
    let next = index_upto(data, b, weak, n + 1);
    let h0 = weak(block_at(data, b, n as int));
    let extended = extend(so_far, h0, blake3_digest(block_at(data, b, n as int)));
    assert(next.digests =~= extended.digests);
    assert forall|h: u64| next.buckets.contains_key(h) <==> extended.buckets.contains_key(h) by {
        lemma_occurs_extends(data, b, weak, h, n);
    }
    assert forall|h: u64| next.buckets.contains_key(h) implies next.buckets[h]
        == extended.buckets[h] by {
        lemma_occurs_extends(data, b, weak, h, n);
        lemma_bucket_upto(data, b, weak, h, n);
        if h == h0 && !so_far.buckets.contains_key(h) {
            assert(bucket_upto(data, b, weak, h, n).push(n as usize) =~= seq![n as usize]);
        }
    }
    assert(next.buckets =~= extended.buckets);
}

/// Every aligned block stands in exactly one bucket of the index, exactly
/// once: in the bucket of its own weak fingerprint, and there the blocks are
/// in strictly ascending order.
pub proof fn lemma_index_partitions_blocks(
    data: Seq<u8>,
    b: nat,
    weak: spec_fn(Seq<u8>) -> u64,
)
    requires
        block_count(data.len(), b) <= usize::MAX,
    ensures
        ({
            let index = index_of(data, b, weak);
            let n = block_count(data.len(), b);
            &&& index.digests.len() == n
            &&& index.well_formed()
            &&& forall|i: int|
                0 <= i < n ==> {
                    let h = weak(#[trigger] block_at(data, b, i));
                    index.buckets.contains_key(h) && index.buckets[h].contains(i as usize)
                }
            &&& forall|h: u64| #[trigger]
                index.buckets.contains_key(h) ==> is_bucket_of(
                    index.buckets[h],
                    data,
                    b,
                    weak,
                    h,
                    n,
                )
        }),
{
    let index = index_of(data, b, weak);
    let n = block_count(data.len(), b);
    assert forall|i: int| 0 <= i < n implies {
        let h = weak(#[trigger] block_at(data, b, i));
        index.buckets.contains_key(h) && index.buckets[h].contains(i as usize)
    } by {
        let h = weak(block_at(data, b, i));
        lemma_bucket_upto(data, b, weak, h, n);
        assert(occurs_upto(data, b, weak, h, n));
    }
    assert forall|h: u64| #[trigger] index.buckets.contains_key(h) implies is_bucket_of(
        index.buckets[h],
        data,
        b,
        weak,
        h,
        n,
    ) by {
        lemma_bucket_upto(data, b, weak, h, n);
    }
    assert forall|h: u64, j: int|
        index.buckets.contains_key(h) && 0 <= j < index.buckets[h].len() implies (
    #[trigger] index.buckets[h][j]) < index.digests.len() by {
        lemma_bucket_upto(data, b, weak, h, n);
    }
}

/// Whether every resolved block of `remap` points back to a confirmed window:
/// the offset is at least a block and at most the block's own start, so the
/// window lies in `data` and ends no later than the block starts, and the
/// window's strong digest is the one that the index holds for the block.
pub open spec fn points_back(
    remap: Seq<nat>,
    data: Seq<u8>,
    b: nat,
    digests: Seq<Seq<u8>>,
) -> bool {
    forall|c: int|
        0 <= c < remap.len() && #[trigger] remap[c] != 0 ==> {
            &&& c < digests.len()
            &&& b <= remap[c] <= c * b
            &&& c * b - remap[c] + b <= data.len()
            &&& blake3_digest(window_at(data, c * b - remap[c], b)) == digests[c]
        }
}

proof fn lemma_confirm_points_back(
    remap: Seq<nat>,
    candidate: int,
    window_end: nat,
    b: nat,
    data: Seq<u8>,
    digests: Seq<Seq<u8>>,
)
    requires
        points_back(remap, data, b, digests),
        b <= window_end <= data.len(),
    ensures
        ({
            let after = confirm(
                remap,
                candidate,
                window_end,
                b,
                blake3_digest(window_at(data, window_end - b, b)),
                digests,
            );
            after.len() == remap.len() && points_back(after, data, b, digests)
        }),
{
    let after = confirm(
        remap,
        candidate,
        window_end,
        b,
        blake3_digest(window_at(data, window_end - b, b)),
        digests,
    );
    assert forall|c: int| 0 <= c < after.len() && #[trigger] after[c] != 0 implies {
        &&& c < digests.len()
        &&& b <= after[c] <= c * b
        &&& c * b - after[c] + b <= data.len()
        &&& blake3_digest(window_at(data, c * b - after[c], b)) == digests[c]
    } by {
        if after != remap && c == candidate {
            assert(after[c] == c * b + b - window_end);
            assert(c * b - after[c] == window_end - b);
        } else {
            assert(after[c] == remap[c]);
        }
    }
}

proof fn lemma_confirm_all_points_back(
    remap: Seq<nat>,
    bucket: Seq<usize>,
    window_end: nat,
    b: nat,
    data: Seq<u8>,
    digests: Seq<Seq<u8>>,
)
    requires
        points_back(remap, data, b, digests),
        b <= window_end <= data.len(),
    ensures
        ({
            let after = confirm_all(
                remap,
                bucket,
                window_end,
                b,
                blake3_digest(window_at(data, window_end - b, b)),
                digests,
            );
            after.len() == remap.len() && points_back(after, data, b, digests)
        }),
    decreases bucket.len(),
{
    if bucket.len() > 0 {
        let digest = blake3_digest(window_at(data, window_end - b, b));
        lemma_confirm_all_points_back(remap, bucket.drop_last(), window_end, b, data, digests);
        lemma_confirm_points_back(
            confirm_all(remap, bucket.drop_last(), window_end, b, digest, digests),
            bucket.last() as int,
            window_end,
            b,
            data,
            digests,
        );
    }
}

proof fn lemma_scan_from_points_back(
    data: Seq<u8>,
    b: nat,
    weak: spec_fn(Seq<u8>) -> u64,
    index: IndexModel,
    cursor: nat,
    run_start: nat,
    remap: Seq<nat>,
)
    requires
        points_back(remap, data, b, index.digests),
    ensures
        ({
            let after = scan_from(data, b, weak, index, cursor, run_start, remap);
            after.len() == remap.len() && points_back(after, data, b, index.digests)
        }),
    decreases
        (if cursor < data.len() {
            data.len() - cursor
        } else {
            0
        }),
{
    if b == 0 || cursor >= data.len() {
    } else if cursor / b < remap.len() && remap[(cursor / b) as int] != 0 {
        lemma_scan_from_points_back(data, b, weak, index, cursor + b, cursor + b, remap);
    } else {
        let end = cursor + 1;
        if end - run_start >= b {
            let window = window_at(data, end - b, b);
            if weak(window) != 0 && index.buckets.contains_key(weak(window)) {
                lemma_confirm_all_points_back(
                    remap,
                    index.buckets[weak(window)],
                    end,
                    b,
                    data,
                    index.digests,
                );
            }
            lemma_scan_from_points_back(
                data,
                b,
                weak,
                index,
                end,
                run_start,
                probe(remap, index, weak(window), window, end, b),
            );
        } else {
            lemma_scan_from_points_back(data, b, weak, index, end, run_start, remap);
        }
    }
}

/// Every match that a scan reports was confirmed by the strong digest, and
/// points strictly backwards, whichever weak fingerprint probed the index and
/// whatever the buckets hold. For each block `c` with a nonzero entry `v`:
/// `v` is at least one block and at most `c * b`, and the `b` bytes that start
/// `v` bytes before the block have the digest that the index holds for it.
pub proof fn lemma_scan_points_back(
    data: Seq<u8>,
    b: nat,
    weak: spec_fn(Seq<u8>) -> u64,
    index: IndexModel,
)
    ensures
        scan(data, b, weak, index).len() == index.digests.len(),
        points_back(scan(data, b, weak, index), data, b, index.digests),
{
    lemma_scan_from_points_back(data, b, weak, index, 0, 0, unresolved(index.digests.len()));
}

/// Where the index holds for each block the digest of that block's own bytes,
/// a resolved block and the window that it points back to have the same
/// strong digest; and they are the same bytes unless two different byte
/// strings share that digest.
pub proof fn lemma_remapped_block_repeats_window(
    data: Seq<u8>,
    b: nat,
    weak: spec_fn(Seq<u8>) -> u64,
    index: IndexModel,
    c: int,
)
    requires
        0 <= c < index.digests.len(),
        index.digests[c] == blake3_digest(block_at(data, b, c)),
        scan(data, b, weak, index)[c] != 0,
    ensures
        ({
            let v = scan(data, b, weak, index)[c];
            let window = window_at(data, c * b - v, b);
            let block = block_at(data, b, c);
            &&& b <= v <= c * b
            &&& blake3_digest(window) == blake3_digest(block)
            &&& (forall|x: Seq<u8>, y: Seq<u8>|
                #![trigger blake3_digest(x), blake3_digest(y)]
                blake3_digest(x) == blake3_digest(y) ==> x == y) ==> window == block
        }),
{
    lemma_scan_points_back(data, b, weak, index);
}

/// Two tables that stand for the same numbers are the same table.
pub proof fn lemma_offsets_injective(first: Seq<usize>, second: Seq<usize>)
    requires
        offsets(first) == offsets(second),
    ensures
        first == second,
{
    assert(first.len() == offsets(first).len());
    assert(second.len() == offsets(second).len());
    assert forall|i: int| 0 <= i < first.len() implies first[i] == second[i] by {
        assert(offsets(first)[i] == first[i] as nat);
        assert(offsets(second)[i] == second[i] as nat);
    }
    assert(first =~= second);
}

proof fn lemma_zero_scan_from(
    data: Seq<u8>,
    b: nat,
    index: IndexModel,
    cursor: nat,
    run_start: nat,
    n: nat,
)
    requires
        forall|i: int| 0 <= i < data.len() ==> data[i] == 0,
    ensures
        scan_from(data, b, polynomial_weak(), index, cursor, run_start, unresolved(n))
            == unresolved(n),
    decreases
        (if cursor < data.len() {
            data.len() - cursor
        } else {
            0
        }),
{
    let remap = unresolved(n);
    if b == 0 || cursor >= data.len() {
    } else if cursor / b < remap.len() && remap[(cursor / b) as int] != 0 {
    } else {
        let end = cursor + 1;
        if end - run_start >= b {
            let window = window_at(data, end - b, b);
            assert(window =~= zeros(b));
            lemma_fingerprint_zeros(b);
            assert(polynomial_weak()(window) == 0);
        }
        lemma_zero_scan_from(data, b, index, end, run_start, n);
    }
}

/// A file of zero bytes is left as it is: a window of zeros has the weak
/// fingerprint zero, which probes nothing, so no block is resolved, whatever
/// the index holds.
pub proof fn lemma_zero_file_stays_unresolved(data: Seq<u8>, b: nat, index: IndexModel)
    requires
        forall|i: int| 0 <= i < data.len() ==> data[i] == 0,
    ensures
        scan(data, b, polynomial_weak(), index) == unresolved(index.digests.len()),
{
    lemma_zero_scan_from(data, b, index, 0, 0, index.digests.len());
}

/// A file shorter than one block has no blocks: its index is empty, and so is
/// its remap table.
pub proof fn lemma_short_file_has_no_blocks(
    data: Seq<u8>,
    b: nat,
    weak: spec_fn(Seq<u8>) -> u64,
)
    requires
        data.len() < b,
    ensures
        block_count(data.len(), b) == 0,
        index_of(data, b, weak).digests.len() == 0,
        index_of(data, b, weak).buckets == Map::<u64, Seq<usize>>::empty(),
        scan(data, b, weak, index_of(data, b, weak)) == Seq::<nat>::empty(),
{
    let index = index_of(data, b, weak);
    assert(data.len() / b == 0) by (nonlinear_arith)
        requires
            data.len() < b,
    ;
    assert(index.buckets =~= Map::<u64, Seq<usize>>::empty());
    lemma_scan_points_back(data, b, weak, index);
    assert(scan(data, b, weak, index) =~= Seq::<nat>::empty());
}

/// Indexing and scanning an unchanged file a second time gives the same
/// remap table: both the index and the table are functions of the file's
/// bytes and the block size alone.
pub proof fn lemma_same_file_same_table(
    data: Seq<u8>,
    b: nat,
    first_index: IndexModel,
    second_index: IndexModel,
    first_remap: Seq<usize>,
    second_remap: Seq<usize>,
)
    requires
        first_index == index_of(data, b, polynomial_weak()),
        second_index == index_of(data, b, polynomial_weak()),
        offsets(first_remap) == scan(data, b, polynomial_weak(), first_index),
        offsets(second_remap) == scan(data, b, polynomial_weak(), second_index),
    ensures
        first_index == second_index,
        first_remap == second_remap,
{
    lemma_offsets_injective(first_remap, second_remap);
}

/// The remap table that a scan ends with when it is driven step by step over
/// `data`: each step is the one that the state asks for, a read takes the byte
/// at the cursor, and the table is complete when the state asks for nothing.
pub open spec fn run_steps(
    data: Seq<u8>,
    b: nat,
    weak: spec_fn(Seq<u8>) -> u64,
    index: IndexModel,
    state: ScanState,
) -> Seq<nat>
    decreases
        (if state.cursor < data.len() {
            data.len() - state.cursor
        } else {
            0
        }),
{
    match next_step_of(state, b, data.len()) {
        Step::Done => state.remap,
        Step::Skip => run_steps(data, b, weak, index, after_skip(state, b)),
        Step::Read => run_steps(
            data,
            b,
            weak,
            index,
            after_byte(state, index, weak, b, data[state.cursor as int]),
        ),
    }
}

proof fn lemma_run_steps_from(
    data: Seq<u8>,
    b: nat,
    weak: spec_fn(Seq<u8>) -> u64,
    index: IndexModel,
    state: ScanState,
    run_start: nat,
)
    requires
        b > 0,
        run_start <= state.cursor,
        state.window == data.subrange(
            if state.cursor - run_start >= b {
                state.cursor - b
            } else {
                run_start as int
            },
            state.cursor as int,
        ),
    ensures
        run_steps(data, b, weak, index, state) == scan_from(
            data,
            b,
            weak,
            index,
            state.cursor,
            run_start,
            state.remap,
        ),
    decreases
        (if state.cursor < data.len() {
            data.len() - state.cursor
        } else {
            0
        }),
{
    match next_step_of(state, b, data.len()) {
        Step::Done => {
            if state.cursor < data.len() {
                let jumped = state.cursor + b;
                assert(scan_from(data, b, weak, index, jumped, jumped, state.remap)
                    == state.remap);
            }
        },
        Step::Skip => {
            let next = after_skip(state, b);
            assert(next.window =~= data.subrange(next.cursor as int, next.cursor as int));
            lemma_run_steps_from(data, b, weak, index, next, next.cursor);
        },
        Step::Read => {
            let next = after_byte(state, index, weak, b, data[state.cursor as int]);
            let end = state.cursor + 1;
            if end - run_start >= b {
                assert(next.window =~= data.subrange(end - b, end as int));
                assert(next.window == window_at(data, end - b, b));
            } else {
                assert(next.window =~= data.subrange(run_start as int, end as int));
            }
            lemma_run_steps_from(data, b, weak, index, next, run_start);
        },
    }
}

/// Driving a scan step by step, from the first byte and with no block
/// resolved, ends with the remap table of the whole-file scan.
pub proof fn lemma_steps_give_scan(
    data: Seq<u8>,
    b: nat,
    weak: spec_fn(Seq<u8>) -> u64,
    index: IndexModel,
)
    requires
        b > 0,
    ensures
        run_steps(
            data,
            b,
            weak,
            index,
            ScanState {
                cursor: 0,
                window: Seq::empty(),
                remap: unresolved(index.digests.len()),
            },
        ) == scan(data, b, weak, index),
{
    let start = ScanState {
        cursor: 0,
        window: Seq::empty(),
        remap: unresolved(index.digests.len()),
    };
    assert(start.window =~= data.subrange(0, 0));
    lemma_run_steps_from(data, b, weak, index, start, 0);
}

} // verus!
