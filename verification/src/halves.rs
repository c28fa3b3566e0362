//! A file made of two identical halves: every block of the second half is
//! resolved to its twin in the first.

use crate::digest::blake3_digest;
use crate::laws::lemma_bucket_upto;
use crate::model::{
    block_at, block_count, bucket_upto, confirm, confirm_all, confirms, index_of, occurs_upto,
    probe, scan, scan_from, unresolved, window_at,
};
use vstd::prelude::*;

verus! {

/// Whether `bucket` names the block `c`.
pub open spec fn names(bucket: Seq<usize>, c: int) -> bool {
    exists|k: int| 0 <= k < bucket.len() && #[trigger] bucket[k] as int == c
}

/// Holding a bucket against a window treats each block on its own: a block
/// is resolved exactly when the bucket names it and the window resolves it,
/// and every other entry stays.
pub proof fn lemma_confirm_all_pointwise(
    remap: Seq<nat>,
    bucket: Seq<usize>,
    window_end: nat,
    b: nat,
    window_digest: Seq<u8>,
    digests: Seq<Seq<u8>>,
)
    ensures
        ({
            let after = confirm_all(remap, bucket, window_end, b, window_digest, digests);
            &&& after.len() == remap.len()
            &&& forall|c: int|
                0 <= c < remap.len() ==> #[trigger] after[c] == (if names(bucket, c) && confirms(
                    remap,
                    c,
                    window_end,
                    b,
                    window_digest,
                    digests,
                ) {
                    (c * b + b - window_end) as nat
                } else {
                    remap[c]
                })
        }),
    decreases bucket.len(),
{
    let after = confirm_all(remap, bucket, window_end, b, window_digest, digests);
    if bucket.len() > 0 {
        let rest = bucket.drop_last();
        let last = bucket.last() as int;
        let prev = confirm_all(remap, rest, window_end, b, window_digest, digests);
        lemma_confirm_all_pointwise(remap, rest, window_end, b, window_digest, digests);
        assert(after == confirm(prev, last, window_end, b, window_digest, digests));
        assert forall|c: int| 0 <= c < remap.len() implies #[trigger] after[c] == (if names(
            bucket,
            c,
        ) && confirms(remap, c, window_end, b, window_digest, digests) {
            (c * b + b - window_end) as nat
        } else {
            remap[c]
        }) by {
            if names(rest, c) {
                let k = choose|k: int| 0 <= k < rest.len() && #[trigger] rest[k] as int == c;
                assert(bucket[k] as int == c);
            }
            if c == last {
                assert(bucket[bucket.len() - 1] as int == c);
            } else if names(bucket, c) {
                let k = choose|k: int| 0 <= k < bucket.len() && #[trigger] bucket[k] as int == c;
                assert(rest[k] as int == c);
            }
        }
    }
}

/// The remap table of a doubled file once the scan has `cursor` bytes behind
/// it, while it is still in the first half: the blocks of the second half
/// whose twin lies wholly behind the cursor point back by `m * b` bytes, and
/// nothing else is resolved.
pub open spec fn twins_resolved(m: nat, b: nat, cursor: nat) -> Seq<nat> {
    Seq::new(
        2 * m,
        |c: int|
            if c >= m && (c - m) * b + b <= cursor {
                m * b
            } else {
                0
            },
    )
}

/// Every block of `half` has a weak fingerprint other than zero.
pub open spec fn blocks_probe(half: Seq<u8>, b: nat, m: nat, weak: spec_fn(Seq<u8>) -> u64) -> bool {
    forall|j: int| 0 <= j < m ==> weak(#[trigger] block_at(half, b, j)) != 0
}

/// No block of `half` is taken for a window that starts before it: no such
/// window has both the block's weak fingerprint and its strong digest.
pub open spec fn blocks_are_first(
    half: Seq<u8>,
    b: nat,
    m: nat,
    weak: spec_fn(Seq<u8>) -> u64,
) -> bool {
    forall|s: int, j: int|
        #![trigger window_at(half, s, b), block_at(half, b, j)]
        0 <= j < m && 0 <= s < j * b ==> !(weak(window_at(half, s, b)) == weak(
            block_at(half, b, j),
        ) && blake3_digest(window_at(half, s, b)) == blake3_digest(block_at(half, b, j)))
}

proof fn lemma_doubled_blocks(half: Seq<u8>, b: nat, m: nat, c: int)
    requires
        b > 0,
        half.len() == m * b,
        0 <= c < 2 * m,
    ensures
        block_count((half + half).len(), b) == 2 * m,
        c < m ==> block_at(half + half, b, c) == block_at(half, b, c),
        c >= m ==> block_at(half + half, b, c) == block_at(half, b, c - m),
        c >= m ==> c * b == (c - m) * b + m * b,
        c * b + b <= 2 * (m * b),
        c < m ==> c * b + b <= m * b,
        c >= m ==> (c - m) * b + b <= m * b,
{
    let data = half + half;
    assert((m * b + m * b) / b == 2 * m) by (nonlinear_arith)
        requires
            b > 0,
    ;
    assert(c * b + b <= 2 * (m * b)) by (nonlinear_arith)
        requires
            0 <= c < 2 * m,
            b > 0,
    ;
    if c < m {
        assert(c * b + b <= m * b) by (nonlinear_arith)
            requires
                0 <= c < m,
                b > 0,
        ;
        assert(block_at(data, b, c) =~= block_at(half, b, c));
    } else {
        assert(c * b == (c - m) * b + m * b) by (nonlinear_arith);
        assert((c - m) * b + b <= m * b) by (nonlinear_arith)
            requires
                0 <= c - m < m,
                b > 0,
        ;
        assert((c - m) * b >= 0) by (nonlinear_arith)
            requires
                c >= m,
                b > 0,
        ;
        assert(block_at(data, b, c) =~= block_at(half, b, c - m));
    }
}

proof fn lemma_first_half_step(
    half: Seq<u8>,
    b: nat,
    m: nat,
    weak: spec_fn(Seq<u8>) -> u64,
    cursor: nat,
)
    requires
        b > 0,
        m >= 1,
        2 * m <= usize::MAX,
        half.len() == m * b,
        blocks_probe(half, b, m, weak),
        blocks_are_first(half, b, m, weak),
        cursor < m * b,
        cursor + 1 >= b,
    ensures
        ({
            let data = half + half;
            let index = index_of(data, b, weak);
            let end = cursor + 1;
            let window = window_at(data, end - b, b);
            probe(twins_resolved(m, b, cursor), index, weak(window), window, end as nat, b)
                == twins_resolved(m, b, end as nat)
        }),
{
    let data = half + half;
    let index = index_of(data, b, weak);
    let n = 2 * m;
    let end = (cursor + 1) as nat;
    let s = end - b;
    let window = window_at(data, s, b);
    let h = weak(window);
    let before = twins_resolved(m, b, cursor);
    let target = twins_resolved(m, b, end);
    let after = probe(before, index, h, window, end, b);
    let digest = blake3_digest(window);
    lemma_doubled_blocks(half, b, m, 0);
    assert(index.digests.len() == n);
    assert(window =~= window_at(half, s, b));

    // The block of the second half whose twin is the window, if there is one.
    assert forall|c: int|
        #![trigger confirms(before, c, end, b, digest, index.digests)]
        m <= c < n && (c - m) * b == s implies h != 0 && index.buckets.contains_key(h) && names(
        index.buckets[h],
        c,
    ) && confirms(before, c, end, b, digest, index.digests) by {
        lemma_doubled_blocks(half, b, m, c);
        assert(window_at(half, s, b) == block_at(half, b, c - m));
        assert(h == weak(block_at(data, b, c)));
        assert(occurs_upto(data, b, weak, h, n));
        lemma_bucket_upto(data, b, weak, h, n);
        let bucket = bucket_upto(data, b, weak, h, n);
        assert(bucket.contains(c as usize));
        let k = choose|k: int| 0 <= k < bucket.len() && bucket[k] == c as usize;
        assert(bucket[k] as int == c);
        assert(end <= c * b) by (nonlinear_arith)
            requires
                c * b == (c - m) * b + m * b,
                end == (c - m) * b + b,
                m >= 1,
                b > 0,
        ;
        assert(index.digests[c] == blake3_digest(block_at(data, b, c)));
    }

    if h != 0 && index.buckets.contains_key(h) {
        let bucket = index.buckets[h];
        lemma_confirm_all_pointwise(before, bucket, end, b, digest, index.digests);
        lemma_bucket_upto(data, b, weak, h, n);
        assert forall|c: int| 0 <= c < n implies after[c] == target[c] by {
            lemma_doubled_blocks(half, b, m, c);
            if names(bucket, c) && confirms(before, c, end, b, digest, index.digests) {
                let k = choose|k: int| 0 <= k < bucket.len() && #[trigger] bucket[k] as int == c;
                assert(weak(block_at(data, b, bucket[k] as int)) == h);
                assert(index.digests[c] == blake3_digest(block_at(data, b, c)));
                if c < m {
                    assert(window_at(half, s, b) == window_at(half, s, b) && block_at(half, b, c)
                        == block_at(half, b, c));
                    assert(false);
                } else {
                    let j = c - m;
                    assert(s <= j * b);
                    if s < j * b {
                        assert(window_at(half, s, b) == window_at(half, s, b) && block_at(
                            half,
                            b,
                            j,
                        ) == block_at(half, b, j));
                        assert(false);
                    }
                    assert(c * b + b - end == m * b);
                }
            }
        }
        assert(after =~= target);
    } else {
        assert forall|c: int| 0 <= c < n implies before[c] == target[c] by {
            if c >= m && (c - m) * b == s {
                assert(confirms(before, c, end, b, digest, index.digests));
            }
        }
        assert(after =~= target);
    }
}

proof fn lemma_first_half(
    half: Seq<u8>,
    b: nat,
    m: nat,
    weak: spec_fn(Seq<u8>) -> u64,
    cursor: nat,
)
    requires
        b > 0,
        m >= 1,
        2 * m <= usize::MAX,
        half.len() == m * b,
        blocks_probe(half, b, m, weak),
        blocks_are_first(half, b, m, weak),
        cursor <= m * b,
    ensures
        ({
            let data = half + half;
            let index = index_of(data, b, weak);
            scan_from(data, b, weak, index, cursor, 0, twins_resolved(m, b, cursor)) == scan_from(
                data,
                b,
                weak,
                index,
                m * b,
                0,
                twins_resolved(m, b, m * b),
            )
        }),
    decreases m * b - cursor,
{
    if cursor < m * b {
        let data = half + half;
        let index = index_of(data, b, weak);
        let before = twins_resolved(m, b, cursor);
        let end = (cursor + 1) as nat;
        assert(cursor / b < m) by (nonlinear_arith)
            requires
                cursor < m * b,
                b > 0,
        ;
        assert(before[(cursor / b) as int] == 0);
        if end >= b {
            lemma_first_half_step(half, b, m, weak, cursor);
        } else {
            let unchanged = twins_resolved(m, b, end);
            assert forall|c: int| 0 <= c < 2 * m implies before[c] == unchanged[c] by {
                if c >= m {
                    assert((c - m) * b >= 0) by (nonlinear_arith)
                        requires
                            c >= m,
                            b > 0,
                    ;
                }
            }
            assert(before =~= unchanged);
        }
        lemma_first_half(half, b, m, weak, end);
    }
}

proof fn lemma_second_half(
    half: Seq<u8>,
    b: nat,
    m: nat,
    weak: spec_fn(Seq<u8>) -> u64,
    t: nat,
    run_start: nat,
)
    requires
        b > 0,
        m >= 1,
        half.len() == m * b,
        t <= m,
    ensures
        ({
            let data = half + half;
            let index = index_of(data, b, weak);
            scan_from(
                data,
                b,
                weak,
                index,
                (m + t) * b,
                run_start,
                twins_resolved(m, b, m * b),
            ) == twins_resolved(m, b, m * b)
        }),
    decreases m - t,
{
    let data = half + half;
    let cursor = (m + t) * b;
    let remap = twins_resolved(m, b, m * b);
    assert((m + t) * b == m * b + t * b) by (nonlinear_arith);
    assert((m + t) * b + b == (m + t + 1) * b) by (nonlinear_arith);
    if t < m {
        assert(t * b < m * b) by (nonlinear_arith)
            requires
                t < m,
                b > 0,
        ;
        assert(((m + t) * b) / b == m + t) by (nonlinear_arith)
            requires
                b > 0,
        ;
        assert(t * b + b <= m * b) by (nonlinear_arith)
            requires
                t < m,
                b > 0,
        ;
        assert(m * b > 0) by (nonlinear_arith)
            requires
                m >= 1,
                b > 0,
        ;
        assert(remap[(m + t) as int] == m * b);
        lemma_second_half(half, b, m, weak, t + 1, (cursor + b) as nat);
    } else {
        assert(t * b == m * b);
    }
}

/// A file of two identical halves, each a whole number of blocks: every block
/// of the second half is resolved to its twin, one half back, and no block of
/// the first half is resolved.
///
/// This holds where every block of the half has a weak fingerprint other than
/// zero, so that it is probed at all, and where no block of the half has an
/// earlier window of the half with both its weak fingerprint and its strong
/// digest, so that its twin is not resolved to that window first.
pub proof fn lemma_second_half_points_to_first(
    half: Seq<u8>,
    b: nat,
    m: nat,
    weak: spec_fn(Seq<u8>) -> u64,
)
    requires
        b > 0,
        2 * m <= usize::MAX,
        half.len() == m * b,
        blocks_probe(half, b, m, weak),
        blocks_are_first(half, b, m, weak),
    ensures
        ({
            let data = half + half;
            let remap = scan(data, b, weak, index_of(data, b, weak));
            &&& remap.len() == 2 * m
            &&& forall|c: int| 0 <= c < m ==> #[trigger] remap[c] == 0
            &&& forall|c: int| m <= c < 2 * m ==> #[trigger] remap[c] == half.len()
        }),
{
    let data = half + half;
    let index = index_of(data, b, weak);
    if m == 0 {
        assert(data.len() == 0);
        assert(index.digests.len() == 0);
        assert(scan(data, b, weak, index) =~= unresolved(0));
    } else {
        lemma_doubled_blocks(half, b, m, 0);
        assert(index.digests.len() == 2 * m);
        let start = twins_resolved(m, b, 0);
        assert forall|c: int| 0 <= c < 2 * m implies start[c] == 0 by {
            if c >= m {
                assert((c - m) * b >= 0) by (nonlinear_arith)
                    requires
                        c >= m,
                        b > 0,
                ;
            }
        }
        assert(unresolved(2 * m) =~= start);
        lemma_first_half(half, b, m, weak, 0);
        lemma_second_half(half, b, m, weak, 0, 0);
        let remap = twins_resolved(m, b, m * b);
        assert(scan(data, b, weak, index) == remap);
        assert forall|c: int| m <= c < 2 * m implies #[trigger] remap[c] == half.len() by {
            lemma_doubled_blocks(half, b, m, c);
        }
    }
}

} // verus!
