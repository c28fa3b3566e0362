//! The remap table as an artifact: its bytes on disk, and what it saves.

use crate::dedupe::block_size_of;
use crate::model::block_size;
use vstd::arithmetic::div_mod::lemma_div_denominator;
use vstd::arithmetic::power::{lemma_pow0, lemma_pow1, lemma_pow_adds, lemma_pow_positive, pow};
use vstd::prelude::*;

verus! {

/// The number of bytes in a machine word.
pub open spec fn word_len() -> nat {
    (usize::BITS / 8) as nat
}

/// The byte of `value` with the weight `256^k`.
pub open spec fn le_byte(value: nat, k: nat) -> u8 {
    ((value / (pow(256, k) as nat)) % 256) as u8
}

/// A machine word in little-endian order: the least significant byte first.
pub open spec fn le_word(value: usize) -> Seq<u8> {
    Seq::new(word_len(), |k: int| le_byte(value as nat, k as nat))
}

/// The remap table as bytes: one little-endian machine word per block, in
/// block order.
pub open spec fn encoded(remap: Seq<usize>) -> Seq<u8>
    decreases remap.len(),
{
    if remap.len() == 0 {
        Seq::empty()
    } else {
        encoded(remap.drop_last()) + le_word(remap.last())
    }
}

/// The number of resolved blocks of a remap table.
pub open spec fn resolved_count(remap: Seq<usize>) -> nat
    decreases remap.len(),
{
    if remap.len() == 0 {
        0
    } else {
        resolved_count(remap.drop_last()) + (if remap.last() != 0 {
            1nat
        } else {
            0nat
        })
    }
}

/// Writes a remap table out as bytes: each entry as a little-endian machine
/// word, in block order.
pub fn encode_remap(remap: &[usize]) -> (bytes: Vec<u8>)
    ensures
        bytes@ == encoded(remap@),
        bytes@.len() == remap@.len() * word_len(),
{
    let width: usize = (usize::BITS / 8) as usize;
    let mut bytes: Vec<u8> = Vec::new();
    let mut i: usize = 0;
    assert(remap@.take(0) =~= Seq::<usize>::empty());
    while i < remap.len()
        invariant
            i <= remap@.len(),
            width == word_len(),
            bytes@ == encoded(remap@.take(i as int)),
            bytes@.len() == i * word_len(),
        decreases remap@.len() - i,
    {
        let value = remap[i];
        let ghost done = bytes@;
        let mut rest: usize = value;
        let mut k: usize = 0;
        proof {
            lemma_pow0(256);
        }
        while k < width
            invariant
                k <= width,
                width == word_len(),
                rest == (value as nat) / (pow(256, k as nat) as nat),
                pow(256, k as nat) > 0,
                bytes@.len() == done.len() + k,
                bytes@.take(done.len() as int) == done,
                forall|j: int|
                    0 <= j < k ==> #[trigger] bytes@[done.len() + j] == le_byte(
                        value as nat,
                        j as nat,
                    ),
            decreases width - k,
        {
            bytes.push((rest % 256) as u8);
            proof {
                let p = pow(256, k as nat);
                lemma_pow1(256);
                lemma_pow_adds(256, k as nat, 1);
                lemma_pow_positive(256, (k + 1) as nat);
                lemma_div_denominator(value as int, p, 256);
                assert(bytes@.take(done.len() as int) =~= done);
            }
            rest = rest / 256;
            k += 1;
        }
        i += 1;
        proof {
            let upto = remap@.take(i as int);
            assert(upto.drop_last() =~= remap@.take(i - 1));
            assert(upto.last() == value);
            let written = done + le_word(value);
            assert forall|p: int| 0 <= p < bytes@.len() implies bytes@[p] == written[p] by {
                if p < done.len() {
                    assert(bytes@.take(done.len() as int)[p] == bytes@[p]);
                } else {
                    let j = p - done.len();
                    assert(bytes@[done.len() + j] == le_byte(value as nat, j as nat));
                }
            }
            assert(bytes@ =~= written);
            assert(i * word_len() == (i - 1) * word_len() + word_len()) by (nonlinear_arith);
        }
    }
    assert(remap@.take(remap@.len() as int) =~= remap@);
    bytes
}

/// The number of bytes that a remap table saves: a block for every resolved
/// entry.
pub fn bytes_saved(remap: &[usize], block_size_log2: u8) -> (saved: usize)
    requires
        block_size_log2 < usize::BITS,
        remap@.len() * block_size(block_size_log2) <= usize::MAX,
    ensures
        saved == resolved_count(remap@) * block_size(block_size_log2),
{
    let block_size = block_size_of(block_size_log2);
    let mut count: usize = 0;
    let mut i: usize = 0;
    assert(remap@.take(0) =~= Seq::<usize>::empty());
    while i < remap.len()
        invariant
            i <= remap@.len(),
            count == resolved_count(remap@.take(i as int)),
            count <= i,
        decreases remap@.len() - i,
    {
        assert(remap@.take(i + 1).drop_last() =~= remap@.take(i as int));
        if remap[i] != 0 {
            count += 1;
        }
        i += 1;
    }
    assert(remap@.take(remap@.len() as int) =~= remap@);
    assert(count * block_size <= usize::MAX) by (nonlinear_arith)
        requires
            count <= remap@.len(),
            remap@.len() * block_size <= usize::MAX,
    ;
    count * block_size
}

} // verus!
