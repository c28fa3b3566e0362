//! The weak fingerprint: a table-driven 64-bit polynomial checksum with a zero
//! start value, and the algebra that lets it roll over a window.

use vstd::prelude::*;

verus! {

/// The reflected ECMA-182 polynomial that keys the lookup table.
pub const POLYNOMIAL: u64 = 0xc96c5795d7870f42;

/// One shift of the polynomial division: the low bit leaves, and the
/// polynomial is folded in where that bit was set.
pub open spec fn shift_round(r: u64) -> u64 {
    if r & 1 == 1 {
        (r >> 1) ^ POLYNOMIAL
    } else {
        r >> 1
    }
}

/// `n` shifts in a row.
pub open spec fn shift_rounds(r: u64, n: nat) -> u64
    decreases n,
{
    if n == 0 {
        r
    } else {
        shift_round(shift_rounds(r, (n - 1) as nat))
    }
}

/// The lookup table's entry for a byte: eight shifts of that byte.
pub open spec fn table_entry(i: u8) -> u64 {
    shift_rounds(i as u64, 8)
}

/// The fingerprint after one more byte.
pub open spec fn absorb(h: u64, byte: u8) -> u64 {
    (h >> 8) ^ table_entry(((h ^ (byte as u64)) & 0xff) as u8)
}

/// The weak fingerprint of a byte string: every byte absorbed in turn, from zero.
pub open spec fn fingerprint(s: Seq<u8>) -> u64
    decreases s.len(),
{
    if s.len() == 0 {
        0
    } else {
        absorb(fingerprint(s.drop_last()), s.last())
    }
}

/// `n` zero bytes.
pub open spec fn zeros(n: nat) -> Seq<u8> {
    Seq::new(n, |i: int| 0u8)
}

/// What a byte still contributes to the fingerprint once `distance` further
/// bytes have followed it: the fingerprint of that byte and `distance` zeros.
pub open spec fn departure(byte: u8, distance: nat) -> u64 {
    fingerprint(seq![byte] + zeros(distance))
}

/// The bytewise exclusive-or of two strings of one length.
pub open spec fn xor_bytes(a: Seq<u8>, b: Seq<u8>) -> Seq<u8>
    recommends
        a.len() == b.len(),
{
    Seq::new(a.len(), |i: int| a[i] ^ b[i])
}

pub proof fn lemma_shift_round_linear(a: u64, b: u64)
    ensures
        shift_round(a ^ b) == shift_round(a) ^ shift_round(b),
{
    assert((if (a ^ b) & 1 == 1 {
        ((a ^ b) >> 1) ^ 0xc96c5795d7870f42u64
    } else {
        (a ^ b) >> 1
    }) == (if a & 1 == 1 {
        (a >> 1) ^ 0xc96c5795d7870f42u64
    } else {
        a >> 1
    }) ^ (if b & 1 == 1 {
        (b >> 1) ^ 0xc96c5795d7870f42u64
    } else {
        b >> 1
    })) by (bit_vector);
}

pub proof fn lemma_shift_rounds_linear(a: u64, b: u64, n: nat)
    ensures
        shift_rounds(a ^ b, n) == shift_rounds(a, n) ^ shift_rounds(b, n),
    decreases n,
{
    if n > 0 {
        lemma_shift_rounds_linear(a, b, (n - 1) as nat);
        lemma_shift_round_linear(shift_rounds(a, (n - 1) as nat), shift_rounds(b, (n - 1) as nat));
    }
}

pub proof fn lemma_shift_rounds_zero(n: nat)
    ensures
        shift_rounds(0, n) == 0,
    decreases n,
{
    if n > 0 {
        lemma_shift_rounds_zero((n - 1) as nat);
        assert(0u64 & 1 != 1 && 0u64 >> 1 == 0) by (bit_vector);
    }
}

/// The table is linear over exclusive-or.
pub proof fn lemma_table_linear(a: u8, b: u8)
    ensures
        table_entry(a ^ b) == table_entry(a) ^ table_entry(b),
        table_entry(0) == 0,
{
    assert((a ^ b) as u64 == (a as u64) ^ (b as u64)) by (bit_vector);
    lemma_shift_rounds_linear(a as u64, b as u64, 8);
    lemma_shift_rounds_zero(8);
}

/// Absorbing a byte is linear over exclusive-or, in the fingerprint and the
/// byte together.
pub proof fn lemma_absorb_linear(h1: u64, b1: u8, h2: u64, b2: u8)
    ensures
        absorb(h1 ^ h2, b1 ^ b2) == absorb(h1, b1) ^ absorb(h2, b2),
        absorb(0, 0) == 0,
{
    let i1 = ((h1 ^ (b1 as u64)) & 0xff) as u8;
    let i2 = ((h2 ^ (b2 as u64)) & 0xff) as u8;
    assert((((h1 ^ h2) ^ ((b1 ^ b2) as u64)) & 0xff) as u8 == (((h1 ^ (b1 as u64)) & 0xff) as u8)
        ^ (((h2 ^ (b2 as u64)) & 0xff) as u8)) by (bit_vector);
    assert((h1 ^ h2) >> 8 == (h1 >> 8) ^ (h2 >> 8)) by (bit_vector);
    lemma_table_linear(i1, i2);
    let t1 = table_entry(i1);
    let t2 = table_entry(i2);
    let s1 = h1 >> 8;
    let s2 = h2 >> 8;
    assert((s1 ^ s2) ^ (t1 ^ t2) == (s1 ^ t1) ^ (s2 ^ t2)) by (bit_vector);
    assert(((0u64 ^ (0u8 as u64)) & 0xff) as u8 == 0u8 && 0u64 >> 8 == 0 && 0u64 ^ 0u64 == 0)
        by (bit_vector);
}

/// The fingerprint is linear over the bytewise exclusive-or of two strings of
/// one length.
pub proof fn lemma_fingerprint_linear(a: Seq<u8>, b: Seq<u8>)
    requires
        a.len() == b.len(),
    ensures
        fingerprint(xor_bytes(a, b)) == fingerprint(a) ^ fingerprint(b),
    decreases a.len(),
{
    let x = xor_bytes(a, b);
    if a.len() == 0 {
        assert(0u64 ^ 0u64 == 0) by (bit_vector);
    } else {
        assert(x.drop_last() =~= xor_bytes(a.drop_last(), b.drop_last()));
        lemma_fingerprint_linear(a.drop_last(), b.drop_last());
        lemma_absorb_linear(
            fingerprint(a.drop_last()),
            a.last(),
            fingerprint(b.drop_last()),
            b.last(),
        );
    }
}

/// A run of zero bytes has fingerprint zero.
pub proof fn lemma_fingerprint_zeros(n: nat)
    ensures
        fingerprint(zeros(n)) == 0,
    decreases n,
{
    if n > 0 {
        assert(zeros(n).drop_last() =~= zeros((n - 1) as nat));
        lemma_fingerprint_zeros((n - 1) as nat);
        lemma_absorb_linear(0, 0, 0, 0);
    }
}

/// A zero byte in front of a string leaves its fingerprint unchanged.
pub proof fn lemma_fingerprint_leading_zero(s: Seq<u8>)
    ensures
        fingerprint(seq![0u8] + s) == fingerprint(s),
    decreases s.len(),
{
    let t = seq![0u8] + s;
    if s.len() == 0 {
        assert(t.drop_last() =~= Seq::<u8>::empty());
        assert(t.last() == 0u8);
        assert(fingerprint(t.drop_last()) == 0);
        lemma_absorb_linear(0, 0, 0, 0);
        assert(fingerprint(t) == absorb(0, 0));
    } else {
        assert(t.drop_last() =~= seq![0u8] + s.drop_last());
        assert(t.last() == s.last());
        lemma_fingerprint_leading_zero(s.drop_last());
        assert(fingerprint(t) == absorb(fingerprint(t.drop_last()), t.last()));
    }
}

/// The rolling step. Sliding a window by one byte changes its fingerprint as
/// absorbing the new byte and then cancelling what the oldest byte still
/// contributes: no other byte of the window is read.
pub proof fn lemma_fingerprint_rolls(window: Seq<u8>, byte: u8)
    requires
        window.len() >= 1,
    ensures
        fingerprint(window.skip(1).push(byte)) == absorb(fingerprint(window), byte) ^ departure(
            window[0],
            window.len(),
        ),
{
    let n = window.len();
    let moved = window.skip(1).push(byte);
    let full = window.push(byte);
    let head = seq![window[0]] + zeros(n);
    let tail = seq![0u8] + moved;
    assert(full.drop_last() =~= window);
    assert(fingerprint(full) == absorb(fingerprint(window), byte));
    assert forall|i: int| 0 <= i < full.len() implies full[i] == #[trigger] xor_bytes(head, tail)[i] by {
        let x = full[i];
        assert(x ^ 0u8 == x && 0u8 ^ x == x) by (bit_vector);
    }
    assert(full =~= xor_bytes(head, tail));
    lemma_fingerprint_linear(head, tail);
    lemma_fingerprint_leading_zero(moved);
    let f = fingerprint(full);
    let d = fingerprint(head);
    let m = fingerprint(moved);
    assert(f == d ^ m ==> m == f ^ d) by (bit_vector);
}

/// What a departing byte contributes is linear in the byte.
pub proof fn lemma_departure_linear(a: u8, b: u8, distance: nat)
    ensures
        departure(a ^ b, distance) == departure(a, distance) ^ departure(b, distance),
        departure(0, distance) == 0,
{
    let sa = seq![a] + zeros(distance);
    let sb = seq![b] + zeros(distance);
    assert forall|i: int| 0 <= i < sa.len() implies (seq![(a ^ b)] + zeros(distance))[i]
        == #[trigger] xor_bytes(sa, sb)[i] by {
        assert(0u8 ^ 0u8 == 0u8) by (bit_vector);
    }
    assert(seq![(a ^ b)] + zeros(distance) =~= xor_bytes(sa, sb));
    lemma_fingerprint_linear(sa, sb);
    assert(seq![0u8] + zeros(distance) =~= zeros(distance + 1));
    lemma_fingerprint_zeros(distance + 1);
}

/// A departing byte's contribution one byte further on.
pub proof fn lemma_departure_step(byte: u8, distance: nat)
    ensures
        departure(byte, 0) == table_entry(byte),
        departure(byte, distance + 1) == absorb(departure(byte, distance), 0),
{
    let s0 = seq![byte] + zeros(0);
    assert(s0.drop_last() =~= Seq::<u8>::empty());
    assert(s0.last() == byte);
    assert(fingerprint(s0.drop_last()) == 0);
    assert(((0u64 ^ (byte as u64)) & 0xff) as u8 == byte && 0u64 >> 8 == 0) by (bit_vector);
    let t = table_entry(byte);
    assert(0u64 ^ t == t) by (bit_vector);
    let s1 = seq![byte] + zeros(distance + 1);
    assert(s1.drop_last() =~= seq![byte] + zeros(distance));
    assert(s1.last() == 0u8);
}

} // verus!
