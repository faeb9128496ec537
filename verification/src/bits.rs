//! Facts about exclusive-or on machine words, which is addition in a field of
//! characteristic two.

use vstd::prelude::*;

verus! {

/// The bit that a byte of a bit buffer carries.
pub open spec fn bit(b: u8) -> u32 {
    (b % 2) as u32
}

/// Sum of two bits in GF(2).
pub open spec fn xor_bit(a: u8, b: u8) -> u8 {
    if a % 2 == b % 2 {
        0
    } else {
        1
    }
}

/// A byte with its carried bit inverted.
pub open spec fn flip(b: u8) -> u8 {
    b ^ 1
}

pub proof fn lemma_xor_self(a: u32)
    ensures
        a ^ a == 0,
        a ^ 0 == a,
        0 ^ a == a,
{
    assert(a ^ a == 0 && a ^ 0 == a && 0 ^ a == a) by (bit_vector);
}

pub proof fn lemma_xor_comm(a: u32, b: u32)
    ensures
        a ^ b == b ^ a,
{
    assert(a ^ b == b ^ a) by (bit_vector);
}

pub proof fn lemma_xor_assoc(a: u32, b: u32, c: u32)
    ensures
        (a ^ b) ^ c == a ^ (b ^ c),
{
    assert((a ^ b) ^ c == a ^ (b ^ c)) by (bit_vector);
}

/// Two words whose sum is zero are equal, and a sum is undone by adding one
/// of its terms again.
pub proof fn lemma_xor_cancel(a: u32, b: u32)
    ensures
        (a ^ b == 0) <==> a == b,
        (a ^ b) ^ b == a,
        (a ^ b) ^ a == b,
{
    assert(((a ^ b == 0) <==> a == b) && (a ^ b) ^ b == a && (a ^ b) ^ a == b) by (bit_vector);
}

/// Adding one to a word under exclusive-or is the same as adding the bits.
pub proof fn lemma_xor_bits(a: u8, b: u8)
    ensures
        bit(xor_bit(a, b)) == bit(a) ^ bit(b),
        bit(flip(a)) == bit(a) ^ 1,
        flip(flip(a)) == a,
        bit(a) <= 1,
{
    assert(((a % 2) as u32) ^ ((a % 2) as u32) == 0) by (bit_vector);
    assert(0u32 ^ 1u32 == 1 && 1u32 ^ 0u32 == 1 && 0u32 ^ 0u32 == 0 && 1u32 ^ 1u32 == 0)
        by (bit_vector);
    assert((a ^ 1) % 2 != a % 2 && (a ^ 1) ^ 1 == a) by (bit_vector);
}

/// Four terms of a sum may be paired the other way.
pub proof fn lemma_xor_swap(a: u32, b: u32, c: u32, d: u32)
    ensures
        (a ^ b) ^ (c ^ d) == (a ^ c) ^ (b ^ d),
        (a ^ b) ^ c == (a ^ c) ^ b,
{
    assert((a ^ b) ^ (c ^ d) == (a ^ c) ^ (b ^ d) && (a ^ b) ^ c == (a ^ c) ^ b) by (bit_vector);
}

/// A term that occurs twice in a sum drops out of it.
pub proof fn lemma_xor_middle(a: u32, b: u32, c: u32)
    ensures
        (a ^ b) ^ (b ^ c) == a ^ c,
{
    assert((a ^ b) ^ (b ^ c) == a ^ c) by (bit_vector);
}

/// The buffer `buf` with the bit at position `p` inverted, if it has one.
pub open spec fn flip_at(buf: Seq<u8>, p: int) -> Seq<u8> {
    if 0 <= p < buf.len() {
        buf.update(p, flip(buf[p]))
    } else {
        buf
    }
}

/// The buffer `buf` with the bits at the positions `locs` inverted, one
/// after the other.
pub open spec fn flipped(buf: Seq<u8>, locs: Seq<u32>) -> Seq<u8>
    decreases locs.len(),
{
    if locs.len() == 0 {
        buf
    } else {
        flip_at(flipped(buf, locs.drop_last()), locs.last() as int)
    }
}

/// The sum of two buffers of bits, bit by bit.
pub open spec fn xor_bits(a: Seq<u8>, b: Seq<u8>) -> Seq<u8> {
    Seq::new(a.len(), |i: int| xor_bit(a[i], b[i]))
}

pub proof fn lemma_flipped_len(buf: Seq<u8>, locs: Seq<u32>)
    ensures
        flipped(buf, locs).len() == buf.len(),
    decreases locs.len(),
{
    if locs.len() > 0 {
        lemma_flipped_len(buf, locs.drop_last());
    }
}

/// Inverting at positions that differ from one another inverts the bits at
/// these positions and leaves the others as they are.
pub proof fn lemma_flipped_at(buf: Seq<u8>, locs: Seq<u32>, q: int)
    requires
        locs.no_duplicates(),
        0 <= q < buf.len(),
        q <= u32::MAX,
    ensures
        flipped(buf, locs)[q] == if locs.contains(q as u32) {
            flip(buf[q])
        } else {
            buf[q]
        },
    decreases locs.len(),
{
    if locs.len() > 0 {
        let head = locs.drop_last();
        let last = locs.last();
        lemma_flipped_at(buf, head, q);
        lemma_flipped_len(buf, head);
        if last as int == q {
            if head.contains(q as u32) {
                let k = head.index_of(q as u32);
                assert(locs[k] == locs[locs.len() - 1]);
                assert(false);
            }
            assert(locs[locs.len() - 1] == q as u32);
        } else {
            if head.contains(q as u32) {
                let k = head.index_of(q as u32);
                assert(locs[k] == q as u32);
            }
            if locs.contains(q as u32) {
                let k = locs.index_of(q as u32);
                assert(head[k] == q as u32);
            }
        }
    }
}

} // verus!
