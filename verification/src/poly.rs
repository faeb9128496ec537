//! Evaluation of polynomials at field elements.

use vstd::prelude::*;
use crate::bits::bit;
use crate::bits::flip_at;
use crate::bits::lemma_xor_bits;
use crate::bits::lemma_xor_assoc;
use crate::bits::lemma_xor_self;
use crate::bits::lemma_xor_swap;
use crate::bits::xor_bits;
use crate::field::Gf;
use crate::field::GaloisField;

verus! {

/// Horner's rule over a buffer of bits, highest-order coefficient first,
/// begun with the accumulator `acc`.
pub open spec fn eval_from(gf: Gf, acc: u32, bits: Seq<u8>, x: u32) -> u32
    decreases bits.len(),
{
    if bits.len() == 0 {
        acc
    } else {
        gf.mul(eval_from(gf, acc, bits.drop_last(), x), x) ^ bit(bits.last())
    }
}

/// The value at `x` of the polynomial over GF(2) whose coefficients are
/// `bits`, highest-order coefficient first.
pub open spec fn eval_bits(gf: Gf, bits: Seq<u8>, x: u32) -> u32 {
    eval_from(gf, 0, bits, x)
}

/// The value at `x` of the polynomial whose coefficient of `x^j` is `c[j]`.
pub open spec fn eval_poly(gf: Gf, c: Seq<u32>, x: u32) -> u32
    decreases c.len(),
{
    if c.len() == 0 {
        0
    } else {
        gf.mul(eval_poly(gf, c.skip(1), x), x) ^ c[0]
    }
}

pub proof fn lemma_eval_from_range(gf: Gf, acc: u32, bits: Seq<u8>, x: u32)
    requires
        gf.is_primitive(),
        acc < gf.size(),
        x < gf.size(),
    ensures
        eval_from(gf, acc, bits, x) < gf.size(),
    decreases bits.len(),
{
    gf.lemma_size();
    if bits.len() > 0 {
        lemma_eval_from_range(gf, acc, bits.drop_last(), x);
        let p = gf.mul(eval_from(gf, acc, bits.drop_last(), x), x);
        gf.lemma_mul_closed(eval_from(gf, acc, bits.drop_last(), x), x);
        gf.lemma_times_alpha(p, bit(bits.last()));
    }
}

/// Evaluation over a concatenation continues from the value of its first
/// part.
pub proof fn lemma_eval_from_concat(gf: Gf, acc: u32, a: Seq<u8>, b: Seq<u8>, x: u32)
    ensures
        eval_from(gf, acc, a + b, x) == eval_from(gf, eval_from(gf, acc, a, x), b, x),
    decreases b.len(),
{
    if b.len() == 0 {
        assert(a + b =~= a);
    } else {
        lemma_eval_from_concat(gf, acc, a, b.drop_last(), x);
        assert((a + b).drop_last() =~= a + b.drop_last());
    }
}

/// The power `x^k` of a field element.
pub open spec fn gexp(gf: Gf, x: u32, k: nat) -> u32
    decreases k,
{
    if k == 0 {
        1
    } else {
        gf.mul(gexp(gf, x, (k - 1) as nat), x)
    }
}

pub proof fn lemma_gexp_range(gf: Gf, x: u32, k: nat)
    requires
        gf.is_primitive(),
        x < gf.size(),
    ensures
        gexp(gf, x, k) < gf.size(),
    decreases k,
{
    gf.lemma_size();
    if k > 0 {
        lemma_gexp_range(gf, x, (k - 1) as nat);
        gf.lemma_mul_closed(gexp(gf, x, (k - 1) as nat), x);
    }
}

/// A power of a power of `alpha` is the power of `alpha` by the product of
/// the exponents.
pub proof fn lemma_gexp_pow(gf: Gf, j: nat, k: nat)
    requires
        gf.is_primitive(),
    ensures
        gexp(gf, gf.pow(j), k) == gf.pow(j * k),
    decreases k,
{
    if k == 0 {
        assert(j * k == 0);
    } else {
        lemma_gexp_pow(gf, j, (k - 1) as nat);
        gf.lemma_mul_pow(j * ((k - 1) as nat), j);
        assert(j * ((k - 1) as nat) + j == j * k) by (nonlinear_arith)
            requires
                k >= 1,
        ;
    }
}

/// Horner's rule begun with an accumulator adds to the value of the bits
/// the accumulator times the power of `x` that has their number as its
/// exponent.
pub proof fn lemma_eval_from_split(gf: Gf, acc: u32, bits: Seq<u8>, x: u32)
    requires
        gf.is_primitive(),
        acc < gf.size(),
        x < gf.size(),
    ensures
        eval_from(gf, acc, bits, x) == gf.mul(acc, gexp(gf, x, bits.len())) ^ eval_bits(
            gf,
            bits,
            x,
        ),
    decreases bits.len(),
{
    gf.lemma_size();
    if bits.len() == 0 {
        gf.lemma_mul_one(acc);
        lemma_xor_self(acc);
    } else {
        let head = bits.drop_last();
        let b = bit(bits.last());
        let xk = gexp(gf, x, head.len());
        lemma_eval_from_split(gf, acc, head, x);
        let u = gf.mul(acc, xk);
        let v = eval_bits(gf, head, x);
        lemma_gexp_range(gf, x, head.len());
        gf.lemma_mul_closed(acc, xk);
        lemma_eval_from_range(gf, 0, head, x);
        gf.lemma_mul_distributes(u, v, x);
        gf.lemma_mul_assoc(acc, xk, x);
        lemma_xor_assoc(gf.mul(u, x), gf.mul(v, x), b);
    }
}

/// The value of a polynomial, split into its leading term and the rest.
pub proof fn lemma_eval_head(gf: Gf, bits: Seq<u8>, x: u32)
    requires
        gf.is_primitive(),
        x < gf.size(),
        bits.len() >= 1,
    ensures
        eval_bits(gf, bits, x) == gf.mul(bit(bits[0]), gexp(gf, x, (bits.len() - 1) as nat))
            ^ eval_bits(gf, bits.skip(1), x),
{
    gf.lemma_size();
    let first = seq![bits[0]];
    assert(first + bits.skip(1) =~= bits);
    assert(first.drop_last() =~= Seq::<u8>::empty());
    lemma_xor_self(bit(bits[0]));
    assert(eval_from(gf, 0, first.drop_last(), x) == 0);
    assert(first.last() == bits[0]);
    assert(eval_bits(gf, first, x) == bit(bits[0]));
    lemma_eval_from_concat(gf, 0, first, bits.skip(1), x);
    lemma_eval_from_split(gf, bit(bits[0]), bits.skip(1), x);
}

/// The value of a sum of two polynomials is the sum of their values.
pub proof fn lemma_eval_xor(gf: Gf, a: Seq<u8>, b: Seq<u8>, x: u32)
    requires
        gf.is_primitive(),
        x < gf.size(),
        a.len() == b.len(),
    ensures
        eval_bits(gf, xor_bits(a, b), x) == eval_bits(gf, a, x) ^ eval_bits(gf, b, x),
    decreases a.len(),
{
    gf.lemma_size();
    if a.len() == 0 {
        lemma_xor_self(0);
    } else {
        let a0 = a.drop_last();
        let b0 = b.drop_last();
        lemma_eval_xor(gf, a0, b0, x);
        assert(xor_bits(a, b).drop_last() =~= xor_bits(a0, b0));
        let ea = eval_bits(gf, a0, x);
        let eb = eval_bits(gf, b0, x);
        lemma_eval_from_range(gf, 0, a0, x);
        lemma_eval_from_range(gf, 0, b0, x);
        gf.lemma_mul_distributes(ea, eb, x);
        lemma_xor_bits(a.last(), b.last());
        lemma_xor_swap(gf.mul(ea, x), gf.mul(eb, x), bit(a.last()), bit(b.last()));
    }
}

/// A polynomial without a nonzero coefficient has the value zero.
pub proof fn lemma_eval_zeros(gf: Gf, bits: Seq<u8>, x: u32)
    requires
        forall|i: int| 0 <= i < bits.len() ==> bit(#[trigger] bits[i]) == 0,
    ensures
        eval_bits(gf, bits, x) == 0,
    decreases bits.len(),
{
    if bits.len() > 0 {
        lemma_eval_zeros(gf, bits.drop_last(), x);
        lemma_xor_self(0);
    }
}

/// Inverting the bit at position `p` adds to the value the power of `x`
/// that the bit is the coefficient of.
pub proof fn lemma_eval_flip(gf: Gf, bits: Seq<u8>, p: int, x: u32)
    requires
        gf.is_primitive(),
        x < gf.size(),
        0 <= p < bits.len(),
    ensures
        eval_bits(gf, flip_at(bits, p), x) == eval_bits(gf, bits, x) ^ gexp(
            gf,
            x,
            (bits.len() - 1 - p) as nat,
        ),
    decreases bits.len(),
{
    gf.lemma_size();
    let head = bits.drop_last();
    let e = eval_bits(gf, head, x);
    lemma_eval_from_range(gf, 0, head, x);
    gf.lemma_mul_closed(e, x);
    lemma_xor_bits(bits.last(), bits.last());
    if p == bits.len() - 1 {
        assert(flip_at(bits, p).drop_last() =~= head);
        lemma_xor_assoc(gf.mul(e, x), bit(bits.last()), 1);
    } else {
        assert(flip_at(bits, p).drop_last() =~= flip_at(head, p));
        lemma_eval_flip(gf, head, p, x);
        let g = gexp(gf, x, (head.len() - 1 - p) as nat);
        lemma_gexp_range(gf, x, (head.len() - 1 - p) as nat);
        gf.lemma_mul_distributes(e, g, x);
        lemma_xor_swap(gf.mul(e, x), gf.mul(g, x), bit(bits.last()), 0);
    }
}

/// Every coefficient is an element of the field.
pub open spec fn is_poly(gf: Gf, c: Seq<u32>) -> bool {
    forall|j: int| 0 <= j < c.len() ==> #[trigger] c[j] < gf.size()
}

/// The coefficient of `x^i`, which is zero beyond the stored ones.
pub open spec fn coef(c: Seq<u32>, i: int) -> u32 {
    if 0 <= i < c.len() {
        c[i]
    } else {
        0
    }
}

pub proof fn lemma_eval_poly_range(gf: Gf, c: Seq<u32>, x: u32)
    requires
        gf.is_primitive(),
        is_poly(gf, c),
        x < gf.size(),
    ensures
        eval_poly(gf, c, x) < gf.size(),
    decreases c.len(),
{
    gf.lemma_size();
    if c.len() > 0 {
        lemma_eval_poly_range(gf, c.skip(1), x);
        gf.lemma_mul_closed(eval_poly(gf, c.skip(1), x), x);
        gf.lemma_times_alpha(gf.mul(eval_poly(gf, c.skip(1), x), x), c[0]);
    }
}

/// The value of a sum of two polynomials is the sum of their values.
pub proof fn lemma_eval_poly_xor(gf: Gf, a: Seq<u32>, b: Seq<u32>, x: u32)
    requires
        gf.is_primitive(),
        is_poly(gf, a),
        is_poly(gf, b),
        a.len() == b.len(),
        x < gf.size(),
    ensures
        eval_poly(gf, Seq::new(a.len(), |j: int| a[j] ^ b[j]), x) == eval_poly(gf, a, x)
            ^ eval_poly(gf, b, x),
    decreases a.len(),
{
    let s = Seq::new(a.len(), |j: int| a[j] ^ b[j]);
    if a.len() == 0 {
        lemma_xor_self(0);
    } else {
        let a1 = a.skip(1);
        let b1 = b.skip(1);
        lemma_eval_poly_xor(gf, a1, b1, x);
        assert(s.skip(1) =~= Seq::new(a1.len(), |j: int| a1[j] ^ b1[j]));
        let ea = eval_poly(gf, a1, x);
        let eb = eval_poly(gf, b1, x);
        lemma_eval_poly_range(gf, a1, x);
        lemma_eval_poly_range(gf, b1, x);
        gf.lemma_mul_distributes(ea, eb, x);
        lemma_xor_swap(gf.mul(ea, x), gf.mul(eb, x), a[0], b[0]);
    }
}

/// The value of a multiple of a polynomial is the multiple of its value.
pub proof fn lemma_eval_poly_scale(gf: Gf, c: Seq<u32>, r: u32, x: u32)
    requires
        gf.is_primitive(),
        is_poly(gf, c),
        r < gf.size(),
        x < gf.size(),
    ensures
        eval_poly(gf, Seq::new(c.len(), |j: int| gf.mul(c[j], r)), x) == gf.mul(
            eval_poly(gf, c, x),
            r,
        ),
    decreases c.len(),
{
    let s = Seq::new(c.len(), |j: int| gf.mul(c[j], r));
    if c.len() > 0 {
        let c1 = c.skip(1);
        lemma_eval_poly_scale(gf, c1, r, x);
        assert(s.skip(1) =~= Seq::new(c1.len(), |j: int| gf.mul(c1[j], r)));
        let e = eval_poly(gf, c1, x);
        lemma_eval_poly_range(gf, c1, x);
        gf.lemma_mul_closed(e, x);
        gf.lemma_mul_closed(r, x);
        gf.lemma_mul_distributes(gf.mul(e, x), c[0], r);
        gf.lemma_mul_assoc(e, r, x);
        gf.lemma_mul_assoc(e, x, r);
    }
}

/// A zero coefficient added at the top leaves the value as it is.
pub proof fn lemma_eval_poly_push_zero(gf: Gf, c: Seq<u32>, x: u32)
    ensures
        eval_poly(gf, c.push(0), x) == eval_poly(gf, c, x),
    decreases c.len(),
{
    if c.len() == 0 {
        assert(c.push(0).skip(1) =~= Seq::<u32>::empty());
        assert(eval_poly(gf, c.push(0).skip(1), x) == 0);
        lemma_xor_self(0);
    } else {
        lemma_eval_poly_push_zero(gf, c.skip(1), x);
        assert(c.push(0).skip(1) =~= c.skip(1).push(0));
    }
}

/// Coefficients that are zero from some order on may be left off.
pub proof fn lemma_eval_poly_take(gf: Gf, c: Seq<u32>, k: int, x: u32)
    requires
        0 <= k <= c.len(),
        forall|j: int| k <= j < c.len() ==> c[j] == 0,
    ensures
        eval_poly(gf, c.take(k), x) == eval_poly(gf, c, x),
    decreases c.len() - k,
{
    if k < c.len() {
        let head = c.drop_last();
        lemma_eval_poly_take(gf, head, k, x);
        assert(head.take(k) =~= c.take(k));
        assert(head.push(0) =~= c);
        lemma_eval_poly_push_zero(gf, head, x);
    } else {
        assert(c.take(k) =~= c);
    }
}

/// A polynomial whose coefficients are bits has the same value whether it
/// is read as bits from the top or as field elements from the bottom.
pub proof fn lemma_eval_reversed(gf: Gf, c: Seq<u32>, bits: Seq<u8>, x: u32)
    requires
        bits.len() == c.len(),
        forall|i: int| 0 <= i < c.len() ==> bit(#[trigger] bits[i]) == c[c.len() - 1 - i],
    ensures
        eval_bits(gf, bits, x) == eval_poly(gf, c, x),
    decreases c.len(),
{
    if c.len() > 0 {
        lemma_eval_reversed(gf, c.skip(1), bits.drop_last(), x);
    }
}

/// The value of a polynomial over GF(2) at a square is the square of its
/// value.
pub proof fn lemma_eval_bits_squared(gf: Gf, bits: Seq<u8>, x: u32)
    requires
        gf.is_primitive(),
        x < gf.size(),
    ensures
        eval_bits(gf, bits, gf.sq(x)) == gf.sq(eval_bits(gf, bits, x)),
    decreases bits.len(),
{
    gf.lemma_size();
    if bits.len() > 0 {
        let head = bits.drop_last();
        let e = eval_bits(gf, head, x);
        let b = bit(bits.last());
        lemma_eval_bits_squared(gf, head, x);
        lemma_eval_from_range(gf, 0, head, x);
        gf.lemma_mul_closed(e, x);
        gf.lemma_sq_add(gf.mul(e, x), b);
        gf.lemma_sq_mul(e, x);
        gf.lemma_mul_one(1);
    }
}

/// Continues Horner's rule over `bits` from the accumulator `acc`.
pub fn accumulate(field: &GaloisField, acc: u32, bits: &[u8], x: u32) -> (r: u32)
    requires
        field.wf(),
        acc < field.gf().size(),
        x < field.gf().size(),
    ensures
        r == eval_from(field.gf(), acc, bits@, x),
        r < field.gf().size(),
{
    let ghost gf = field.gf();
    let mut r = acc;
    let mut i: usize = 0;
    while i < bits.len()
        invariant
            i <= bits@.len(),
            field.wf(),
            gf == field.gf(),
            x < gf.size(),
            r < gf.size(),
            r == eval_from(gf, acc, bits@.take(i as int), x),
        decreases bits@.len() - i,
    {
        let b = (bits[i] % 2) as u32;
        let p = field.mul(r, x);
        proof {
            gf.lemma_size();
            gf.lemma_times_alpha(p, b);
            assert(bits@.take(i + 1).drop_last() =~= bits@.take(i as int));
        }
        r = p ^ b;
        i += 1;
    }
    proof {
        assert(bits@.take(i as int) =~= bits@);
    }
    r
}

/// Evaluates at `x` the polynomial whose coefficient of `x^j` is `c[j]`.
pub fn evaluate(field: &GaloisField, c: &[u32], x: u32) -> (r: u32)
    requires
        field.wf(),
        x < field.gf().size(),
        forall|j: int| 0 <= j < c@.len() ==> #[trigger] c@[j] < field.gf().size(),
    ensures
        r == eval_poly(field.gf(), c@, x),
        r < field.gf().size(),
{
    let ghost gf = field.gf();
    let mut r: u32 = 0;
    let mut i: usize = c.len();
    proof {
        gf.lemma_size();
        assert(c@.skip(i as int) =~= Seq::empty());
    }
    while i > 0
        invariant
            i <= c@.len(),
            field.wf(),
            gf == field.gf(),
            x < gf.size(),
            r < gf.size(),
            forall|j: int| 0 <= j < c@.len() ==> #[trigger] c@[j] < gf.size(),
            r == eval_poly(gf, c@.skip(i as int), x),
        decreases i,
    {
        i -= 1;
        let p = field.mul(r, x);
        proof {
            gf.lemma_times_alpha(p, c@[i as int]);
            assert(c@.skip(i as int).skip(1) =~= c@.skip(i + 1));
        }
        r = p ^ c[i];
    }
    proof {
        assert(c@.skip(0) =~= c@);
    }
    r
}

} // verus!
