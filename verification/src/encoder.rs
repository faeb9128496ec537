//! Parity bits: the remainder of the message, shifted up by the degree of
//! the generator polynomial, on division by that polynomial over GF(2).

use vstd::prelude::*;
use crate::bits::bit;
use crate::bits::lemma_xor_bits;
use crate::bits::lemma_xor_cancel;
use crate::bits::lemma_xor_comm;
use crate::bits::lemma_xor_self;
use crate::bits::xor_bit;
use crate::bits::xor_bits;
use crate::field::Gf;
use crate::poly::eval_bits;
use crate::poly::gexp;
use crate::poly::lemma_eval_from_concat;
use crate::poly::lemma_eval_from_range;
use crate::poly::lemma_eval_from_split;
use crate::poly::lemma_eval_head;
use crate::poly::lemma_eval_xor;
use crate::poly::lemma_eval_zeros;
use crate::poly::lemma_gexp_range;

verus! {

/// One step of the division: the register `reg` takes in the message bit
/// `b`, and the generator `gen` is subtracted where the bit that leaves the
/// register and the bit that enters differ.
pub open spec fn lfsr_step(gen: Seq<u8>, reg: Seq<u8>, b: u8) -> Seq<u8> {
    let feedback = xor_bit(reg[0], b);
    Seq::new(
        reg.len(),
        |i: int|
            xor_bit(
                if i + 1 < reg.len() {
                    reg[i + 1]
                } else {
                    0u8
                },
                if feedback == 1 {
                    gen[i + 1]
                } else {
                    0u8
                },
            ),
    )
}

/// The remainder of `msg(x) * x^r` on division by `gen(x)`, where `r` is the
/// degree of `gen`; all polynomials highest-order coefficient first.
pub open spec fn remainder(gen: Seq<u8>, msg: Seq<u8>) -> Seq<u8>
    decreases msg.len(),
{
    if msg.len() == 0 {
        Seq::new((gen.len() - 1) as nat, |i: int| 0u8)
    } else {
        lfsr_step(gen, remainder(gen, msg.drop_last()), msg.last())
    }
}

pub proof fn lemma_remainder_len(gen: Seq<u8>, msg: Seq<u8>)
    requires
        gen.len() >= 1,
    ensures
        remainder(gen, msg).len() == gen.len() - 1,
        forall|i: int| 0 <= i < gen.len() - 1 ==> #[trigger] remainder(gen, msg)[i] <= 1,
    decreases msg.len(),
{
    if msg.len() > 0 {
        lemma_remainder_len(gen, msg.drop_last());
    }
}

/// At a root `x` of the generator, one step of the division multiplies the
/// value of the register by `x` and adds the bit taken in, times `x^r`.
pub proof fn lemma_step_congruent(gf: Gf, gen: Seq<u8>, reg: Seq<u8>, b: u8, x: u32)
    requires
        gf.is_primitive(),
        x < gf.size(),
        gen.len() >= 2,
        reg.len() == gen.len() - 1,
        bit(gen[0]) == 1,
        eval_bits(gf, gen, x) == 0,
    ensures
        eval_bits(gf, lfsr_step(gen, reg, b), x) == gf.mul(eval_bits(gf, reg, x), x) ^ gf.mul(
            bit(b),
            gexp(gf, x, reg.len()),
        ),
{
    gf.lemma_size();
    let r = reg.len();
    let feedback = xor_bit(reg[0], b);
    let tail = reg.skip(1);
    let shifted = tail.push(0u8);
    let taps = Seq::new(
        r,
        |i: int|
            if feedback == 1 {
                gen[i + 1]
            } else {
                0u8
            },
    );
    assert(lfsr_step(gen, reg, b) =~= xor_bits(shifted, taps));
    lemma_eval_xor(gf, shifted, taps, x);
    let et = eval_bits(gf, tail, x);
    let m = gf.mul(et, x);
    lemma_eval_from_range(gf, 0, tail, x);
    gf.lemma_mul_closed(et, x);
    assert(shifted.drop_last() =~= tail);
    lemma_xor_self(m);
    assert(eval_bits(gf, shifted, x) == m);
    let xr = gexp(gf, x, r);
    lemma_gexp_range(gf, x, r);
    lemma_eval_head(gf, gen, x);
    gf.lemma_mul_one(xr);
    lemma_xor_cancel(xr, eval_bits(gf, gen.skip(1), x));
    assert(eval_bits(gf, gen.skip(1), x) == xr);
    if feedback == 1 {
        assert(taps =~= gen.skip(1));
    } else {
        lemma_eval_zeros(gf, taps, x);
    }
    lemma_eval_head(gf, reg, x);
    let h = bit(reg[0]);
    let xq = gexp(gf, x, (r - 1) as nat);
    lemma_gexp_range(gf, x, (r - 1) as nat);
    let hx = gf.mul(h, xq);
    gf.lemma_mul_closed(h, xq);
    gf.lemma_mul_distributes(hx, et, x);
    gf.lemma_mul_assoc(h, xq, x);
    assert(gf.mul(eval_bits(gf, reg, x), x) == gf.mul(h, xr) ^ m);
    lemma_xor_bits(reg[0], b);
    lemma_xor_self(xr);
    lemma_xor_comm(xr, m);
    lemma_xor_cancel(m, xr);
    lemma_xor_self(m ^ xr);
}

/// At a root `x` of the generator, the remainder has the value of the
/// message times `x^r`.
pub proof fn lemma_remainder_congruent(gf: Gf, gen: Seq<u8>, msg: Seq<u8>, x: u32)
    requires
        gf.is_primitive(),
        x < gf.size(),
        gen.len() >= 2,
        bit(gen[0]) == 1,
        eval_bits(gf, gen, x) == 0,
    ensures
        eval_bits(gf, remainder(gen, msg), x) == gf.mul(
            eval_bits(gf, msg, x),
            gexp(gf, x, (gen.len() - 1) as nat),
        ),
    decreases msg.len(),
{
    gf.lemma_size();
    let r = (gen.len() - 1) as nat;
    let xr = gexp(gf, x, r);
    lemma_gexp_range(gf, x, r);
    if msg.len() == 0 {
        lemma_eval_zeros(gf, remainder(gen, msg), x);
    } else {
        let head = msg.drop_last();
        let b = msg.last();
        lemma_remainder_congruent(gf, gen, head, x);
        lemma_remainder_len(gen, head);
        lemma_step_congruent(gf, gen, remainder(gen, head), b, x);
        let e = eval_bits(gf, head, x);
        lemma_eval_from_range(gf, 0, head, x);
        gf.lemma_mul_closed(e, x);
        lemma_xor_bits(b, b);
        gf.lemma_mul_distributes(gf.mul(e, x), bit(b), xr);
        gf.lemma_mul_assoc(e, xr, x);
        gf.lemma_mul_assoc(e, x, xr);
        gf.lemma_mul_closed(x, xr);
    }
}

/// A message followed by its parity bits has every root of the generator
/// as a root.
pub proof fn lemma_codeword_vanishes(gf: Gf, gen: Seq<u8>, msg: Seq<u8>, x: u32)
    requires
        gf.is_primitive(),
        x < gf.size(),
        gen.len() >= 2,
        bit(gen[0]) == 1,
        eval_bits(gf, gen, x) == 0,
    ensures
        eval_bits(gf, msg + remainder(gen, msg), x) == 0,
{
    let parity = remainder(gen, msg);
    let e = eval_bits(gf, msg, x);
    lemma_remainder_len(gen, msg);
    lemma_eval_from_range(gf, 0, msg, x);
    lemma_eval_from_concat(gf, 0, msg, parity, x);
    lemma_eval_from_split(gf, e, parity, x);
    lemma_remainder_congruent(gf, gen, msg, x);
    lemma_xor_self(eval_bits(gf, parity, x));
}

/// Computes the parity bits of `msg` for the generator polynomial `gen`.
pub fn compute_parity(gen: &Vec<u8>, msg: &[u8]) -> (reg: Vec<u8>)
    requires
        gen@.len() >= 2,
    ensures
        reg@ == remainder(gen@, msg@),
        reg@.len() == gen@.len() - 1,
{
    let r = gen.len() - 1;
    let mut reg: Vec<u8> = Vec::new();
    let mut z: usize = 0;
    while z < r
        invariant
            z <= r,
            reg@.len() == z,
            forall|q: int| 0 <= q < z ==> #[trigger] reg@[q] == 0u8,
        decreases r - z,
    {
        reg.push(0u8);
        z += 1;
    }
    let mut k: usize = 0;
    proof {
        assert(msg@.take(0) =~= Seq::empty());
        assert(reg@ =~= remainder(gen@, msg@.take(0)));
    }
    while k < msg.len()
        invariant
            r == gen@.len() - 1,
            r >= 1,
            k <= msg@.len(),
            reg@.len() == r,
            reg@ == remainder(gen@, msg@.take(k as int)),
        decreases msg@.len() - k,
    {
        let feedback: u8 = if reg[0] % 2 == msg[k] % 2 {
            0
        } else {
            1
        };
        let ghost before = reg@;
        let ghost after = lfsr_step(gen@, before, msg@[k as int]);
        let mut i: usize = 0;
        while i < r
            invariant
                r == gen@.len() - 1,
                i <= r,
                reg@.len() == r,
                before.len() == r,
                after == lfsr_step(gen@, before, msg@[k as int]),
                feedback == xor_bit(before[0], msg@[k as int]),
                k < msg@.len(),
                forall|q: int| 0 <= q < i ==> #[trigger] reg@[q] == after[q],
                forall|q: int| i <= q < r ==> #[trigger] reg@[q] == before[q],
            decreases r - i,
        {
            let low: u8 = if i + 1 < r {
                reg[i + 1]
            } else {
                0
            };
            let tap: u8 = if feedback == 1 {
                gen[i + 1]
            } else {
                0
            };
            reg[i] = if low % 2 == tap % 2 {
                0
            } else {
                1
            };
            i += 1;
        }
        proof {
            assert(reg@ =~= after);
            assert(msg@.take(k + 1).drop_last() =~= msg@.take(k as int));
        }
        k += 1;
    }
    proof {
        assert(msg@.take(k as int) =~= msg@);
    }
    reg
}

} // verus!
