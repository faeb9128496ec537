//! Syndromes: the values of the received word at the roots
//! `alpha, alpha^2, .., alpha^(2t)` of the generator polynomial.

use vstd::prelude::*;
use crate::field::Gf;
use crate::field::GaloisField;
use crate::poly::accumulate;
use crate::poly::eval_bits;
use crate::poly::lemma_eval_from_concat;

verus! {

/// The first `count` syndromes of `word`: entry `j` is the value of the word
/// at `alpha^(j+1)`.
pub open spec fn syndromes(gf: Gf, word: Seq<u8>, count: nat) -> Seq<u32> {
    Seq::new(count, |j: int| eval_bits(gf, word, gf.pow((j + 1) as nat)))
}

/// No entry of `syn` differs from zero.
pub open spec fn all_zero(syn: Seq<u32>) -> bool {
    forall|j: int| 0 <= j < syn.len() ==> #[trigger] syn[j] == 0
}

/// The word belongs to the code of capability `t`: its `2t` syndromes are
/// zero.
pub open spec fn is_codeword(gf: Gf, t: nat, word: Seq<u8>) -> bool {
    all_zero(syndromes(gf, word, 2 * t))
}

/// Computes the `2t` syndromes of the word made of `msg` followed by `ecc`.
pub fn compute_syndromes(field: &GaloisField, msg: &[u8], ecc: &[u8], t: u32) -> (syn: Vec<u32>)
    requires
        field.wf(),
        t <= 32767,
    ensures
        syn@ == syndromes(field.gf(), msg@ + ecc@, 2 * t as nat),
        forall|j: int| 0 <= j < syn@.len() ==> #[trigger] syn@[j] < field.gf().size(),
{
    let ghost gf = field.gf();
    let mut syn: Vec<u32> = Vec::new();
    let mut j: u32 = 0;
    while j < 2 * t
        invariant
            field.wf(),
            gf == field.gf(),
            t <= 32767,
            j <= 2 * t,
            syn@.len() == j,
            forall|q: int|
                0 <= q < j ==> #[trigger] syn@[q] == eval_bits(
                    gf,
                    msg@ + ecc@,
                    gf.pow((q + 1) as nat),
                ),
            forall|q: int| 0 <= q < j ==> #[trigger] syn@[q] < gf.size(),
        decreases 2 * t - j,
    {
        let x = field.exp(j + 1);
        let head = accumulate(field, 0, msg, x);
        let all = accumulate(field, head, ecc, x);
        proof {
            lemma_eval_from_concat(gf, 0, msg@, ecc@, x);
        }
        syn.push(all);
        j += 1;
    }
    proof {
        assert(syn@ =~= syndromes(gf, msg@ + ecc@, 2 * t as nat));
    }
    syn
}

/// Tests whether every syndrome is zero.
pub fn is_clean(syn: &Vec<u32>) -> (r: bool)
    ensures
        r == all_zero(syn@),
{
    let mut j: usize = 0;
    while j < syn.len()
        invariant
            j <= syn@.len(),
            forall|q: int| 0 <= q < j ==> #[trigger] syn@[q] == 0,
        decreases syn@.len() - j,
    {
        if syn[j] != 0 {
            return false;
        }
        j += 1;
    }
    true
}

} // verus!
