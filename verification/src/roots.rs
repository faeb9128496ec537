//! Search for the roots of the error-locator polynomial: every position of
//! the word is tried in turn.

use vstd::prelude::*;
use vstd::arithmetic::div_mod::*;
use vstd::slice::slice_subrange;
use crate::field::Gf;
use crate::field::GaloisField;
use crate::poly::eval_poly;
use crate::poly::evaluate;

verus! {

/// The element whose being a root of the locator marks an error at position
/// `p` of a word of `len` bits: the inverse of `alpha^(len-1-p)`, the power
/// of `alpha` that the bit at `p` is the coefficient of.
pub open spec fn probe(gf: Gf, len: nat, p: nat) -> u32 {
    gf.pow((gf.order() - (len - 1 - p)) as nat)
}

/// The locator `sigma` of degree `deg` marks position `p` of a word of `len`
/// bits.
pub open spec fn is_error_at(gf: Gf, sigma: Seq<u32>, deg: nat, len: nat, p: nat) -> bool {
    eval_poly(gf, sigma.take(deg as int + 1), probe(gf, len, p)) == 0
}

/// The positions below `upto` that the locator marks, in ascending order.
pub open spec fn error_positions(gf: Gf, sigma: Seq<u32>, deg: nat, len: nat, upto: nat) -> Seq<
    u32,
>
    decreases upto,
{
    if upto == 0 {
        Seq::empty()
    } else {
        let before = error_positions(gf, sigma, deg, len, (upto - 1) as nat);
        if is_error_at(gf, sigma, deg, len, (upto - 1) as nat) {
            before.push((upto - 1) as u32)
        } else {
            before
        }
    }
}

/// The element tried for position `p` is the inverse of the locator of
/// position `q` only where the two positions are one.
pub proof fn lemma_probe_inverse(gf: Gf, len: nat, p: nat, q: nat)
    requires
        gf.is_primitive(),
        len <= gf.order(),
        p < len,
        q < len,
    ensures
        probe(gf, len, p) < gf.size(),
        gf.mul(gf.pow((len - 1 - q) as nat), probe(gf, len, p)) == 1 <==> p == q,
{
    gf.lemma_size();
    let n = gf.order();
    let e = (len - 1 - q) as nat;
    let d = (len - 1 - p) as nat;
    gf.lemma_pow_range((n - d) as nat);
    gf.lemma_mul_pow(e, (n - d) as nat);
    gf.lemma_pow_is_one((e + (n - d)) as nat);
    let v = (e + n - d) as nat;
    if e == d {
        lemma_mod_self_0(n as int);
    } else if e < d {
        lemma_small_mod(v, n);
    } else {
        lemma_mod_add_multiples_vanish(v - n, n as int);
        lemma_small_mod((v - n) as nat, n);
    }
}

/// The positions found are those below `upto` that the locator marks, each
/// once, in ascending order.
pub proof fn lemma_error_positions_members(
    gf: Gf,
    sigma: Seq<u32>,
    deg: nat,
    len: nat,
    upto: nat,
)
    requires
        upto <= u32::MAX,
    ensures
        forall|p: u32|
            #[trigger] error_positions(gf, sigma, deg, len, upto).contains(p) <==> (p < upto
                && is_error_at(gf, sigma, deg, len, p as nat)),
        forall|a: int|
            0 <= a < error_positions(gf, sigma, deg, len, upto).len() ==> #[trigger] error_positions(
                gf,
                sigma,
                deg,
                len,
                upto,
            )[a] < upto,
        forall|a: int, b: int|
            0 <= a < b < error_positions(gf, sigma, deg, len, upto).len() ==> error_positions(
                gf,
                sigma,
                deg,
                len,
                upto,
            )[a] < error_positions(gf, sigma, deg, len, upto)[b],
    decreases upto,
{
    let now = error_positions(gf, sigma, deg, len, upto);
    if upto > 0 {
        let h = (upto - 1) as nat;
        let before = error_positions(gf, sigma, deg, len, h);
        lemma_error_positions_members(gf, sigma, deg, len, h);
        assert forall|p: u32| #[trigger] now.contains(p) <==> (p < upto && is_error_at(
            gf,
            sigma,
            deg,
            len,
            p as nat,
        )) by {
            if now.contains(p) {
                let k = now.index_of(p);
                if k < before.len() {
                    assert(before[k] == p);
                    assert(before.contains(p));
                }
            }
            if p < upto && is_error_at(gf, sigma, deg, len, p as nat) {
                if p < h {
                    assert(before.contains(p));
                    let k = before.index_of(p);
                    assert(now[k] == p);
                } else {
                    assert(now[now.len() - 1] == p);
                }
            }
        }
    }
}

/// Finds the positions of a word of `len` bits that the locator `sigma` of
/// degree `deg` marks.
pub fn find_errors(field: &GaloisField, sigma: &Vec<u32>, deg: usize, len: usize) -> (found: Vec<
    u32,
>)
    requires
        field.wf(),
        deg < sigma@.len(),
        len <= field.gf().order(),
        forall|j: int| 0 <= j < sigma@.len() ==> #[trigger] sigma@[j] < field.gf().size(),
    ensures
        found@ == error_positions(field.gf(), sigma@, deg as nat, len as nat, len as nat),
        found@.len() <= len,
{
    let ghost gf = field.gf();
    let n = field.order();
    let total = sigma.len();
    let head = slice_subrange(sigma.as_slice(), 0, deg + 1);
    let mut found: Vec<u32> = Vec::new();
    let mut p: usize = 0;
    while p < len
        invariant
            field.wf(),
            gf == field.gf(),
            n == gf.order(),
            len <= n <= 32767,
            p <= len,
            head@ == sigma@.take(deg + 1),
            forall|j: int| 0 <= j < head@.len() ==> #[trigger] head@[j] < gf.size(),
            found@ == error_positions(gf, sigma@, deg as nat, len as nat, p as nat),
            found@.len() <= p,
        decreases len - p,
    {
        let x = field.exp(n - ((len - 1 - p) as u32));
        if evaluate(field, head, x) == 0 {
            found.push(p as u32);
        }
        p += 1;
    }
    found
}

} // verus!
