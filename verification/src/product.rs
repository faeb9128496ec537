//! Products of linear factors `x + r` over the field, as polynomials that
//! hold the coefficient of `x^j` at index `j`.

use vstd::prelude::*;
use crate::bits::lemma_xor_cancel;
use crate::bits::lemma_xor_self;
use crate::bits::lemma_xor_swap;
use crate::field::Gf;
use crate::poly::coef;
use crate::poly::eval_poly;
use crate::poly::is_poly;
use crate::poly::lemma_eval_poly_push_zero;
use crate::poly::lemma_eval_poly_range;
use crate::poly::lemma_eval_poly_scale;
use crate::poly::lemma_eval_poly_xor;

verus! {

/// The product of the polynomial `c` and `x + r`.
pub open spec fn times_linear(gf: Gf, c: Seq<u32>, r: u32) -> Seq<u32> {
    Seq::new(c.len() + 1, |j: int| coef(c, j - 1) ^ gf.mul(coef(c, j), r))
}

/// The product of `x + r` over the entries `r` of `roots`.
pub open spec fn linear_product(gf: Gf, roots: Seq<u32>) -> Seq<u32>
    decreases roots.len(),
{
    if roots.len() == 0 {
        seq![1u32]
    } else {
        times_linear(gf, linear_product(gf, roots.drop_last()), roots.last())
    }
}

/// The polynomial whose coefficients are the squares of those of `c`.
pub open spec fn squared_coefs(gf: Gf, c: Seq<u32>) -> Seq<u32> {
    Seq::new(c.len(), |j: int| gf.sq(c[j]))
}

pub proof fn lemma_times_linear_poly(gf: Gf, c: Seq<u32>, r: u32)
    requires
        gf.is_primitive(),
        is_poly(gf, c),
        r < gf.size(),
    ensures
        is_poly(gf, times_linear(gf, c, r)),
{
    gf.lemma_size();
    assert forall|j: int| 0 <= j < c.len() + 1 implies #[trigger] times_linear(gf, c, r)[j]
        < gf.size() by {
        gf.lemma_mul_closed(coef(c, j), r);
        gf.lemma_times_alpha(coef(c, j - 1), gf.mul(coef(c, j), r));
    }
}

/// The value of the product with `x + r` is the product of the values.
pub proof fn lemma_times_linear_eval(gf: Gf, c: Seq<u32>, r: u32, x: u32)
    requires
        gf.is_primitive(),
        is_poly(gf, c),
        r < gf.size(),
        x < gf.size(),
    ensures
        eval_poly(gf, times_linear(gf, c, r), x) == gf.mul(eval_poly(gf, c, x), x ^ r),
{
    gf.lemma_size();
    let shifted = seq![0u32] + c;
    let multiple = Seq::new(c.len(), |j: int| gf.mul(c[j], r));
    let scaled = multiple.push(0);
    let e = eval_poly(gf, c, x);
    assert forall|j: int| 0 <= j < multiple.len() implies #[trigger] multiple[j] < gf.size() by {
        gf.lemma_mul_closed(c[j], r);
    }
    assert(times_linear(gf, c, r) =~= Seq::new(shifted.len(), |j: int| shifted[j] ^ scaled[j]));
    lemma_eval_poly_xor(gf, shifted, scaled, x);
    assert(shifted.skip(1) =~= c);
    lemma_eval_poly_range(gf, c, x);
    gf.lemma_mul_closed(e, x);
    lemma_xor_self(gf.mul(e, x));
    assert(eval_poly(gf, shifted, x) == gf.mul(e, x));
    lemma_eval_poly_push_zero(gf, multiple, x);
    lemma_eval_poly_scale(gf, c, r, x);
    gf.lemma_mul_distributes(x, r, e);
}

pub proof fn lemma_product_poly(gf: Gf, roots: Seq<u32>)
    requires
        gf.is_primitive(),
        is_poly(gf, roots),
    ensures
        is_poly(gf, linear_product(gf, roots)),
        linear_product(gf, roots).len() == roots.len() + 1,
        linear_product(gf, roots)[roots.len() as int] == 1,
    decreases roots.len(),
{
    gf.lemma_size();
    if roots.len() > 0 {
        lemma_product_poly(gf, roots.drop_last());
        lemma_times_linear_poly(gf, linear_product(gf, roots.drop_last()), roots.last());
        lemma_xor_self(1);
    }
}

/// Each of the roots is a root of the product.
pub proof fn lemma_product_vanishes(gf: Gf, roots: Seq<u32>, x: u32)
    requires
        gf.is_primitive(),
        is_poly(gf, roots),
        roots.contains(x),
    ensures
        eval_poly(gf, linear_product(gf, roots), x) == 0,
    decreases roots.len(),
{
    gf.lemma_size();
    let head = roots.drop_last();
    let k = roots.index_of(x);
    lemma_product_poly(gf, head);
    lemma_times_linear_eval(gf, linear_product(gf, head), roots.last(), x);
    lemma_eval_poly_range(gf, linear_product(gf, head), x);
    if roots.last() == x {
        lemma_xor_self(x);
    } else {
        assert(head[k] == x);
        lemma_product_vanishes(gf, head, x);
    }
}

/// Two linear factors may be multiplied in either order.
pub proof fn lemma_times_linear_commute(gf: Gf, c: Seq<u32>, a: u32, b: u32)
    requires
        gf.is_primitive(),
        is_poly(gf, c),
        a < gf.size(),
        b < gf.size(),
    ensures
        times_linear(gf, times_linear(gf, c, a), b) == times_linear(gf, times_linear(gf, c, b), a),
{
    gf.lemma_size();
    let left = times_linear(gf, times_linear(gf, c, a), b);
    let right = times_linear(gf, times_linear(gf, c, b), a);
    lemma_xor_self(0);
    assert forall|j: int| 0 <= j < c.len() + 2 implies left[j] == right[j] by {
        let p = coef(c, j - 2);
        let q = coef(c, j - 1);
        let s = coef(c, j);
        assert(coef(times_linear(gf, c, a), j - 1) == p ^ gf.mul(q, a));
        assert(coef(times_linear(gf, c, a), j) == q ^ gf.mul(s, a));
        assert(coef(times_linear(gf, c, b), j - 1) == p ^ gf.mul(q, b));
        assert(coef(times_linear(gf, c, b), j) == q ^ gf.mul(s, b));
        gf.lemma_mul_closed(q, a);
        gf.lemma_mul_closed(q, b);
        gf.lemma_mul_closed(s, a);
        gf.lemma_mul_closed(s, b);
        gf.lemma_mul_closed(a, b);
        gf.lemma_mul_distributes(q, gf.mul(s, a), b);
        gf.lemma_mul_distributes(q, gf.mul(s, b), a);
        gf.lemma_mul_assoc(s, a, b);
        gf.lemma_mul_assoc(s, b, a);
        lemma_xor_swap(p, gf.mul(q, a), gf.mul(q, b), gf.mul(gf.mul(s, a), b));
    }
    assert(left =~= right);
}

/// Any one of the factors may be taken out of the product and multiplied
/// in last.
pub proof fn lemma_product_remove(gf: Gf, roots: Seq<u32>, k: int)
    requires
        gf.is_primitive(),
        is_poly(gf, roots),
        0 <= k < roots.len(),
    ensures
        linear_product(gf, roots) == times_linear(
            gf,
            linear_product(gf, roots.remove(k)),
            roots[k],
        ),
    decreases roots.len(),
{
    if k == roots.len() - 1 {
        assert(roots.remove(k) =~= roots.drop_last());
    } else {
        let head = roots.drop_last();
        let last = roots.last();
        lemma_product_remove(gf, head, k);
        lemma_product_poly(gf, head.remove(k));
        lemma_times_linear_commute(gf, linear_product(gf, head.remove(k)), head[k], last);
        assert(roots.remove(k).drop_last() =~= head.remove(k));
        assert(roots.remove(k).last() == last);
    }
}

/// The product does not depend on the order of its factors: two sequences
/// of equal length without repetition, one of which holds every entry of
/// the other, have the same product.
pub proof fn lemma_product_permuted(gf: Gf, a: Seq<u32>, b: Seq<u32>)
    requires
        gf.is_primitive(),
        is_poly(gf, a),
        is_poly(gf, b),
        a.len() == b.len(),
        b.no_duplicates(),
        forall|i: int| 0 <= i < b.len() ==> a.contains(#[trigger] b[i]),
    ensures
        linear_product(gf, a) == linear_product(gf, b),
    decreases a.len(),
{
    if a.len() == 0 {
        assert(a =~= b);
    } else {
        let x = b.last();
        assert(a.contains(b[b.len() - 1]));
        let k = a.index_of(x);
        let a2 = a.remove(k);
        let b2 = b.drop_last();
        assert forall|i: int| 0 <= i < b2.len() implies a2.contains(#[trigger] b2[i]) by {
            let y = b2[i];
            assert(a.contains(b[i]));
            let k2 = a.index_of(y);
            assert(b[i] != b[b.len() - 1]);
            if k2 < k {
                assert(a2[k2] == y);
            } else {
                assert(a2[k2 - 1] == y);
            }
        }
        lemma_product_permuted(gf, a2, b2);
        lemma_product_remove(gf, a, k);
    }
}

/// Squaring the coefficients of a product with `x + r` gives the product of
/// the squared coefficients with `x + r^2`.
pub proof fn lemma_times_linear_squared(gf: Gf, c: Seq<u32>, r: u32)
    requires
        gf.is_primitive(),
        is_poly(gf, c),
        r < gf.size(),
    ensures
        squared_coefs(gf, times_linear(gf, c, r)) == times_linear(
            gf,
            squared_coefs(gf, c),
            gf.sq(r),
        ),
{
    gf.lemma_size();
    let left = squared_coefs(gf, times_linear(gf, c, r));
    let right = times_linear(gf, squared_coefs(gf, c), gf.sq(r));
    assert forall|j: int| 0 <= j < c.len() + 1 implies left[j] == right[j] by {
        let p = coef(c, j - 1);
        let q = coef(c, j);
        assert(coef(squared_coefs(gf, c), j - 1) == gf.sq(p));
        assert(coef(squared_coefs(gf, c), j) == gf.sq(q));
        gf.lemma_mul_closed(q, r);
        gf.lemma_sq_add(p, gf.mul(q, r));
        gf.lemma_sq_mul(q, r);
    }
    assert(left =~= right);
}

/// Squaring the coefficients of a product of linear factors gives the
/// product over the squares of the roots.
pub proof fn lemma_product_squared(gf: Gf, roots: Seq<u32>)
    requires
        gf.is_primitive(),
        is_poly(gf, roots),
    ensures
        squared_coefs(gf, linear_product(gf, roots)) == linear_product(
            gf,
            squared_coefs(gf, roots),
        ),
    decreases roots.len(),
{
    gf.lemma_size();
    if roots.len() == 0 {
        gf.lemma_mul_one(1);
        assert(squared_coefs(gf, seq![1u32]) =~= seq![1u32]);
        assert(squared_coefs(gf, roots) =~= Seq::<u32>::empty());
    } else {
        let head = roots.drop_last();
        lemma_product_squared(gf, head);
        lemma_product_poly(gf, head);
        lemma_times_linear_squared(gf, linear_product(gf, head), roots.last());
        assert(squared_coefs(gf, roots).drop_last() =~= squared_coefs(gf, head));
    }
}

/// The quotient of `c` on division by `x + r`: Horner's partial values.
pub open spec fn quotient(gf: Gf, c: Seq<u32>, r: u32) -> Seq<u32> {
    Seq::new((c.len() - 1) as nat, |j: int| eval_poly(gf, c.skip(j + 1), r))
}

/// A polynomial with the root `r` is its quotient by `x + r`, times
/// `x + r`.
pub proof fn lemma_factor(gf: Gf, c: Seq<u32>, r: u32)
    requires
        gf.is_primitive(),
        is_poly(gf, c),
        r < gf.size(),
        c.len() >= 1,
        eval_poly(gf, c, r) == 0,
    ensures
        is_poly(gf, quotient(gf, c, r)),
        times_linear(gf, quotient(gf, c, r), r) == c,
{
    gf.lemma_size();
    let q = quotient(gf, c, r);
    lemma_xor_self(0);
    assert forall|j: int| 0 <= j < q.len() implies #[trigger] q[j] < gf.size() by {
        lemma_eval_poly_range(gf, c.skip(j + 1), r);
    }
    assert forall|j: int| 0 <= j < c.len() implies times_linear(gf, q, r)[j] == c[j] by {
        let rest = eval_poly(gf, c.skip(j + 1), r);
        lemma_eval_poly_range(gf, c.skip(j + 1), r);
        gf.lemma_mul_closed(rest, r);
        assert(c.skip(j).skip(1) =~= c.skip(j + 1));
        assert(c.skip(j)[0] == c[j]);
        assert(eval_poly(gf, c.skip(j), r) == gf.mul(rest, r) ^ c[j]);
        assert(coef(q, j) == rest);
        lemma_xor_cancel(gf.mul(rest, r), c[j]);
        lemma_xor_self(gf.mul(rest, r));
        if j == 0 {
            assert(c.skip(0) =~= c);
        }
    }
    assert(times_linear(gf, q, r) =~= c);
}

/// A polynomial that is not zero has fewer roots than coefficients.
pub proof fn lemma_fewer_roots(gf: Gf, c: Seq<u32>, roots: Seq<u32>)
    requires
        gf.is_primitive(),
        is_poly(gf, c),
        is_poly(gf, roots),
        roots.no_duplicates(),
        forall|i: int| 0 <= i < roots.len() ==> eval_poly(gf, c, #[trigger] roots[i]) == 0,
        exists|j: int| 0 <= j < c.len() && #[trigger] c[j] != 0,
    ensures
        roots.len() < c.len(),
    decreases roots.len(),
{
    gf.lemma_size();
    lemma_xor_self(0);
    if roots.len() > 0 {
        let r = roots.last();
        let q = quotient(gf, c, r);
        let others = roots.drop_last();
        assert(eval_poly(gf, c, roots[roots.len() - 1]) == 0);
        lemma_factor(gf, c, r);
        let w = choose|j: int| 0 <= j < c.len() && #[trigger] c[j] != 0;
        if forall|j: int| 0 <= j < q.len() ==> #[trigger] q[j] == 0 {
            assert(coef(q, w - 1) == 0 && coef(q, w) == 0);
            assert(times_linear(gf, q, r)[w] == 0);
            assert(false);
        }
        assert forall|i: int| 0 <= i < others.len() implies eval_poly(
            gf,
            q,
            #[trigger] others[i],
        ) == 0 by {
            let y = roots[i];
            assert(eval_poly(gf, c, roots[i]) == 0);
            lemma_times_linear_eval(gf, q, r, y);
            lemma_eval_poly_range(gf, q, y);
            gf.lemma_times_alpha(y, r);
            lemma_xor_cancel(y, r);
            gf.lemma_mul_closed(eval_poly(gf, q, y), y ^ r);
        }
        lemma_fewer_roots(gf, q, others);
    }
}

/// The value of a polynomial at zero is its constant term.
pub proof fn lemma_eval_at_zero(gf: Gf, c: Seq<u32>)
    ensures
        eval_poly(gf, c, 0) == coef(c, 0),
{
    if c.len() > 0 {
        lemma_xor_self(c[0]);
    }
}

/// Two polynomials with the same constant term that share as many roots,
/// none of them zero, as they have coefficients beside that term, are the
/// same polynomial.
pub proof fn lemma_same_roots(gf: Gf, a: Seq<u32>, b: Seq<u32>, roots: Seq<u32>)
    requires
        gf.is_primitive(),
        is_poly(gf, a),
        is_poly(gf, b),
        is_poly(gf, roots),
        a.len() == roots.len() + 1,
        b.len() == roots.len() + 1,
        a[0] == b[0],
        roots.no_duplicates(),
        forall|i: int| 0 <= i < roots.len() ==> #[trigger] roots[i] != 0,
        forall|i: int| 0 <= i < roots.len() ==> eval_poly(gf, a, #[trigger] roots[i]) == 0,
        forall|i: int| 0 <= i < roots.len() ==> eval_poly(gf, b, #[trigger] roots[i]) == 0,
    ensures
        a == b,
{
    gf.lemma_size();
    lemma_xor_self(0);
    let d = Seq::new(a.len(), |j: int| a[j] ^ b[j]);
    let more = roots.push(0);
    assert forall|j: int| 0 <= j < d.len() implies #[trigger] d[j] < gf.size() by {
        gf.lemma_times_alpha(a[j], b[j]);
    }
    lemma_xor_cancel(a[0], b[0]);
    lemma_eval_at_zero(gf, d);
    assert forall|i: int| 0 <= i < more.len() implies eval_poly(gf, d, #[trigger] more[i])
        == 0 by {
        if i < roots.len() {
            assert(eval_poly(gf, a, roots[i]) == 0);
            assert(eval_poly(gf, b, roots[i]) == 0);
            lemma_eval_poly_xor(gf, a, b, roots[i]);
        }
    }
    assert forall|i: int, j: int|
        0 <= i < more.len() && 0 <= j < more.len() && i != j implies more[i] != more[j] by {
        if i < roots.len() && j < roots.len() {
            assert(roots[i] != roots[j]);
        } else if i < roots.len() {
            assert(roots[i] != 0);
        } else {
            assert(roots[j] != 0);
        }
    }
    if exists|j: int| 0 <= j < d.len() && #[trigger] d[j] != 0 {
        lemma_fewer_roots(gf, d, more);
        assert(false);
    }
    assert forall|j: int| 0 <= j < a.len() implies a[j] == b[j] by {
        assert(d[j] == 0);
        lemma_xor_cancel(a[j], b[j]);
    }
    assert(a =~= b);
}

} // verus!
