//! Newton's identities between the coefficients of a polynomial and the
//! power sums of a set of error locators, in the form that the iteration
//! for the error-locator polynomial rests on.
//!
//! For locators `X_1 .. X_v` with power sums `S_n`, and a polynomial `c`,
//! the `n`-th identity asks that
//! `c_0 S_n + c_1 S_(n-1) + .. + c_(n-1) S_1 + n c_n` be zero. Multiplying
//! the sequence of these values by all `1 + X_l z` gives the sequence
//! `n p_n`, where `p` is the product of `c` and all `1 + X_l z`.

use vstd::prelude::*;
use crate::bits::lemma_xor_assoc;
use crate::bits::lemma_xor_cancel;
use crate::bits::lemma_xor_self;
use crate::bits::lemma_xor_swap;
use crate::field::Gf;
use crate::poly::coef;
use crate::poly::eval_poly;
use crate::poly::is_poly;
use crate::poly::lemma_eval_poly_push_zero;
use crate::poly::lemma_eval_poly_range;
use crate::poly::lemma_eval_poly_scale;
use crate::poly::lemma_eval_poly_xor;

verus! {

/// The sum of `c_j x^(n-j)` over `j` below `n`: the part that the locator
/// `x` has in the `n`-th identity.
pub open spec fn geo(gf: Gf, c: Seq<u32>, x: u32, n: int) -> u32
    decreases n,
{
    if n <= 0 {
        0
    } else {
        gf.mul(x, geo(gf, c, x, n - 1) ^ coef(c, n - 1))
    }
}

/// The sum of `c_j S_(n-j)` over `j` below `n`, for the power sums `S` of
/// the locators `xs`.
pub open spec fn conv(gf: Gf, c: Seq<u32>, xs: Seq<u32>, n: int) -> u32
    decreases xs.len(),
{
    if xs.len() == 0 {
        0
    } else {
        conv(gf, c, xs.drop_last(), n) ^ geo(gf, c, xs.last(), n)
    }
}

/// `n` times `v` in characteristic two.
pub open spec fn odd_part(n: int, v: u32) -> u32 {
    if n % 2 == 1 {
        v
    } else {
        0
    }
}

/// The left side of the `n`-th identity.
pub open spec fn newton(gf: Gf, c: Seq<u32>, xs: Seq<u32>, n: int) -> u32 {
    conv(gf, c, xs, n) ^ odd_part(n, coef(c, n))
}

/// The left sides of the identities with numbers below the length of `c`.
pub open spec fn newton_seq(gf: Gf, c: Seq<u32>, xs: Seq<u32>) -> Seq<u32> {
    Seq::new(c.len(), |n: int| newton(gf, c, xs, n))
}

/// The sums that the identities with numbers below the length of `c` hold.
pub open spec fn conv_seq(gf: Gf, c: Seq<u32>, xs: Seq<u32>) -> Seq<u32> {
    Seq::new(c.len(), |n: int| conv(gf, c, xs, n))
}

/// The polynomial one, with room for `len` coefficients.
pub open spec fn one_poly(len: nat) -> Seq<u32> {
    Seq::new(
        len,
        |j: int|
            if j == 0 {
                1u32
            } else {
                0u32
            },
    )
}

/// The product of `c` and `1 + x z`, cut off at the length of `c`.
pub open spec fn times_recip(gf: Gf, c: Seq<u32>, x: u32) -> Seq<u32> {
    Seq::new(c.len(), |j: int| c[j] ^ gf.mul(x, coef(c, j - 1)))
}

/// The product of `a` and all `1 + x z` for `x` in `xs`, cut off at the
/// length of `a`.
pub open spec fn times_locators(gf: Gf, xs: Seq<u32>, a: Seq<u32>) -> Seq<u32>
    decreases xs.len(),
{
    if xs.len() == 0 {
        a
    } else {
        times_locators(gf, xs.drop_last(), times_recip(gf, a, xs.last()))
    }
}

/// The value at `y` of the product of all `1 + x z` for `x` in `xs`.
pub open spec fn recip_value(gf: Gf, xs: Seq<u32>, y: u32) -> u32
    decreases xs.len(),
{
    if xs.len() == 0 {
        1
    } else {
        gf.mul(recip_value(gf, xs.drop_last(), y), 1 ^ gf.mul(xs.last(), y))
    }
}

pub proof fn lemma_geo_range(gf: Gf, c: Seq<u32>, x: u32, n: int)
    requires
        gf.is_primitive(),
        is_poly(gf, c),
        x < gf.size(),
    ensures
        geo(gf, c, x, n) < gf.size(),
    decreases n,
{
    gf.lemma_size();
    if n > 0 {
        lemma_geo_range(gf, c, x, n - 1);
        gf.lemma_times_alpha(geo(gf, c, x, n - 1), coef(c, n - 1));
        gf.lemma_mul_closed(x, geo(gf, c, x, n - 1) ^ coef(c, n - 1));
    }
}

pub proof fn lemma_conv_range(gf: Gf, c: Seq<u32>, xs: Seq<u32>, n: int)
    requires
        gf.is_primitive(),
        is_poly(gf, c),
        is_poly(gf, xs),
    ensures
        conv(gf, c, xs, n) < gf.size(),
        newton(gf, c, xs, n) < gf.size(),
    decreases xs.len(),
{
    gf.lemma_size();
    if xs.len() > 0 {
        lemma_conv_range(gf, c, xs.drop_last(), n);
        lemma_geo_range(gf, c, xs.last(), n);
        gf.lemma_times_alpha(conv(gf, c, xs.drop_last(), n), geo(gf, c, xs.last(), n));
    }
    gf.lemma_times_alpha(conv(gf, c, xs, n), odd_part(n, coef(c, n)));
}

/// Where `c3` is `c1` plus `s z^k` times `c2` in the coefficients below
/// `bound`, the part of a locator in an identity of `c3` is made up in the
/// same way of its parts in identities of `c1` and `c2`.
pub proof fn lemma_geo_combine(
    gf: Gf,
    c1: Seq<u32>,
    c2: Seq<u32>,
    c3: Seq<u32>,
    s: u32,
    k: int,
    x: u32,
    n: int,
    bound: int,
)
    requires
        gf.is_primitive(),
        is_poly(gf, c1),
        is_poly(gf, c2),
        is_poly(gf, c3),
        s < gf.size(),
        x < gf.size(),
        k >= 0,
        n <= bound,
        forall|j: int| j < bound ==> coef(c3, j) == coef(c1, j) ^ gf.mul(s, coef(c2, j - k)),
    ensures
        geo(gf, c3, x, n) == geo(gf, c1, x, n) ^ gf.mul(s, geo(gf, c2, x, n - k)),
    decreases n,
{
    gf.lemma_size();
    lemma_xor_self(0);
    if n > 0 {
        lemma_geo_combine(gf, c1, c2, c3, s, k, x, n - 1, bound);
        let g1 = geo(gf, c1, x, n - 1);
        let g2 = geo(gf, c2, x, n - 1 - k);
        let a1 = coef(c1, n - 1);
        let a2 = coef(c2, n - 1 - k);
        lemma_geo_range(gf, c1, x, n - 1);
        lemma_geo_range(gf, c2, x, n - 1 - k);
        gf.lemma_mul_closed(s, g2);
        gf.lemma_mul_closed(s, a2);
        gf.lemma_times_alpha(g1, a1);
        gf.lemma_times_alpha(g2, a2);
        gf.lemma_mul_closed(s, g2 ^ a2);
        lemma_xor_swap(g1, gf.mul(s, g2), a1, gf.mul(s, a2));
        gf.lemma_mul_distributes(g2, a2, s);
        gf.lemma_mul_distributes(g1 ^ a1, gf.mul(s, g2 ^ a2), x);
        gf.lemma_mul_swap(x, s, g2 ^ a2);
        assert(coef(c3, n - 1) == a1 ^ gf.mul(s, a2));
        assert(geo(gf, c3, x, n) == gf.mul(x, g1 ^ a1) ^ gf.mul(s, gf.mul(x, g2 ^ a2)));
        if n - k <= 0 {
            assert(g2 == 0 && a2 == 0);
        }
    }
}

pub proof fn lemma_conv_combine(
    gf: Gf,
    c1: Seq<u32>,
    c2: Seq<u32>,
    c3: Seq<u32>,
    s: u32,
    k: int,
    xs: Seq<u32>,
    n: int,
    bound: int,
)
    requires
        gf.is_primitive(),
        is_poly(gf, c1),
        is_poly(gf, c2),
        is_poly(gf, c3),
        is_poly(gf, xs),
        s < gf.size(),
        k >= 0,
        n <= bound,
        forall|j: int| j < bound ==> coef(c3, j) == coef(c1, j) ^ gf.mul(s, coef(c2, j - k)),
    ensures
        conv(gf, c3, xs, n) == conv(gf, c1, xs, n) ^ gf.mul(s, conv(gf, c2, xs, n - k)),
    decreases xs.len(),
{
    gf.lemma_size();
    lemma_xor_self(0);
    if xs.len() > 0 {
        let ys = xs.drop_last();
        let x = xs.last();
        lemma_conv_combine(gf, c1, c2, c3, s, k, ys, n, bound);
        lemma_geo_combine(gf, c1, c2, c3, s, k, x, n, bound);
        let a1 = conv(gf, c1, ys, n);
        let a2 = conv(gf, c2, ys, n - k);
        let g1 = geo(gf, c1, x, n);
        let g2 = geo(gf, c2, x, n - k);
        lemma_conv_range(gf, c1, ys, n);
        lemma_conv_range(gf, c2, ys, n - k);
        lemma_geo_range(gf, c1, x, n);
        lemma_geo_range(gf, c2, x, n - k);
        gf.lemma_mul_distributes(a2, g2, s);
        lemma_xor_swap(a1, gf.mul(s, a2), g1, gf.mul(s, g2));
    }
}

/// The same for the whole left side of an identity, where the shift `k` is
/// even.
pub proof fn lemma_newton_combine(
    gf: Gf,
    c1: Seq<u32>,
    c2: Seq<u32>,
    c3: Seq<u32>,
    s: u32,
    k: int,
    xs: Seq<u32>,
    n: int,
)
    requires
        gf.is_primitive(),
        is_poly(gf, c1),
        is_poly(gf, c2),
        is_poly(gf, c3),
        is_poly(gf, xs),
        s < gf.size(),
        k >= 0,
        k % 2 == 0,
        forall|j: int| j <= n ==> coef(c3, j) == coef(c1, j) ^ gf.mul(s, coef(c2, j - k)),
    ensures
        newton(gf, c3, xs, n) == newton(gf, c1, xs, n) ^ gf.mul(s, newton(gf, c2, xs, n - k)),
{
    gf.lemma_size();
    lemma_xor_self(0);
    lemma_conv_combine(gf, c1, c2, c3, s, k, xs, n, n + 1);
    let a1 = conv(gf, c1, xs, n);
    let a2 = conv(gf, c2, xs, n - k);
    let b1 = odd_part(n, coef(c1, n));
    let b2 = odd_part(n - k, coef(c2, n - k));
    lemma_conv_range(gf, c1, xs, n);
    lemma_conv_range(gf, c2, xs, n - k);
    assert((n - k) % 2 == n % 2);
    assert(odd_part(n, coef(c3, n)) == b1 ^ gf.mul(s, b2));
    gf.lemma_mul_distributes(a2, b2, s);
    lemma_xor_swap(a1, gf.mul(s, a2), b1, gf.mul(s, b2));
}

pub proof fn lemma_times_recip_poly(gf: Gf, c: Seq<u32>, x: u32)
    requires
        gf.is_primitive(),
        is_poly(gf, c),
        x < gf.size(),
    ensures
        is_poly(gf, times_recip(gf, c, x)),
        forall|j: int|
            j < c.len() ==> coef(times_recip(gf, c, x), j) == coef(c, j) ^ gf.mul(
                x,
                coef(c, j - 1),
            ),
{
    gf.lemma_size();
    lemma_xor_self(0);
    assert forall|j: int| 0 <= j < c.len() implies #[trigger] times_recip(gf, c, x)[j]
        < gf.size() by {
        gf.lemma_mul_closed(x, coef(c, j - 1));
        gf.lemma_times_alpha(c[j], gf.mul(x, coef(c, j - 1)));
    }
}

pub proof fn lemma_times_locators_poly(gf: Gf, xs: Seq<u32>, a: Seq<u32>)
    requires
        gf.is_primitive(),
        is_poly(gf, a),
        is_poly(gf, xs),
    ensures
        is_poly(gf, times_locators(gf, xs, a)),
        times_locators(gf, xs, a).len() == a.len(),
    decreases xs.len(),
{
    if xs.len() > 0 {
        lemma_times_recip_poly(gf, a, xs.last());
        lemma_times_locators_poly(gf, xs.drop_last(), times_recip(gf, a, xs.last()));
    }
}

/// Taking the factor `1 + x z` out of the identities: the values for the
/// locators with `x` among them, times `1 + x z`, are the values for the
/// other locators and the polynomial times `1 + x z`.
pub proof fn lemma_newton_peel(gf: Gf, c: Seq<u32>, xs: Seq<u32>, n: int)
    requires
        gf.is_primitive(),
        is_poly(gf, c),
        is_poly(gf, xs),
        xs.len() > 0,
        0 <= n < c.len(),
    ensures
        newton(gf, c, xs, n) ^ gf.mul(xs.last(), newton(gf, c, xs, n - 1)) == newton(
            gf,
            times_recip(gf, c, xs.last()),
            xs.drop_last(),
            n,
        ),
{
    gf.lemma_size();
    lemma_xor_self(0);
    let x = xs.last();
    let ys = xs.drop_last();
    let m = times_recip(gf, c, x);
    lemma_times_recip_poly(gf, c, x);
    lemma_conv_combine(gf, c, c, m, x, 1, ys, n, c.len() as int);
    let a = conv(gf, c, ys, n);
    let b = conv(gf, c, ys, n - 1);
    let g = geo(gf, c, x, n);
    let h = geo(gf, c, x, n - 1);
    let p = coef(c, n);
    let q = coef(c, n - 1);
    lemma_conv_range(gf, c, ys, n);
    lemma_conv_range(gf, c, ys, n - 1);
    lemma_geo_range(gf, c, x, n);
    lemma_geo_range(gf, c, x, n - 1);
    gf.lemma_mul_closed(x, b);
    gf.lemma_mul_closed(x, h);
    gf.lemma_mul_closed(x, q);
    // newton(c, xs, n - 1) = (b ^ h) ^ odd(n - 1, q)
    gf.lemma_times_alpha(b, h);
    gf.lemma_mul_distributes(b ^ h, odd_part(n - 1, q), x);
    gf.lemma_mul_distributes(b, h, x);
    // g = x (h ^ q) for n >= 1
    gf.lemma_mul_distributes(h, q, x);
    let xb = gf.mul(x, b);
    let xh = gf.mul(x, h);
    let xq = gf.mul(x, q);
    if n == 0 {
        assert(h == 0 && q == 0 && b == 0 && g == 0) by {
            lemma_conv_zero(gf, c, ys, -1);
            lemma_conv_zero(gf, c, ys, 0);
        }
        lemma_xor_self(a);
    } else {
        assert(g == xh ^ xq);
        if n % 2 == 1 {
            assert(odd_part(n - 1, q) == 0);
            assert(odd_part(n, p ^ xq) == p ^ xq);
            lemma_xor_identity_odd(a, xb, xh, xq, p);
        } else {
            assert(odd_part(n - 1, q) == q);
            assert(odd_part(n, p ^ xq) == 0);
            lemma_xor_identity_even(a, xb, xh, xq);
        }
    }
}

proof fn lemma_xor_identity_odd(a: u32, xb: u32, xh: u32, xq: u32, p: u32)
    ensures
        ((a ^ (xh ^ xq)) ^ p) ^ ((xb ^ xh) ^ 0) == (a ^ xb) ^ (p ^ xq),
{
    assert(((a ^ (xh ^ xq)) ^ p) ^ ((xb ^ xh) ^ 0) == (a ^ xb) ^ (p ^ xq)) by (bit_vector);
}

proof fn lemma_xor_identity_even(a: u32, xb: u32, xh: u32, xq: u32)
    ensures
        ((a ^ (xh ^ xq)) ^ 0) ^ ((xb ^ xh) ^ xq) == (a ^ xb) ^ 0,
{
    assert(((a ^ (xh ^ xq)) ^ 0) ^ ((xb ^ xh) ^ xq) == (a ^ xb) ^ 0) by (bit_vector);
}

/// No locator has a part in an identity whose number is not positive.
pub proof fn lemma_conv_zero(gf: Gf, c: Seq<u32>, xs: Seq<u32>, n: int)
    requires
        n <= 0,
    ensures
        conv(gf, c, xs, n) == 0,
    decreases xs.len(),
{
    lemma_xor_self(0);
    if xs.len() > 0 {
        lemma_conv_zero(gf, c, xs.drop_last(), n);
    }
}

/// The values of the identities, multiplied by all `1 + X_l z`, are the
/// coefficients of odd order of the polynomial times all `1 + X_l z`.
pub proof fn lemma_newton_product(gf: Gf, c: Seq<u32>, xs: Seq<u32>)
    requires
        gf.is_primitive(),
        is_poly(gf, c),
        is_poly(gf, xs),
    ensures
        times_locators(gf, xs, newton_seq(gf, c, xs)).len() == c.len(),
        times_locators(gf, xs, c).len() == c.len(),
        forall|n: int|
            0 <= n < c.len() ==> #[trigger] times_locators(gf, xs, newton_seq(gf, c, xs))[n]
                == odd_part(n, times_locators(gf, xs, c)[n]),
    decreases xs.len(),
{
    gf.lemma_size();
    lemma_xor_self(0);
    let u = newton_seq(gf, c, xs);
    if xs.len() == 0 {
        assert forall|n: int| 0 <= n < c.len() implies #[trigger] u[n] == odd_part(n, c[n]) by {
            lemma_xor_self(odd_part(n, c[n]));
        }
    } else {
        let x = xs.last();
        let ys = xs.drop_last();
        let c2 = times_recip(gf, c, x);
        let u2 = newton_seq(gf, c2, ys);
        lemma_times_recip_poly(gf, c, x);
        assert forall|n: int| 0 <= n < c.len() implies #[trigger] times_recip(gf, u, x)[n]
            == u2[n] by {
            lemma_newton_peel(gf, c, xs, n);
            if n == 0 {
                lemma_conv_zero(gf, c, xs, -1);
            }
        }
        assert(times_recip(gf, u, x) =~= u2);
        lemma_newton_product(gf, c2, ys);
    }
}

/// Multiplying by the `1 + X_l z` leaves the lowest coefficient that is not
/// zero as it is, with zeros below it.
pub proof fn lemma_lowest_term(gf: Gf, xs: Seq<u32>, a: Seq<u32>, k: int)
    requires
        0 <= k < a.len(),
        forall|n: int| 0 <= n < k ==> a[n] == 0,
    ensures
        times_locators(gf, xs, a).len() == a.len(),
        forall|n: int| 0 <= n < k ==> times_locators(gf, xs, a)[n] == 0,
        times_locators(gf, xs, a)[k] == a[k],
    decreases xs.len(),
{
    lemma_xor_self(0);
    lemma_xor_self(a[k]);
    if xs.len() > 0 {
        let b = times_recip(gf, a, xs.last());
        assert forall|n: int| 0 <= n < k implies b[n] == 0 by {
            assert(coef(a, n - 1) == 0);
        }
        assert(coef(a, k - 1) == 0);
        lemma_lowest_term(gf, xs.drop_last(), b, k);
    }
}

/// Each factor `1 + X_l z` raises by one the order beyond which the
/// coefficients are zero.
pub proof fn lemma_zero_beyond(gf: Gf, xs: Seq<u32>, a: Seq<u32>, l: int)
    requires
        0 <= l,
        forall|n: int| l < n < a.len() ==> a[n] == 0,
    ensures
        times_locators(gf, xs, a).len() == a.len(),
        forall|n: int| l + xs.len() < n < a.len() ==> times_locators(gf, xs, a)[n] == 0,
    decreases xs.len(),
{
    lemma_xor_self(0);
    if xs.len() > 0 {
        let b = times_recip(gf, a, xs.last());
        assert forall|n: int| l + 1 < n < a.len() implies b[n] == 0 by {
            assert(coef(a, n - 1) == 0);
        }
        lemma_zero_beyond(gf, xs.drop_last(), b, l + 1);
    }
}

/// The value of the product with `1 + x z`, where nothing is cut off.
pub proof fn lemma_times_recip_eval(gf: Gf, c: Seq<u32>, x: u32, y: u32)
    requires
        gf.is_primitive(),
        is_poly(gf, c),
        x < gf.size(),
        y < gf.size(),
        c.len() >= 1,
        c[c.len() - 1] == 0,
    ensures
        eval_poly(gf, times_recip(gf, c, x), y) == gf.mul(eval_poly(gf, c, y), 1 ^ gf.mul(x, y)),
{
    gf.lemma_size();
    let len = c.len();
    let e = eval_poly(gf, c, y);
    let lifted = seq![0u32] + c;
    let shifted = lifted.drop_last();
    let scaled = Seq::new(len, |j: int| gf.mul(shifted[j], x));
    assert forall|j: int| 0 <= j < len implies #[trigger] scaled[j] < gf.size() && scaled[j]
        == gf.mul(x, coef(c, j - 1)) by {
        gf.lemma_mul_closed(shifted[j], x);
    }
    assert(times_recip(gf, c, x) =~= Seq::new(len, |j: int| c[j] ^ scaled[j]));
    lemma_eval_poly_xor(gf, c, scaled, y);
    lemma_eval_poly_scale(gf, shifted, x, y);
    assert(shifted.push(0) =~= lifted);
    lemma_eval_poly_push_zero(gf, shifted, y);
    assert(lifted.skip(1) =~= c);
    lemma_eval_poly_range(gf, c, y);
    gf.lemma_mul_closed(e, y);
    lemma_xor_self(gf.mul(e, y));
    assert(eval_poly(gf, shifted, y) == gf.mul(e, y));
    gf.lemma_mul_closed(x, y);
    gf.lemma_mul_one(e);
    gf.lemma_mul_distributes(1, gf.mul(x, y), e);
    gf.lemma_mul_assoc(e, y, x);
}

/// The value of the product with all `1 + X_l z`, where nothing is cut off.
pub proof fn lemma_times_locators_eval(gf: Gf, xs: Seq<u32>, c: Seq<u32>, l: int, y: u32)
    requires
        gf.is_primitive(),
        is_poly(gf, c),
        is_poly(gf, xs),
        y < gf.size(),
        0 <= l,
        l + xs.len() < c.len(),
        forall|n: int| l < n < c.len() ==> c[n] == 0,
    ensures
        eval_poly(gf, times_locators(gf, xs, c), y) == gf.mul(
            eval_poly(gf, c, y),
            recip_value(gf, xs, y),
        ),
        recip_value(gf, xs, y) < gf.size(),
    decreases xs.len(),
{
    gf.lemma_size();
    lemma_xor_self(0);
    lemma_eval_poly_range(gf, c, y);
    if xs.len() == 0 {
        gf.lemma_mul_one(eval_poly(gf, c, y));
    } else {
        let x = xs.last();
        let ys = xs.drop_last();
        let b = times_recip(gf, c, x);
        lemma_times_recip_poly(gf, c, x);
        lemma_times_recip_eval(gf, c, x, y);
        assert forall|n: int| l + 1 < n < c.len() implies b[n] == 0 by {
            assert(coef(c, n - 1) == 0);
        }
        lemma_times_locators_eval(gf, ys, b, l + 1, y);
        let f = 1 ^ gf.mul(x, y);
        gf.lemma_mul_closed(x, y);
        gf.lemma_times_alpha(1, gf.mul(x, y));
        gf.lemma_mul_closed(recip_value(gf, ys, y), f);
        gf.lemma_mul_assoc(eval_poly(gf, c, y), f, recip_value(gf, ys, y));
    }
}

/// Where the identities with numbers below an even number hold, the
/// identity with that number holds.
pub proof fn lemma_even_identity(gf: Gf, c: Seq<u32>, xs: Seq<u32>, k: int)
    requires
        gf.is_primitive(),
        is_poly(gf, c),
        is_poly(gf, xs),
        0 <= k < c.len(),
        k % 2 == 0,
        forall|n: int| 0 <= n < k ==> newton(gf, c, xs, n) == 0,
    ensures
        newton(gf, c, xs, k) == 0,
{
    let u = newton_seq(gf, c, xs);
    lemma_newton_product(gf, c, xs);
    lemma_lowest_term(gf, xs, u, k);
    assert(times_locators(gf, xs, u)[k] == odd_part(k, times_locators(gf, xs, c)[k]));
}

/// Where the identities with numbers below an odd number `k` hold and the
/// identity with that number fails, the polynomial and the locators
/// together have at least the degree `k`.
pub proof fn lemma_degree_bound(gf: Gf, c: Seq<u32>, xs: Seq<u32>, l: int, k: int)
    requires
        gf.is_primitive(),
        is_poly(gf, c),
        is_poly(gf, xs),
        0 <= k < c.len(),
        k % 2 == 1,
        forall|n: int| 0 <= n < k ==> newton(gf, c, xs, n) == 0,
        newton(gf, c, xs, k) != 0,
        0 <= l,
        forall|n: int| l < n < c.len() ==> c[n] == 0,
    ensures
        k <= l + xs.len(),
{
    let u = newton_seq(gf, c, xs);
    lemma_newton_product(gf, c, xs);
    lemma_lowest_term(gf, xs, u, k);
    lemma_zero_beyond(gf, xs, c, l);
    assert(times_locators(gf, xs, u)[k] == odd_part(k, times_locators(gf, xs, c)[k]));
}

/// Two factors `1 + x z` and `1 + y z` may be multiplied in either order.
pub proof fn lemma_times_recip_commute(gf: Gf, a: Seq<u32>, x: u32, y: u32)
    requires
        gf.is_primitive(),
        is_poly(gf, a),
        x < gf.size(),
        y < gf.size(),
    ensures
        times_recip(gf, times_recip(gf, a, x), y) == times_recip(gf, times_recip(gf, a, y), x),
{
    gf.lemma_size();
    lemma_xor_self(0);
    let left = times_recip(gf, times_recip(gf, a, x), y);
    let right = times_recip(gf, times_recip(gf, a, y), x);
    lemma_times_recip_poly(gf, a, x);
    lemma_times_recip_poly(gf, a, y);
    assert forall|j: int| 0 <= j < a.len() implies left[j] == right[j] by {
        let p = coef(a, j);
        let q = coef(a, j - 1);
        let r = coef(a, j - 2);
        gf.lemma_mul_closed(x, q);
        gf.lemma_mul_closed(y, q);
        gf.lemma_mul_closed(x, r);
        gf.lemma_mul_closed(y, r);
        gf.lemma_mul_distributes(q, gf.mul(x, r), y);
        gf.lemma_mul_distributes(q, gf.mul(y, r), x);
        gf.lemma_mul_swap(x, y, r);
        lemma_xor_swap(p, gf.mul(x, q), gf.mul(y, q), gf.mul(y, gf.mul(x, r)));
    }
    assert(left =~= right);
}

/// A factor that is multiplied in first may as well be multiplied in last.
pub proof fn lemma_times_locators_outer(gf: Gf, xs: Seq<u32>, a: Seq<u32>, x: u32)
    requires
        gf.is_primitive(),
        is_poly(gf, a),
        is_poly(gf, xs),
        x < gf.size(),
    ensures
        times_locators(gf, xs, times_recip(gf, a, x)) == times_recip(
            gf,
            times_locators(gf, xs, a),
            x,
        ),
    decreases xs.len(),
{
    if xs.len() > 0 {
        let y = xs.last();
        lemma_times_recip_commute(gf, a, x, y);
        lemma_times_recip_poly(gf, a, y);
        lemma_times_locators_outer(gf, xs.drop_last(), times_recip(gf, a, y), x);
    }
}

/// Any one of the factors may be multiplied in last.
pub proof fn lemma_times_locators_remove(gf: Gf, xs: Seq<u32>, a: Seq<u32>, l: int)
    requires
        gf.is_primitive(),
        is_poly(gf, a),
        is_poly(gf, xs),
        0 <= l < xs.len(),
    ensures
        times_locators(gf, xs, a) == times_recip(
            gf,
            times_locators(gf, xs.remove(l), a),
            xs[l],
        ),
    decreases xs.len(),
{
    let ys = xs.drop_last();
    let x = xs.last();
    if l == xs.len() - 1 {
        assert(xs.remove(l) =~= ys);
        lemma_times_locators_outer(gf, ys, a, x);
    } else {
        lemma_times_recip_poly(gf, a, x);
        lemma_times_locators_remove(gf, ys, times_recip(gf, a, x), l);
        assert(xs.remove(l).drop_last() =~= ys.remove(l));
        assert(xs.remove(l).last() == x);
    }
}

/// A polynomial in which every coefficient of odd order is `x` times the
/// coefficient before it has the inverse of `x` as a root.
pub proof fn lemma_paired_root(gf: Gf, r: Seq<u32>, x: u32, y: u32)
    requires
        gf.is_primitive(),
        is_poly(gf, r),
        x < gf.size(),
        y < gf.size(),
        gf.mul(x, y) == 1,
        forall|n: int| 0 <= n < r.len() && n % 2 == 1 ==> #[trigger] r[n] == gf.mul(x, r[n - 1]),
        r.len() % 2 == 1 ==> r[r.len() - 1] == 0,
    ensures
        eval_poly(gf, r, y) == 0,
    decreases r.len(),
{
    gf.lemma_size();
    lemma_xor_self(0);
    if r.len() == 1 {
        assert(eval_poly(gf, r.skip(1), y) == 0);
    } else if r.len() >= 2 {
        let rest = r.skip(2);
        assert forall|n: int| 0 <= n < rest.len() && n % 2 == 1 implies #[trigger] rest[n]
            == gf.mul(x, rest[n - 1]) by {
            assert(r[n + 2] == gf.mul(x, r[n + 1]));
        }
        lemma_paired_root(gf, rest, x, y);
        assert(r.skip(1).skip(1) =~= rest);
        assert(r[1] == gf.mul(x, r[0]));
        lemma_xor_self(r[1]);
        assert(eval_poly(gf, r.skip(1), y) == r[1]);
        gf.lemma_mul_assoc(r[0], x, y);
        gf.lemma_mul_closed(x, r[0]);
        gf.lemma_mul_one(r[0]);
        lemma_xor_self(r[0]);
    }
}

/// The product of the `1 + x z` has no root at `y` unless `y` is the
/// inverse of one of the `x`.
pub proof fn lemma_recip_value_nonzero(gf: Gf, xs: Seq<u32>, y: u32)
    requires
        gf.is_primitive(),
        is_poly(gf, xs),
        y < gf.size(),
        forall|i: int| 0 <= i < xs.len() ==> gf.mul(#[trigger] xs[i], y) != 1,
    ensures
        0 < recip_value(gf, xs, y) < gf.size(),
    decreases xs.len(),
{
    gf.lemma_size();
    if xs.len() > 0 {
        let x = xs.last();
        lemma_recip_value_nonzero(gf, xs.drop_last(), y);
        assert(gf.mul(xs[xs.len() - 1], y) != 1);
        gf.lemma_mul_closed(x, y);
        gf.lemma_times_alpha(1, gf.mul(x, y));
        lemma_xor_cancel(1, gf.mul(x, y));
        gf.lemma_mul_closed(recip_value(gf, xs.drop_last(), y), 1 ^ gf.mul(x, y));
    }
}

/// Where all the identities of a polynomial hold whose degree is not above
/// the number of the locators, and the locators differ from one another,
/// the inverse of every locator is a root of the polynomial.
pub proof fn lemma_locator_roots(gf: Gf, c: Seq<u32>, xs: Seq<u32>, deg: int, l: int, y: u32)
    requires
        gf.is_primitive(),
        is_poly(gf, c),
        is_poly(gf, xs),
        xs.no_duplicates(),
        c.len() % 2 == 1,
        0 <= deg <= xs.len(),
        2 * xs.len() < c.len(),
        forall|n: int| deg < n < c.len() ==> c[n] == 0,
        forall|n: int| 0 <= n < c.len() ==> newton(gf, c, xs, n) == 0,
        0 <= l < xs.len(),
        y < gf.size(),
        gf.mul(xs[l], y) == 1,
    ensures
        eval_poly(gf, c, y) == 0,
{
    gf.lemma_size();
    lemma_xor_self(0);
    let x = xs[l];
    let others = xs.remove(l);
    let r = times_locators(gf, others, c);
    let p = times_locators(gf, xs, c);
    lemma_newton_product(gf, c, xs);
    lemma_times_locators_remove(gf, xs, c, l);
    lemma_times_locators_poly(gf, others, c);
    lemma_zero_beyond(gf, others, c, deg);
    let u = newton_seq(gf, c, xs);
    assert forall|n: int| 0 <= n < c.len() implies #[trigger] u[n] == 0 by {}
    lemma_all_zero(gf, xs, u);
    assert forall|n: int| 0 <= n < r.len() && n % 2 == 1 implies #[trigger] r[n] == gf.mul(
        x,
        r[n - 1],
    ) by {
        assert(times_locators(gf, xs, u)[n] == odd_part(n, p[n]));
        assert(p[n] == 0);
        gf.lemma_mul_closed(x, r[n - 1]);
        lemma_xor_cancel(r[n], gf.mul(x, r[n - 1]));
    }
    lemma_paired_root(gf, r, x, y);
    lemma_times_locators_eval(gf, others, c, deg, y);
    assert forall|i: int| 0 <= i < others.len() implies gf.mul(#[trigger] others[i], y) != 1 by {
        let k = if i < l {
            i
        } else {
            i + 1
        };
        assert(others[i] == xs[k]);
        if gf.mul(xs[k], y) == 1 {
            gf.lemma_same_inverse(xs[k], x, y);
        }
    }
    lemma_recip_value_nonzero(gf, others, y);
    lemma_eval_poly_range(gf, c, y);
    gf.lemma_mul_closed(eval_poly(gf, c, y), recip_value(gf, others, y));
}

/// The product of a sequence of zeros with the `1 + x z` is a sequence of
/// zeros.
pub proof fn lemma_all_zero(gf: Gf, xs: Seq<u32>, a: Seq<u32>)
    requires
        forall|n: int| 0 <= n < a.len() ==> a[n] == 0,
    ensures
        times_locators(gf, xs, a).len() == a.len(),
        forall|n: int| 0 <= n < a.len() ==> times_locators(gf, xs, a)[n] == 0,
    decreases xs.len(),
{
    lemma_xor_self(0);
    if xs.len() > 0 {
        let b = times_recip(gf, a, xs.last());
        assert forall|n: int| 0 <= n < a.len() implies b[n] == 0 by {
            assert(coef(a, n - 1) == 0);
        }
        lemma_all_zero(gf, xs.drop_last(), b);
    }
}

/// The sums of the identities of a product with the `1 + y z` are the
/// sums of the identities of the polynomial, multiplied by the `1 + y z`.
pub proof fn lemma_conv_times_locators(gf: Gf, ys: Seq<u32>, c: Seq<u32>, zs: Seq<u32>)
    requires
        gf.is_primitive(),
        is_poly(gf, c),
        is_poly(gf, ys),
        is_poly(gf, zs),
    ensures
        conv_seq(gf, times_locators(gf, ys, c), zs) == times_locators(
            gf,
            ys,
            conv_seq(gf, c, zs),
        ),
    decreases ys.len(),
{
    lemma_xor_self(0);
    if ys.len() > 0 {
        let x = ys.last();
        let ws = ys.drop_last();
        let c2 = times_recip(gf, c, x);
        let u = conv_seq(gf, c, zs);
        lemma_times_recip_poly(gf, c, x);
        assert forall|n: int| 0 <= n < c.len() implies times_recip(gf, u, x)[n] == conv_seq(
            gf,
            c2,
            zs,
        )[n] by {
            lemma_conv_combine(gf, c, c, c2, x, 1, zs, n, c.len() as int);
            if n == 0 {
                lemma_conv_zero(gf, c, zs, -1);
            }
        }
        assert(times_recip(gf, u, x) =~= conv_seq(gf, c2, zs));
        lemma_conv_times_locators(gf, ws, c2, zs);
    }
}

/// Newton's identities: the product of the `1 + y z` meets every identity
/// for the power sums of the `y`.
pub proof fn lemma_product_newton(gf: Gf, ys: Seq<u32>, len: nat)
    requires
        gf.is_primitive(),
        is_poly(gf, ys),
        len >= 1,
    ensures
        forall|n: int|
            0 <= n < len ==> #[trigger] newton(gf, times_locators(gf, ys, one_poly(len)), ys, n)
                == 0,
{
    gf.lemma_size();
    lemma_xor_self(0);
    let one = one_poly(len);
    let p = times_locators(gf, ys, one);
    lemma_times_locators_poly(gf, ys, one);
    lemma_conv_times_locators(gf, ys, one, ys);
    lemma_newton_product(gf, one, ys);
    assert forall|n: int| 0 <= n < len implies newton_seq(gf, one, ys)[n] == conv_seq(
        gf,
        one,
        ys,
    )[n] by {
        lemma_xor_self(conv(gf, one, ys, n));
    }
    assert(newton_seq(gf, one, ys) =~= conv_seq(gf, one, ys));
    assert forall|n: int| 0 <= n < len implies #[trigger] newton(gf, p, ys, n) == 0 by {
        assert(conv_seq(gf, p, ys)[n] == conv(gf, p, ys, n));
        assert(times_locators(gf, ys, newton_seq(gf, one, ys))[n] == odd_part(n, p[n]));
        lemma_xor_self(odd_part(n, p[n]));
    }
}

/// The product of the `1 + x z` has the inverse of every `x` as a root.
pub proof fn lemma_recip_value_zero(gf: Gf, xs: Seq<u32>, y: u32, l: int)
    requires
        gf.is_primitive(),
        is_poly(gf, xs),
        y < gf.size(),
        0 <= l < xs.len(),
        gf.mul(xs[l], y) == 1,
    ensures
        recip_value(gf, xs, y) == 0,
    decreases xs.len(),
{
    gf.lemma_size();
    if l == xs.len() - 1 {
        lemma_xor_self(1);
    } else {
        lemma_recip_value_zero(gf, xs.drop_last(), y, l);
    }
}

/// The sum of an identity for two sets of locators together is the sum of
/// its sums for each of them.
pub proof fn lemma_conv_concat(gf: Gf, c: Seq<u32>, xs: Seq<u32>, ys: Seq<u32>, n: int)
    ensures
        conv(gf, c, xs + ys, n) == conv(gf, c, xs, n) ^ conv(gf, c, ys, n),
    decreases ys.len(),
{
    if ys.len() == 0 {
        assert(xs + ys =~= xs);
        lemma_xor_self(conv(gf, c, xs, n));
    } else {
        lemma_conv_concat(gf, c, xs, ys.drop_last(), n);
        assert((xs + ys).drop_last() =~= xs + ys.drop_last());
        assert((xs + ys).last() == ys.last());
        lemma_xor_assoc(
            conv(gf, c, xs, n),
            conv(gf, c, ys.drop_last(), n),
            geo(gf, c, ys.last(), n),
        );
    }
}

} // verus!
