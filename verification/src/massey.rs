//! Why the iteration for the error-locator polynomial is right: on the
//! syndromes of errors that differ from one another and are not more than
//! the capability, it ends with a polynomial whose degree is the number of
//! the errors and whose roots are the inverses of their locators.

use vstd::prelude::*;
use crate::bits::lemma_xor_assoc;
use crate::bits::lemma_xor_cancel;
use crate::bits::lemma_xor_self;
use crate::bits::lemma_xor_swap;
use crate::field::Gf;
use crate::locator::correct_step;
use crate::locator::corrected;
use crate::locator::discrepancy;
use crate::locator::locator;
use crate::locator::locator_degree;
use crate::locator::run;
use crate::locator::start;
use crate::locator::step;
use crate::locator::Iteration;
use crate::poly::coef;
use crate::poly::eval_poly;
use crate::poly::gexp;
use crate::poly::is_poly;
use crate::poly::lemma_eval_poly_take;
use crate::poly::lemma_gexp_range;
use crate::product::lemma_fewer_roots;
use crate::series::conv;
use crate::series::geo;
use crate::series::lemma_conv_combine;
use crate::series::lemma_conv_range;
use crate::series::lemma_conv_zero;
use crate::series::lemma_degree_bound;
use crate::series::lemma_even_identity;
use crate::series::lemma_geo_range;
use crate::series::lemma_locator_roots;
use crate::series::lemma_newton_combine;
use crate::series::newton;

verus! {

/// The sum of the `n`-th powers of the locators `xs`.
pub open spec fn power_sum(gf: Gf, xs: Seq<u32>, n: nat) -> u32
    decreases xs.len(),
{
    if xs.len() == 0 {
        0
    } else {
        power_sum(gf, xs.drop_last(), n) ^ gexp(gf, xs.last(), n)
    }
}

/// The first `count` power sums of the locators `xs`: what the syndromes
/// of a codeword with errors at these locators are.
pub open spec fn power_sums(gf: Gf, xs: Seq<u32>, count: nat) -> Seq<u32> {
    Seq::new(count, |j: int| power_sum(gf, xs, (j + 1) as nat))
}

/// The coefficients of `c` above the order `l` are zero.
pub open spec fn zero_beyond(c: Seq<u32>, l: int) -> bool {
    forall|n: int| l < n < c.len() ==> #[trigger] c[n] == 0
}

/// The identities of `c` with the numbers up to `k` hold.
pub open spec fn holds_upto(gf: Gf, c: Seq<u32>, xs: Seq<u32>, k: int) -> bool {
    forall|n: int| 0 <= n <= k ==> #[trigger] newton(gf, c, xs, n) == 0
}

/// The polynomials of the state have their lengths, constant terms and
/// degrees in order.
pub open spec fn shape_ok(gf: Gf, t: nat, s: Iteration) -> bool {
    &&& s.elp.len() == 2 * t + 1
    &&& s.prev.len() == 2 * t + 1
    &&& is_poly(gf, s.elp)
    &&& is_poly(gf, s.prev)
    &&& s.elp[0] == 1
    &&& s.prev[0] == 1
    &&& zero_beyond(s.elp, s.deg as int)
    &&& zero_beyond(s.prev, s.prev_deg as int)
    &&& 0 < s.prev_d < gf.size()
}

/// What the state remembers of the last step that raised the degree: the
/// polynomial before it met the identities up to that step and missed the
/// next one by the discrepancy kept, and the two degrees add up to the
/// number of that identity.
pub open spec fn history_ok(gf: Gf, xs: Seq<u32>, s: Iteration, bound: int) -> bool {
    if s.prev_at == -1 {
        s.deg == 0 && s.prev_deg == 0 && s.prev_d == 1
    } else {
        &&& 0 <= s.prev_at <= bound
        &&& s.prev_at % 2 == 0
        &&& holds_upto(gf, s.prev, xs, s.prev_at)
        &&& newton(gf, s.prev, xs, s.prev_at + 1) == s.prev_d
        &&& s.deg + s.prev_deg == s.prev_at + 1
    }
}

/// The locator so far meets the identities up to `k`, with a degree that
/// is not above `k`.
pub open spec fn settled(gf: Gf, xs: Seq<u32>, t: nat, s: Iteration, k: int) -> bool {
    &&& shape_ok(gf, t, s)
    &&& s.deg <= k
    &&& holds_upto(gf, s.elp, xs, k)
}

/// What holds of the state before step `i`.
pub open spec fn before_step(gf: Gf, xs: Seq<u32>, t: nat, s: Iteration, i: nat) -> bool {
    &&& settled(gf, xs, t, s, 2 * i as int)
    &&& history_ok(gf, xs, s, 2 * i as int - 2)
    &&& s.d < gf.size()
    &&& i < t ==> s.d == newton(gf, s.elp, xs, 2 * i as int + 1)
}

pub proof fn lemma_power_sum_range(gf: Gf, xs: Seq<u32>, n: nat)
    requires
        gf.is_primitive(),
        is_poly(gf, xs),
    ensures
        power_sum(gf, xs, n) < gf.size(),
    decreases xs.len(),
{
    gf.lemma_size();
    if xs.len() > 0 {
        lemma_power_sum_range(gf, xs.drop_last(), n);
        lemma_gexp_range(gf, xs.last(), n);
        gf.lemma_times_alpha(power_sum(gf, xs.drop_last(), n), gexp(gf, xs.last(), n));
    }
}

pub proof fn lemma_discrepancy_range(gf: Gf, syn: Seq<u32>, c: Seq<u32>, at: int, upto: nat)
    requires
        gf.is_primitive(),
        is_poly(gf, syn),
        is_poly(gf, c),
        upto <= at < syn.len(),
        upto < c.len(),
    ensures
        discrepancy(gf, syn, c, at, upto) < gf.size(),
    decreases upto,
{
    gf.lemma_size();
    if upto > 0 {
        lemma_discrepancy_range(gf, syn, c, at, (upto - 1) as nat);
        gf.lemma_mul_closed(c[upto as int], syn[at - upto]);
        gf.lemma_times_alpha(
            discrepancy(gf, syn, c, at, (upto - 1) as nat),
            gf.mul(c[upto as int], syn[at - upto]),
        );
    }
}

/// Without syndromes there is no discrepancy.
pub proof fn lemma_discrepancy_zero(gf: Gf, syn: Seq<u32>, c: Seq<u32>, at: int, upto: nat)
    requires
        upto <= at < syn.len(),
        forall|j: int| 0 <= j <= at ==> #[trigger] syn[j] == 0,
    ensures
        discrepancy(gf, syn, c, at, upto) == 0,
    decreases upto,
{
    lemma_xor_self(0);
    if upto > 0 {
        lemma_discrepancy_zero(gf, syn, c, at, (upto - 1) as nat);
        assert(syn[at - upto] == 0);
    }
}

/// Coefficients that are zero add nothing to the discrepancy.
pub proof fn lemma_discrepancy_extend(
    gf: Gf,
    syn: Seq<u32>,
    c: Seq<u32>,
    at: int,
    lo: nat,
    hi: nat,
)
    requires
        lo <= hi <= at,
        hi < c.len(),
        forall|j: int| lo < j <= hi ==> #[trigger] c[j] == 0,
    ensures
        discrepancy(gf, syn, c, at, hi) == discrepancy(gf, syn, c, at, lo),
    decreases hi,
{
    if lo < hi {
        lemma_discrepancy_extend(gf, syn, c, at, lo, (hi - 1) as nat);
        assert(c[hi as int] == 0);
        lemma_xor_self(discrepancy(gf, syn, c, at, (hi - 1) as nat));
    }
}

/// The discrepancy of a sum of two sequences of syndromes is the sum of
/// the discrepancies.
pub proof fn lemma_discrepancy_additive(
    gf: Gf,
    s1: Seq<u32>,
    s2: Seq<u32>,
    s3: Seq<u32>,
    c: Seq<u32>,
    at: int,
    upto: nat,
)
    requires
        gf.is_primitive(),
        is_poly(gf, s1),
        is_poly(gf, s2),
        is_poly(gf, c),
        upto <= at,
        at < s1.len(),
        at < s2.len(),
        at < s3.len(),
        upto < c.len(),
        forall|j: int| 0 <= j <= at ==> #[trigger] s3[j] == s1[j] ^ s2[j],
    ensures
        discrepancy(gf, s3, c, at, upto) == discrepancy(gf, s1, c, at, upto) ^ discrepancy(
            gf,
            s2,
            c,
            at,
            upto,
        ),
    decreases upto,
{
    gf.lemma_size();
    if upto > 0 {
        let h = (upto - 1) as nat;
        lemma_discrepancy_additive(gf, s1, s2, s3, c, at, h);
        let cu = c[upto as int];
        let a = s1[at - upto];
        let b = s2[at - upto];
        assert(s3[at - upto] == a ^ b);
        gf.lemma_mul_distributes(a, b, cu);
        lemma_xor_swap(
            discrepancy(gf, s1, c, at, h),
            discrepancy(gf, s2, c, at, h),
            gf.mul(cu, a),
            gf.mul(cu, b),
        );
    }
}

/// The discrepancy on the powers of a single locator.
pub proof fn lemma_discrepancy_single(
    gf: Gf,
    syn: Seq<u32>,
    c: Seq<u32>,
    x: u32,
    at: int,
    upto: nat,
)
    requires
        gf.is_primitive(),
        is_poly(gf, c),
        x < gf.size(),
        upto < c.len(),
        c[0] == 1,
        upto <= at < syn.len(),
        forall|j: int| 0 <= j <= at ==> #[trigger] syn[j] == gexp(gf, x, (j + 1) as nat),
    ensures
        discrepancy(gf, syn, c, at, upto) == gf.mul(
            gexp(gf, x, (at - upto) as nat),
            geo(gf, c, x, upto as int + 1),
        ),
    decreases upto,
{
    gf.lemma_size();
    let g = gexp(gf, x, (at - upto) as nat);
    lemma_gexp_range(gf, x, (at - upto) as nat);
    if upto == 0 {
        lemma_xor_self(1);
        assert(geo(gf, c, x, 0) == 0);
        gf.lemma_mul_one(x);
        assert(geo(gf, c, x, 1) == x);
        assert(syn[at] == gexp(gf, x, (at + 1) as nat));
    } else {
        lemma_discrepancy_single(gf, syn, c, x, at, (upto - 1) as nat);
        let g1 = gexp(gf, x, (at - upto + 1) as nat);
        let h = geo(gf, c, x, upto as int);
        let cu = c[upto as int];
        assert(syn[at - upto] == g1);
        assert(g1 == gf.mul(g, x));
        lemma_geo_range(gf, c, x, upto as int);
        lemma_gexp_range(gf, x, (at - upto + 1) as nat);
        gf.lemma_mul_closed(cu, g1);
        gf.lemma_mul_distributes(h, cu, g1);
        gf.lemma_times_alpha(h, cu);
        gf.lemma_mul_assoc(g, x, h ^ cu);
        assert(coef(c, upto as int) == cu);
    }
}

/// On the power sums of the locators, the discrepancy is the sum that the
/// identity holds.
pub proof fn lemma_discrepancy_conv(gf: Gf, xs: Seq<u32>, c: Seq<u32>, at: int, count: nat)
    requires
        gf.is_primitive(),
        is_poly(gf, xs),
        is_poly(gf, c),
        0 <= at < count,
        at < c.len(),
        c[0] == 1,
    ensures
        discrepancy(gf, power_sums(gf, xs, count), c, at, at as nat) == conv(gf, c, xs, at + 1),
    decreases xs.len(),
{
    gf.lemma_size();
    let s3 = power_sums(gf, xs, count);
    if xs.len() == 0 {
        lemma_discrepancy_zero(gf, s3, c, at, at as nat);
    } else {
        let ys = xs.drop_last();
        let x = xs.last();
        let s1 = power_sums(gf, ys, count);
        let s2 = Seq::new(count, |j: int| gexp(gf, x, (j + 1) as nat));
        assert forall|j: int| 0 <= j < count implies #[trigger] s1[j] < gf.size() by {
            lemma_power_sum_range(gf, ys, (j + 1) as nat);
        }
        assert forall|j: int| 0 <= j < count implies #[trigger] s2[j] < gf.size() by {
            lemma_gexp_range(gf, x, (j + 1) as nat);
        }
        lemma_discrepancy_conv(gf, ys, c, at, count);
        lemma_discrepancy_additive(gf, s1, s2, s3, c, at, at as nat);
        lemma_discrepancy_single(gf, s2, c, x, at, at as nat);
        lemma_geo_range(gf, c, x, at + 1);
        gf.lemma_mul_one(geo(gf, c, x, at + 1));
    }
}

/// On the power sums of the locators, the discrepancy that a step computes
/// is the value of the next identity.
pub proof fn lemma_discrepancy_newton(
    gf: Gf,
    xs: Seq<u32>,
    c: Seq<u32>,
    at: int,
    deg: nat,
    count: nat,
)
    requires
        gf.is_primitive(),
        is_poly(gf, xs),
        is_poly(gf, c),
        deg <= at < count,
        at + 1 < c.len(),
        c[0] == 1,
        zero_beyond(c, deg as int),
    ensures
        discrepancy(gf, power_sums(gf, xs, count), c, at, deg) == newton(gf, c, xs, at + 1),
{
    let syn = power_sums(gf, xs, count);
    lemma_discrepancy_extend(gf, syn, c, at, deg, at as nat);
    lemma_discrepancy_conv(gf, xs, c, at, count);
    lemma_conv_range(gf, c, xs, at + 1);
    assert(c[at + 1] == 0);
    lemma_xor_self(conv(gf, c, xs, at + 1));
}

/// The corrected locator is the locator plus a multiple of the earlier
/// polynomial, shifted up.
pub proof fn lemma_corrected_coefs(gf: Gf, t: nat, s: Iteration, i: nat)
    requires
        gf.is_primitive(),
        shape_ok(gf, t, s),
        s.d < gf.size(),
        2 * i - s.prev_at >= 1,
        s.prev_deg + 2 * i - s.prev_at < 2 * t + 1,
    ensures
        is_poly(gf, corrected(gf, s, i)),
        corrected(gf, s, i).len() == 2 * t + 1,
        gf.div(s.d, s.prev_d) < gf.size(),
        forall|j: int|
            coef(corrected(gf, s, i), j) == coef(s.elp, j) ^ gf.mul(
                gf.div(s.d, s.prev_d),
                coef(s.prev, j - (2 * i - s.prev_at)),
            ),
{
    gf.lemma_size();
    lemma_xor_self(0);
    let k = 2 * i - s.prev_at;
    let scale = gf.div(s.d, s.prev_d);
    let c3 = corrected(gf, s, i);
    gf.lemma_div_mul(s.d, s.prev_d);
    assert forall|j: int| 0 <= j < c3.len() implies #[trigger] c3[j] < gf.size() by {
        gf.lemma_mul_closed(scale, coef(s.prev, j - k));
        gf.lemma_times_alpha(s.elp[j], gf.mul(scale, coef(s.prev, j - k)));
    }
    assert forall|j: int|
        coef(c3, j) == coef(s.elp, j) ^ gf.mul(scale, coef(s.prev, j - k)) by {
        lemma_xor_self(coef(s.elp, j));
        if 0 <= j < c3.len() {
            if !(k <= j <= s.prev_deg + k) {
                if j - k >= 0 {
                    assert(s.prev[j - k] == 0);
                }
            }
        } else if 0 <= j - k < s.prev.len() {
            assert(s.prev[j - k] == 0);
        }
    }
}

/// The first correction: the locator was one, and gets the term that
/// removes the discrepancy.
pub proof fn lemma_first_correction(gf: Gf, xs: Seq<u32>, t: nat, s: Iteration, i: nat)
    requires
        gf.is_primitive(),
        is_poly(gf, xs),
        i < t,
        before_step(gf, xs, t, s, i),
        s.prev_at == -1,
        s.d != 0,
    ensures
        settled(gf, xs, t, correct_step(gf, s, i), 2 * i as int + 1),
        history_ok(gf, xs, correct_step(gf, s, i), 2 * i as int),
        correct_step(gf, s, i).deg <= s.deg || correct_step(gf, s, i).deg <= xs.len(),
{
    gf.lemma_size();
    lemma_xor_self(0);
    let k: int = 2 * i as int + 1;
    let d = s.d;
    let u = correct_step(gf, s, i);
    let c3 = corrected(gf, s, i);
    lemma_corrected_coefs(gf, t, s, i);
    gf.lemma_div_one(d);
    gf.lemma_mul_one(d);
    lemma_xor_self(d);
    lemma_conv_range(gf, s.elp, xs, k);
    assert(coef(s.elp, k) == 0) by {
        assert(s.elp[k] == 0);
    }
    assert(newton(gf, s.elp, xs, k) == conv(gf, s.elp, xs, k)) by {
        lemma_xor_self(conv(gf, s.elp, xs, k));
    }
    lemma_degree_bound(gf, s.elp, xs, 0, k);
    assert(u.elp == c3);
    assert(u.deg == k);
    assert forall|n: int| 0 <= n <= k implies #[trigger] newton(gf, c3, xs, n) == 0 by {
        lemma_conv_combine(gf, s.elp, s.prev, c3, d, k, xs, n, n + 1);
        lemma_conv_zero(gf, s.prev, xs, n - k);
        lemma_conv_range(gf, s.elp, xs, n);
        lemma_xor_self(conv(gf, s.elp, xs, n));
        assert(conv(gf, c3, xs, n) == conv(gf, s.elp, xs, n));
        assert(coef(c3, n) == coef(s.elp, n) ^ gf.mul(d, coef(s.prev, n - k)));
        if n < k {
            lemma_xor_self(coef(s.elp, n));
            assert(coef(c3, n) == coef(s.elp, n));
            assert(newton(gf, s.elp, xs, n) == 0);
        } else {
            assert(coef(c3, n) == d);
        }
    }
    assert(c3[0] == 1) by {
        assert(coef(c3, 0) == coef(s.elp, 0) ^ gf.mul(d, coef(s.prev, 0 - k)));
        lemma_xor_self(1);
    }
    assert forall|n: int| k < n < c3.len() implies #[trigger] c3[n] == 0 by {
        assert(coef(c3, n) == coef(s.elp, n) ^ gf.mul(d, coef(s.prev, n - k)));
        assert(s.elp[n] == 0);
        assert(s.prev[n - k] == 0);
    }
}

/// A later correction: a multiple of the polynomial kept from the last
/// rise of the degree, shifted up by an even number of places, removes the
/// discrepancy and leaves the earlier identities as they are.
pub proof fn lemma_later_correction(gf: Gf, xs: Seq<u32>, t: nat, s: Iteration, i: nat)
    requires
        gf.is_primitive(),
        is_poly(gf, xs),
        i < t,
        before_step(gf, xs, t, s, i),
        s.prev_at != -1,
        s.d != 0,
    ensures
        settled(gf, xs, t, correct_step(gf, s, i), 2 * i as int + 1),
        history_ok(gf, xs, correct_step(gf, s, i), 2 * i as int),
        correct_step(gf, s, i).deg <= s.deg || correct_step(gf, s, i).deg <= xs.len(),
{
    gf.lemma_size();
    lemma_xor_self(0);
    let k = 2 * i - s.prev_at;
    let m: int = 2 * i as int + 1;
    let d = s.d;
    let scale = gf.div(d, s.prev_d);
    let u = correct_step(gf, s, i);
    let c3 = corrected(gf, s, i);
    lemma_degree_bound(gf, s.elp, xs, s.deg as int, m);
    lemma_corrected_coefs(gf, t, s, i);
    gf.lemma_div_mul(d, s.prev_d);
    assert(u.elp == c3);
    assert forall|n: int| 0 <= n <= m implies #[trigger] newton(gf, c3, xs, n) == 0 by {
        lemma_newton_combine(gf, s.elp, s.prev, c3, scale, k, xs, n);
        if n < m {
            assert(newton(gf, s.elp, xs, n) == 0);
            if n - k >= 0 {
                assert(newton(gf, s.prev, xs, n - k) == 0);
            } else {
                lemma_conv_zero(gf, s.prev, xs, n - k);
            }
        } else {
            assert(n - k == s.prev_at + 1);
            gf.lemma_mul_closed(scale, s.prev_d);
            lemma_xor_self(d);
        }
    }
    assert(c3[0] == 1) by {
        assert(coef(c3, 0) == coef(s.elp, 0) ^ gf.mul(scale, coef(s.prev, 0 - k)));
        lemma_xor_self(1);
    }
    assert forall|n: int| u.deg < n < c3.len() implies #[trigger] c3[n] == 0 by {
        assert(coef(c3, n) == coef(s.elp, n) ^ gf.mul(scale, coef(s.prev, n - k)));
        assert(s.elp[n] == 0);
        if n - k >= 0 {
            assert(s.prev[n - k] == 0);
        }
    }
}

/// A step keeps what holds of the state, and raises the degree at most to
/// the number of the locators.
pub proof fn lemma_step_keeps(gf: Gf, xs: Seq<u32>, t: nat, s: Iteration, i: nat)
    requires
        gf.is_primitive(),
        is_poly(gf, xs),
        i < t,
        before_step(gf, xs, t, s, i),
    ensures
        before_step(gf, xs, t, step(gf, power_sums(gf, xs, 2 * t), t, s, i), i + 1),
        step(gf, power_sums(gf, xs, 2 * t), t, s, i).deg <= s.deg || step(
            gf,
            power_sums(gf, xs, 2 * t),
            t,
            s,
            i,
        ).deg <= xs.len(),
{
    gf.lemma_size();
    let syn = power_sums(gf, xs, 2 * t);
    let u = if s.d != 0 {
        correct_step(gf, s, i)
    } else {
        s
    };
    if s.d != 0 {
        if s.prev_at == -1 {
            lemma_first_correction(gf, xs, t, s, i);
        } else {
            lemma_later_correction(gf, xs, t, s, i);
        }
    }
    assert(settled(gf, xs, t, u, 2 * i as int + 1));
    assert(history_ok(gf, xs, u, 2 * i as int));
    lemma_even_identity(gf, u.elp, xs, 2 * i as int + 2);
    assert(holds_upto(gf, u.elp, xs, 2 * i as int + 2));
    assert(u.d == s.d);
    let v = step(gf, syn, t, s, i);
    if i + 1 < t {
        assert forall|j: int| 0 <= j < syn.len() implies #[trigger] syn[j] < gf.size() by {
            lemma_power_sum_range(gf, xs, (j + 1) as nat);
        }
        lemma_discrepancy_newton(gf, xs, u.elp, 2 * i as int + 2, u.deg, 2 * t);
        lemma_discrepancy_range(gf, syn, u.elp, 2 * i as int + 2, u.deg);
        assert(v.d == newton(gf, v.elp, xs, 2 * (i + 1) as int + 1));
    }
}

/// What holds of the state holds before every step, as long as the
/// iteration has not stopped; and with no more locators than the
/// capability it does not stop.
pub proof fn lemma_run_keeps(gf: Gf, xs: Seq<u32>, t: nat, i: nat)
    requires
        gf.is_primitive(),
        is_poly(gf, xs),
        1 <= t,
        i <= t,
    ensures
        run(gf, power_sums(gf, xs, 2 * t), t, i).deg <= t ==> before_step(
            gf,
            xs,
            t,
            run(gf, power_sums(gf, xs, 2 * t), t, i),
            i,
        ),
        xs.len() <= t ==> run(gf, power_sums(gf, xs, 2 * t), t, i).deg <= xs.len(),
    decreases i,
{
    gf.lemma_size();
    let syn = power_sums(gf, xs, 2 * t);
    if i == 0 {
        let s = start(syn, t);
        lemma_xor_self(0);
        lemma_power_sum_range(gf, xs, 1);
        assert forall|n: int| 0 <= n <= 0 implies #[trigger] newton(gf, s.elp, xs, n) == 0 by {
            lemma_conv_zero(gf, s.elp, xs, 0);
        }
        lemma_discrepancy_newton(gf, xs, s.elp, 0, 0, 2 * t);
    } else {
        let h = (i - 1) as nat;
        lemma_run_keeps(gf, xs, t, h);
        if run(gf, syn, t, h).deg <= t {
            lemma_step_keeps(gf, xs, t, run(gf, syn, t, h), h);
        }
    }
}

/// Without syndromes the iteration stays where it began.
pub proof fn lemma_zero_run(gf: Gf, syn: Seq<u32>, t: nat, i: nat)
    requires
        1 <= t,
        syn.len() == 2 * t,
        forall|j: int| 0 <= j < syn.len() ==> #[trigger] syn[j] == 0,
        i <= t,
    ensures
        run(gf, syn, t, i) == start(syn, t),
    decreases i,
{
    if i > 0 {
        let h = (i - 1) as nat;
        lemma_zero_run(gf, syn, t, h);
        let s = start(syn, t);
        assert(s.d == 0);
        if h + 1 < t {
            assert(syn[2 * h as int + 2] == 0);
            assert(discrepancy(gf, syn, s.elp, 2 * h as int + 2, 0) == 0);
        }
    }
}

/// Where the syndromes before the one at `at` are zero, the discrepancy
/// there is the syndrome itself.
pub proof fn lemma_discrepancy_prefix(gf: Gf, syn: Seq<u32>, c: Seq<u32>, at: int, upto: nat)
    requires
        upto <= at < syn.len(),
        forall|j: int| 0 <= j < at ==> #[trigger] syn[j] == 0,
    ensures
        discrepancy(gf, syn, c, at, upto) == syn[at],
    decreases upto,
{
    if upto > 0 {
        lemma_discrepancy_prefix(gf, syn, c, at, (upto - 1) as nat);
        assert(syn[at - upto] == 0);
        lemma_xor_self(syn[at]);
    }
}

/// Where the sums of the identities of a polynomial with constant term one
/// are zero, the power sums are zero.
pub proof fn lemma_power_sums_vanish(gf: Gf, zs: Seq<u32>, c: Seq<u32>, count: nat, upto: nat)
    requires
        gf.is_primitive(),
        is_poly(gf, zs),
        is_poly(gf, c),
        count < c.len(),
        c[0] == 1,
        upto <= count,
        forall|n: int| 1 <= n <= count ==> #[trigger] conv(gf, c, zs, n) == 0,
    ensures
        forall|j: int| 0 <= j < upto ==> #[trigger] power_sums(gf, zs, count)[j] == 0,
    decreases upto,
{
    if upto > 0 {
        let at = (upto - 1) as int;
        let syn = power_sums(gf, zs, count);
        lemma_power_sums_vanish(gf, zs, c, count, (upto - 1) as nat);
        lemma_discrepancy_conv(gf, zs, c, at, count);
        lemma_discrepancy_prefix(gf, syn, c, at, at as nat);
        assert(conv(gf, c, zs, at + 1) == 0);
    }
}

/// The power sum of two sets of locators together is the sum of their
/// power sums.
pub proof fn lemma_power_sum_concat(gf: Gf, xs: Seq<u32>, ys: Seq<u32>, n: nat)
    ensures
        power_sum(gf, xs + ys, n) == power_sum(gf, xs, n) ^ power_sum(gf, ys, n),
    decreases ys.len(),
{
    if ys.len() == 0 {
        assert(xs + ys =~= xs);
        lemma_xor_self(power_sum(gf, xs, n));
    } else {
        lemma_power_sum_concat(gf, xs, ys.drop_last(), n);
        assert((xs + ys).drop_last() =~= xs + ys.drop_last());
        assert((xs + ys).last() == ys.last());
        lemma_xor_assoc(
            power_sum(gf, xs, n),
            power_sum(gf, ys.drop_last(), n),
            gexp(gf, ys.last(), n),
        );
    }
}

/// The inverses of the locators.
pub open spec fn inverses(gf: Gf, xs: Seq<u32>) -> Seq<u32> {
    Seq::new(xs.len(), |l: int| gf.div(1, xs[l]))
}

/// `y` is the inverse of one of the locators.
pub open spec fn inverts_one(gf: Gf, xs: Seq<u32>, y: u32) -> bool {
    exists|l: int| 0 <= l < xs.len() && gf.mul(#[trigger] xs[l], y) == 1
}

/// On the syndromes of errors that differ from one another and are not
/// more than the capability, the iteration ends with a polynomial whose
/// degree is the number of the errors, and the roots of that polynomial
/// are the inverses of the locators of the errors.
pub proof fn lemma_locator_found(gf: Gf, xs: Seq<u32>, t: nat)
    requires
        gf.is_primitive(),
        is_poly(gf, xs),
        xs.no_duplicates(),
        forall|l: int| 0 <= l < xs.len() ==> #[trigger] xs[l] != 0,
        xs.len() <= t,
        1 <= t,
    ensures
        locator_degree(gf, power_sums(gf, xs, 2 * t), t) == xs.len(),
        forall|y: u32|
            y < gf.size() ==> (#[trigger] eval_poly(
                gf,
                locator(gf, power_sums(gf, xs, 2 * t), t).take(xs.len() as int + 1),
                y,
            ) == 0 <==> inverts_one(gf, xs, y)),
{
    gf.lemma_size();
    let syn = power_sums(gf, xs, 2 * t);
    let s = run(gf, syn, t, t);
    let c = s.elp;
    let deg = s.deg;
    let head = c.take(deg as int + 1);
    let ys = inverses(gf, xs);
    lemma_run_keeps(gf, xs, t, t);
    assert(head[0] == 1);
    assert forall|l: int| 0 <= l < ys.len() implies #[trigger] ys[l] < gf.size() && gf.mul(
        xs[l],
        ys[l],
    ) == 1 by {
        gf.lemma_div_mul(1, xs[l]);
        gf.lemma_mul_closed(xs[l], ys[l]);
    }
    assert forall|y: u32| y < gf.size() implies #[trigger] eval_poly(gf, head, y) == eval_poly(
        gf,
        c,
        y,
    ) by {
        lemma_eval_poly_take(gf, c, deg as int + 1, y);
    }
    assert forall|l: int| 0 <= l < ys.len() implies eval_poly(gf, head, #[trigger] ys[l])
        == 0 by {
        lemma_locator_roots(gf, c, xs, deg as int, l, ys[l]);
    }
    assert forall|a: int, b: int| 0 <= a < ys.len() && 0 <= b < ys.len() && a != b implies ys[a]
        != ys[b] by {
        if ys[a] == ys[b] {
            gf.lemma_same_inverse(xs[a], xs[b], ys[a]);
        }
    }
    lemma_fewer_roots(gf, head, ys);
    assert(deg == xs.len());
    assert forall|y: u32| y < gf.size() implies (#[trigger] eval_poly(gf, head, y) == 0
        <==> inverts_one(gf, xs, y)) by {
        if inverts_one(gf, xs, y) {
            let l = choose|l: int| 0 <= l < xs.len() && gf.mul(#[trigger] xs[l], y) == 1;
            lemma_locator_roots(gf, c, xs, deg as int, l, y);
        } else if eval_poly(gf, head, y) == 0 {
            let more = ys.push(y);
            assert forall|a: int, b: int|
                0 <= a < more.len() && 0 <= b < more.len() && a != b implies more[a]
                != more[b] by {
                if a < ys.len() && b < ys.len() {
                    assert(ys[a] != ys[b]);
                } else {
                    let l = if a < ys.len() {
                        a
                    } else {
                        b
                    };
                    assert(gf.mul(xs[l], ys[l]) == 1);
                    assert(gf.mul(xs[l], y) != 1);
                }
            }
            assert forall|a: int| 0 <= a < more.len() implies eval_poly(
                gf,
                head,
                #[trigger] more[a],
            ) == 0 by {
                if a < ys.len() {
                    assert(eval_poly(gf, head, ys[a]) == 0);
                }
            }
            lemma_fewer_roots(gf, head, more);
            assert(false);
        }
    }
}

} // verus!
