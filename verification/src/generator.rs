//! The generator polynomial of the code: the product of the linear factors
//! `x + alpha^e` over the conjugates of `alpha, alpha^3, .., alpha^(2t-1)`.
//! Its coefficients lie in GF(2), and `alpha, alpha^2, .., alpha^(2t)` are
//! among its roots.

use vstd::prelude::*;
use vstd::arithmetic::div_mod::*;
use vstd::arithmetic::power2::*;
use vstd::bits::lemma_u32_shl_is_mul;
use vstd::set_lib::*;
use crate::algebra::poly_times_linear;
use crate::bits::bit;
use crate::field::Gf;
use crate::field::GaloisField;
use crate::poly::eval_bits;
use crate::poly::eval_poly;
use crate::poly::is_poly;
use crate::poly::lemma_eval_bits_squared;
use crate::poly::lemma_eval_reversed;
use crate::product::lemma_fewer_roots;
use crate::product::lemma_product_permuted;
use crate::product::lemma_product_poly;
use crate::product::lemma_product_squared;
use crate::product::lemma_product_vanishes;
use crate::product::linear_product;
use crate::product::squared_coefs;

verus! {

/// The odd number `2i + 1` times `2^s`.
pub open spec fn odd_multiple(i: nat, s: nat) -> nat {
    (2 * i + 1) * pow2(s)
}

/// The exponent of the `j`-th conjugate of `alpha^(2i+1)`.
pub open spec fn conjugate(gf: Gf, i: nat, j: nat) -> nat {
    odd_multiple(i, j) % gf.order()
}

/// `alpha^e` is a root of the generator polynomial for capability `t`.
pub open spec fn is_root_exp(gf: Gf, t: nat, e: nat) -> bool {
    exists|i: nat, j: nat| i < t && j < gf.m && e == #[trigger] conjugate(gf, i, j)
}

/// The conjugates met before the `j`-th conjugate of `alpha^(2i+1)`.
pub open spec fn met_before(gf: Gf, i: nat, j: nat, e: nat) -> bool {
    exists|a: nat, b: nat|
        ((a < i && b < gf.m) || (a == i && b < j)) && e == #[trigger] conjugate(gf, a, b)
}

/// `v` is `alpha^d` for a root exponent `d` below `e`.
pub open spec fn is_root_value(gf: Gf, t: nat, e: nat, v: u32) -> bool {
    exists|d: nat| d < e && #[trigger] is_root_exp(gf, t, d) && v == gf.pow(d)
}

/// The roots `alpha^d` of the generator polynomial with `d` below `e`, by
/// ascending exponent.
pub open spec fn root_values(gf: Gf, t: nat, e: nat) -> Seq<u32>
    decreases e,
{
    if e == 0 {
        Seq::empty()
    } else {
        let before = root_values(gf, t, (e - 1) as nat);
        if is_root_exp(gf, t, (e - 1) as nat) {
            before.push(gf.pow((e - 1) as nat))
        } else {
            before
        }
    }
}

/// The generator polynomial over the field: the coefficient of `x^j` is at
/// index `j`.
pub open spec fn generator_over_field(gf: Gf, t: nat) -> Seq<u32> {
    linear_product(gf, root_values(gf, t, gf.order()))
}

/// The generator polynomial as bits, highest-order coefficient first.
pub open spec fn generator(gf: Gf, t: nat) -> Seq<u8> {
    let g = generator_over_field(gf, t);
    Seq::new(
        g.len(),
        |i: int|
            if g[g.len() - 1 - i] != 0 {
                1u8
            } else {
                0u8
            },
    )
}

/// The polynomial `g` has `alpha, alpha^2, .., alpha^(2t)` among its roots.
pub open spec fn vanishes_at_roots(gf: Gf, g: Seq<u8>, t: nat) -> bool {
    forall|j: nat| 1 <= j <= 2 * t ==> eval_bits(gf, g, #[trigger] gf.pow(j)) == 0
}

/// The field has `2^m` elements.
pub proof fn lemma_size_is_pow2(gf: Gf)
    requires
        gf.has_degree(),
    ensures
        gf.size() == pow2(gf.m as nat),
        gf.order() + 1 == pow2(gf.m as nat),
{
    gf.lemma_size();
    lemma2_to64();
    if gf.m < 15 {
        lemma_pow2_strictly_increases(gf.m as nat, 15);
    }
    lemma_u32_shl_is_mul(1, gf.m);
}

/// The roots are listed once each, and every root exponent below `e` is
/// listed.
pub proof fn lemma_root_values(gf: Gf, t: nat, e: nat)
    requires
        gf.is_primitive(),
        e <= gf.order(),
    ensures
        is_poly(gf, root_values(gf, t, e)),
        root_values(gf, t, e).len() <= e,
        root_values(gf, t, e).no_duplicates(),
        forall|i: int|
            0 <= i < root_values(gf, t, e).len() ==> is_root_value(
                gf,
                t,
                e,
                #[trigger] root_values(gf, t, e)[i],
            ),
        forall|d: nat|
            d < e && #[trigger] is_root_exp(gf, t, d) ==> root_values(gf, t, e).contains(gf.pow(d)),
    decreases e,
{
    if e > 0 {
        let h = (e - 1) as nat;
        let before = root_values(gf, t, h);
        let now = root_values(gf, t, e);
        lemma_root_values(gf, t, h);
        gf.lemma_pow_range(h);
        assert forall|i: int| 0 <= i < now.len() implies is_root_value(
            gf,
            t,
            e,
            #[trigger] now[i],
        ) by {
            if i < before.len() {
                assert(is_root_value(gf, t, h, before[i]));
                let d = choose|d: nat| d < h && #[trigger] is_root_exp(gf, t, d) && before[i] == gf.pow(d);
                assert(d < e && is_root_exp(gf, t, d) && now[i] == gf.pow(d));
            } else {
                assert(h < e && is_root_exp(gf, t, h) && now[i] == gf.pow(h));
            }
        }
        assert forall|d: nat| d < e && #[trigger] is_root_exp(gf, t, d) implies now.contains(
            gf.pow(d),
        ) by {
            if d < h {
                assert(before.contains(gf.pow(d)));
                let k = before.index_of(gf.pow(d));
                assert(now[k] == gf.pow(d));
            } else {
                assert(now[now.len() - 1] == gf.pow(d));
            }
        }
        if is_root_exp(gf, t, h) {
            assert forall|i: int, j: int|
                0 <= i < now.len() && 0 <= j < now.len() && i != j implies now[i] != now[j] by {
                if i == before.len() || j == before.len() {
                    let k = if i == before.len() {
                        j
                    } else {
                        i
                    };
                    assert(is_root_value(gf, t, h, before[k]));
                    let d = choose|d: nat|
                        d < h && #[trigger] is_root_exp(gf, t, d) && before[k] == gf.pow(d);
                    if gf.pow(d) == gf.pow(h) {
                        gf.lemma_pow_injective(d, h);
                    }
                }
            }
        }
    }
}

/// With an exponent, its double is the exponent of a root.
pub proof fn lemma_root_doubles(gf: Gf, t: nat, d: nat)
    requires
        gf.has_degree(),
        is_root_exp(gf, t, d),
    ensures
        is_root_exp(gf, t, (2 * d) % gf.order()),
{
    gf.lemma_size();
    lemma_size_is_pow2(gf);
    let n = gf.order();
    let (i, j) = choose|i: nat, j: nat| i < t && j < gf.m && d == #[trigger] conjugate(gf, i, j);
    let base = odd_multiple(i, j);
    lemma_mul_mod_noop_right(2, base as int, n as int);
    lemma_pow2_unfold(j + 1);
    assert((2 * i + 1) * (2 * pow2(j)) == 2 * ((2 * i + 1) * pow2(j))) by (nonlinear_arith);
    assert(odd_multiple(i, j + 1) == 2 * base);
    if j + 1 < gf.m {
        assert((2 * d) % n == conjugate(gf, i, j + 1));
    } else {
        lemma2_to64();
        assert((2 * i + 1) * (n + 1) == n * (2 * i + 1) + (2 * i + 1)) by (nonlinear_arith);
        lemma_mod_multiples_vanish((2 * i + 1) as int, (2 * i + 1) as int, n as int);
        assert((2 * i + 1) * 1 == 2 * i + 1);
        assert((2 * d) % n == conjugate(gf, i, 0));
    }
}

/// Every positive number is an odd number times a power of two.
pub proof fn lemma_odd_part(j: nat)
    requires
        j >= 1,
    ensures
        exists|i: nat, s: nat| j == #[trigger] odd_multiple(i, s),
    decreases j,
{
    lemma2_to64();
    if j % 2 == 1 {
        let i = (j / 2) as nat;
        assert((2 * i + 1) * 1 == 2 * i + 1);
        assert(j == odd_multiple(i, 0));
    } else {
        let half = (j / 2) as nat;
        lemma_odd_part(half);
        let (i, s) = choose|i: nat, s: nat| half == #[trigger] odd_multiple(i, s);
        lemma_pow2_unfold(s + 1);
        assert((2 * i + 1) * (2 * pow2(s)) == 2 * ((2 * i + 1) * pow2(s))) by (nonlinear_arith);
        assert(j == odd_multiple(i, s + 1));
    }
}

/// Each of `1, 2, .., 2t` is the exponent of a root.
pub proof fn lemma_low_exponents_are_roots(gf: Gf, t: nat, j: nat)
    requires
        gf.has_degree(),
        1 <= j <= 2 * t,
        2 * t < gf.order(),
    ensures
        is_root_exp(gf, t, j),
{
    gf.lemma_size();
    lemma_size_is_pow2(gf);
    let n = gf.order();
    lemma_odd_part(j);
    let (i, s) = choose|i: nat, s: nat| j == #[trigger] odd_multiple(i, s);
    lemma_pow2_pos(s);
    assert((2 * i + 1) * pow2(s) >= 2 * i + 1 && (2 * i + 1) * pow2(s) >= pow2(s))
        by (nonlinear_arith)
        requires
            pow2(s) >= 1,
    ;
    if s >= gf.m {
        if s > gf.m {
            lemma_pow2_strictly_increases(gf.m as nat, s);
        }
        assert(false);
    }
    lemma_small_mod(j, n);
    assert(j == conjugate(gf, i, s));
}

/// There are at most `m * t` roots.
pub proof fn lemma_root_count(gf: Gf, t: nat)
    requires
        gf.is_primitive(),
    ensures
        root_values(gf, t, gf.order()).len() <= gf.m * t,
{
    gf.lemma_size();
    let m = gf.m as int;
    let roots = root_values(gf, t, gf.order());
    let f = |s: int| gf.pow(conjugate(gf, (s / m) as nat, (s % m) as nat));
    let pairs = set_int_range(0, m * t);
    let image = pairs.map(f);
    assert(m * t >= 0) by (nonlinear_arith)
        requires
            m >= 0,
            t >= 0,
    ;
    lemma_root_values(gf, t, gf.order());
    lemma_int_range(0, m * t);
    lemma_map_size_bound(pairs, image, f);
    assert forall|v: u32| roots.to_set().contains(v) implies image.contains(v) by {
        let k = roots.index_of(v);
        assert(is_root_value(gf, t, gf.order(), roots[k]));
        let d = choose|d: nat| d < gf.order() && #[trigger] is_root_exp(gf, t, d) && v == gf.pow(d);
        let (i, j) = choose|i: nat, j: nat| i < t && j < gf.m && d == #[trigger] conjugate(gf, i, j);
        let s = m * i + j;
        lemma_fundamental_div_mod_converse(s, m, i as int, j as int);
        assert(m * i + j < m * t) by (nonlinear_arith)
            requires
                i < t,
                j < m,
                m > 0,
        ;
        assert(pairs.contains(s));
        assert(f(s) == v);
    }
    lemma_len_subset(roots.to_set(), image);
    roots.unique_seq_to_set();
}

/// The coefficients of the generator polynomial are zero and one.
pub proof fn lemma_generator_binary(gf: Gf, t: nat)
    requires
        gf.is_primitive(),
    ensures
        forall|j: int|
            0 <= j < generator_over_field(gf, t).len() ==> #[trigger] generator_over_field(
                gf,
                t,
            )[j] <= 1,
{
    gf.lemma_size();
    let n = gf.order();
    let roots = root_values(gf, t, n);
    let squares = squared_coefs(gf, roots);
    let g = generator_over_field(gf, t);
    lemma_root_values(gf, t, n);
    assert forall|i: int| 0 <= i < squares.len() implies #[trigger] squares[i] < gf.size()
        && roots.contains(squares[i]) by {
        gf.lemma_mul_closed(roots[i], roots[i]);
        assert(is_root_value(gf, t, n, roots[i]));
        let d = choose|d: nat| d < n && #[trigger] is_root_exp(gf, t, d) && roots[i] == gf.pow(d);
        gf.lemma_mul_pow(d, d);
        gf.lemma_pow_mod(d + d);
        lemma_root_doubles(gf, t, d);
        lemma_mod_bound((2 * d) as int, n as int);
        let d2 = ((2 * d) % n) as nat;
        assert(d2 < n && is_root_exp(gf, t, d2));
    }
    assert forall|i: int, j: int|
        0 <= i < squares.len() && 0 <= j < squares.len() && i != j implies squares[i]
        != squares[j] by {
        if squares[i] == squares[j] {
            gf.lemma_sq_injective(roots[i], roots[j]);
        }
    }
    lemma_product_permuted(gf, roots, squares);
    lemma_product_squared(gf, roots);
    lemma_product_poly(gf, roots);
    assert forall|j: int| 0 <= j < g.len() implies #[trigger] g[j] <= 1 by {
        assert(squared_coefs(gf, g)[j] == g[j]);
        gf.lemma_sq_fixed(g[j]);
    }
}

/// The generator polynomial of a code: it is monic with coefficients in
/// GF(2), its degree is at least one and at most `m * t`, and
/// `alpha, alpha^2, .., alpha^(2t)` are roots of it.
pub proof fn lemma_generator(gf: Gf, t: nat)
    requires
        gf.is_primitive(),
        1 <= t,
        gf.m * t < gf.order(),
    ensures
        2 <= generator(gf, t).len() <= gf.m * t + 1,
        bit(generator(gf, t)[0]) == 1,
        forall|i: int| 0 <= i < generator(gf, t).len() ==> #[trigger] generator(gf, t)[i] <= 1,
        vanishes_at_roots(gf, generator(gf, t), t),
{
    gf.lemma_size();
    let n = gf.order();
    let roots = root_values(gf, t, n);
    let g = generator_over_field(gf, t);
    let bits = generator(gf, t);
    assert(gf.m * t >= 5 * t) by (nonlinear_arith)
        requires
            gf.m >= 5,
            t >= 0,
    ;
    lemma_root_values(gf, t, n);
    lemma_root_count(gf, t);
    lemma_product_poly(gf, roots);
    lemma_generator_binary(gf, t);
    lemma_low_exponents_are_roots(gf, t, 1);
    assert(roots.contains(gf.pow(1)));
    assert forall|i: int| 0 <= i < g.len() implies bit(#[trigger] bits[i]) == g[g.len() - 1 - i] by {
        assert(g[g.len() - 1 - i] <= 1);
    }
    assert forall|j: nat| 1 <= j <= 2 * t implies eval_bits(gf, bits, #[trigger] gf.pow(j))
        == 0 by {
        lemma_low_exponents_are_roots(gf, t, j);
        assert(roots.contains(gf.pow(j)));
        lemma_product_vanishes(gf, roots, gf.pow(j));
        lemma_eval_reversed(gf, g, bits, gf.pow(j));
    }
}

/// A polynomial over GF(2) with the roots `alpha, .., alpha^(2t)` has all
/// their conjugates as roots.
pub proof fn lemma_vanishes_at_conjugate(gf: Gf, t: nat, p: Seq<u8>, i: nat, j: nat)
    requires
        gf.is_primitive(),
        vanishes_at_roots(gf, p, t),
        i < t,
    ensures
        eval_bits(gf, p, gf.pow(odd_multiple(i, j))) == 0,
        eval_bits(gf, p, gf.pow(conjugate(gf, i, j))) == 0,
    decreases j,
{
    gf.lemma_size();
    if j == 0 {
        lemma2_to64();
        assert((2 * i + 1) * 1 == 2 * i + 1);
        assert(odd_multiple(i, 0) == 2 * i + 1);
    } else {
        let h = (j - 1) as nat;
        let e = odd_multiple(i, h);
        lemma_vanishes_at_conjugate(gf, t, p, i, h);
        lemma_pow2_unfold(j);
        assert((2 * i + 1) * (2 * pow2(h)) == 2 * ((2 * i + 1) * pow2(h))) by (nonlinear_arith);
        assert(odd_multiple(i, j) == e + e);
        gf.lemma_mul_pow(e, e);
        gf.lemma_pow_range(e);
        lemma_eval_bits_squared(gf, p, gf.pow(e));
    }
    gf.lemma_pow_mod(odd_multiple(i, j));
}

/// The generator polynomial has the least degree: a polynomial over GF(2)
/// that is not zero and has the roots `alpha, .., alpha^(2t)` has at least
/// as many coefficients as the generator polynomial.
pub proof fn lemma_generator_least(gf: Gf, t: nat, p: Seq<u8>)
    requires
        gf.is_primitive(),
        vanishes_at_roots(gf, p, t),
        exists|i: int| 0 <= i < p.len() && bit(#[trigger] p[i]) == 1,
    ensures
        p.len() >= generator(gf, t).len(),
{
    gf.lemma_size();
    let n = gf.order();
    let roots = root_values(gf, t, n);
    let c = Seq::new(p.len(), |j: int| bit(p[p.len() - 1 - j]));
    lemma_root_values(gf, t, n);
    lemma_product_poly(gf, roots);
    let w = choose|i: int| 0 <= i < p.len() && bit(#[trigger] p[i]) == 1;
    assert(c[p.len() - 1 - w] != 0);
    assert forall|i: int| 0 <= i < roots.len() implies eval_poly(gf, c, #[trigger] roots[i])
        == 0 by {
        assert(is_root_value(gf, t, n, roots[i]));
        let d = choose|d: nat| d < n && #[trigger] is_root_exp(gf, t, d) && roots[i] == gf.pow(d);
        let (a, b) = choose|a: nat, b: nat| a < t && b < gf.m && d == #[trigger] conjugate(gf, a, b);
        lemma_vanishes_at_conjugate(gf, t, p, a, b);
        lemma_eval_reversed(gf, c, p, roots[i]);
    }
    lemma_fewer_roots(gf, c, roots);
}

fn mark_roots(field: &GaloisField, t: u32) -> (marks: Vec<bool>)
    requires
        field.wf(),
        1 <= t,
        field.gf().m * t < field.gf().order(),
    ensures
        marks@.len() == field.gf().order(),
        forall|e: int|
            0 <= e < marks@.len() ==> (#[trigger] marks@[e] <==> is_root_exp(
                field.gf(),
                t as nat,
                e as nat,
            )),
{
    let ghost gf = field.gf();
    let n = field.order();
    let m = field.degree();
    let mut marks: Vec<bool> = vec![false; n as usize];
    let mut i: u32 = 0;
    proof {
        assert(m * t >= 5 * t) by (nonlinear_arith)
            requires
                m >= 5,
                t >= 0,
        ;
    }
    while i < t
        invariant
            field.wf(),
            gf == field.gf(),
            n == gf.order(),
            m == gf.m,
            31 <= n <= 32767,
            2 * t < n,
            i <= t,
            marks@.len() == n,
            forall|e: int|
                0 <= e < n ==> (#[trigger] marks@[e] <==> met_before(gf, i as nat, 0, e as nat)),
        decreases t - i,
    {
        let mut r: u32 = 2 * i + 1;
        let mut j: u32 = 0;
        proof {
            lemma2_to64();
            lemma_small_mod((2 * i + 1) as nat, n as nat);
            assert((2 * i + 1) * 1 == 2 * i + 1);
        }
        while j < m
            invariant
                field.wf(),
                gf == field.gf(),
                n == gf.order(),
                m == gf.m,
                31 <= n <= 32767,
                i < t,
                j <= m,
                r < n,
                r == conjugate(gf, i as nat, j as nat),
                marks@.len() == n,
                forall|e: int|
                    0 <= e < n ==> (#[trigger] marks@[e] <==> met_before(
                        gf,
                        i as nat,
                        j as nat,
                        e as nat,
                    )),
            decreases m - j,
        {
            marks[r as usize] = true;
            proof {
                let base = ((2 * i + 1) * pow2(j as nat)) as int;
                lemma_pow2_unfold((j + 1) as nat);
                assert((2 * i + 1) * (2 * pow2(j as nat)) == 2 * ((2 * i + 1) * pow2(j as nat)))
                    by (nonlinear_arith);
                lemma_mul_mod_noop_right(2, base, n as int);
                lemma_mod_bound(2 * base, n as int);
                assert forall|e: int| 0 <= e < n implies (#[trigger] marks@[e] <==> met_before(
                    gf,
                    i as nat,
                    (j + 1) as nat,
                    e as nat,
                )) by {
                    if met_before(gf, i as nat, j as nat, e as nat) {
                        let (a, b) = choose|a: nat, b: nat|
                            ((a < i && b < gf.m) || (a == i && b < j)) && e as nat
                                == #[trigger] conjugate(gf, a, b);
                        assert(((a < i && b < gf.m) || (a == i && b < j + 1)) && e as nat
                            == conjugate(gf, a, b));
                    }
                    if e == r {
                        assert(((i as nat) < i && (j as nat) < gf.m) || (i as nat == i && j < j + 1));
                        assert(e as nat == conjugate(gf, i as nat, j as nat));
                    }
                    if met_before(gf, i as nat, (j + 1) as nat, e as nat) {
                        let (a, b) = choose|a: nat, b: nat|
                            ((a < i && b < gf.m) || (a == i && b < j + 1)) && e as nat
                                == #[trigger] conjugate(gf, a, b);
                        if a == i && b == j {
                            assert(e == r);
                        } else {
                            assert(((a < i && b < gf.m) || (a == i && b < j)) && e as nat
                                == conjugate(gf, a, b));
                        }
                    }
                }
            }
            r = (2 * r) % n;
            j += 1;
        }
        proof {
            assert forall|e: int| 0 <= e < n implies (#[trigger] marks@[e] <==> met_before(
                gf,
                (i + 1) as nat,
                0,
                e as nat,
            )) by {
                if met_before(gf, i as nat, m as nat, e as nat) {
                    let (a, b) = choose|a: nat, b: nat|
                        ((a < i && b < gf.m) || (a == i && b < m)) && e as nat
                            == #[trigger] conjugate(gf, a, b);
                    assert(((a < i + 1 && b < gf.m) || (a == i + 1 && b < 0)) && e as nat
                        == conjugate(gf, a, b));
                }
                if met_before(gf, (i + 1) as nat, 0, e as nat) {
                    let (a, b) = choose|a: nat, b: nat|
                        ((a < i + 1 && b < gf.m) || (a == i + 1 && b < 0)) && e as nat
                            == #[trigger] conjugate(gf, a, b);
                    assert(((a < i && b < gf.m) || (a == i && b < m)) && e as nat == conjugate(
                        gf,
                        a,
                        b,
                    ));
                }
            }
        }
        i += 1;
    }
    proof {
        assert forall|e: int| 0 <= e < marks@.len() implies (#[trigger] marks@[e] <==> is_root_exp(
            gf,
            t as nat,
            e as nat,
        )) by {
            if met_before(gf, t as nat, 0, e as nat) {
                let (a, b) = choose|a: nat, b: nat|
                    ((a < t && b < gf.m) || (a == t && b < 0)) && e as nat == #[trigger] conjugate(
                        gf,
                        a,
                        b,
                    );
                assert(a < t && b < gf.m && e as nat == conjugate(gf, a, b));
            }
            if is_root_exp(gf, t as nat, e as nat) {
                let (a, b) = choose|a: nat, b: nat|
                    a < t && b < gf.m && e as nat == #[trigger] conjugate(gf, a, b);
                assert(((a < t && b < gf.m) || (a == t && b < 0)) && e as nat == conjugate(
                    gf,
                    a,
                    b,
                ));
            }
        }
    }
    marks
}

/// Computes the generator polynomial of the code with capability `t` over
/// the given field.
pub fn build_generator(field: &GaloisField, t: u32) -> (g: Vec<u8>)
    requires
        field.wf(),
        1 <= t,
        field.gf().m * t < field.gf().order(),
    ensures
        g@ == generator(field.gf(), t as nat),
{
    let ghost gf = field.gf();
    let n = field.order();
    let marks = mark_roots(field, t);
    let mut c: Vec<u32> = vec![1u32];
    let mut e: u32 = 0;
    proof {
        gf.lemma_size();
        assert(c@ =~= seq![1u32]);
    }
    while e < n
        invariant
            field.wf(),
            gf == field.gf(),
            n == gf.order(),
            31 <= n <= 32767,
            e <= n,
            marks@.len() == n,
            forall|d: int|
                0 <= d < n ==> (#[trigger] marks@[d] <==> is_root_exp(gf, t as nat, d as nat)),
            c@ == linear_product(gf, root_values(gf, t as nat, e as nat)),
            1 <= c@.len() <= e + 1,
            is_poly(gf, c@),
        decreases n - e,
    {
        if marks[e as usize] {
            let r = field.exp(e);
            proof {
                assert(root_values(gf, t as nat, (e + 1) as nat).drop_last() =~= root_values(
                    gf,
                    t as nat,
                    e as nat,
                ));
            }
            c = poly_times_linear(field, &c, r);
        }
        e += 1;
    }
    let len = c.len();
    let mut g: Vec<u8> = Vec::new();
    let mut i: usize = 0;
    while i < len
        invariant
            len == c@.len(),
            i <= len,
            g@.len() == i,
            forall|q: int|
                0 <= q < i ==> #[trigger] g@[q] == (if c@[len - 1 - q] != 0 {
                    1u8
                } else {
                    0u8
                }),
        decreases len - i,
    {
        g.push(
            if c[len - 1 - i] != 0 {
                1
            } else {
                0
            },
        );
        i += 1;
    }
    proof {
        assert(g@ =~= generator(gf, t as nat));
    }
    g
}

} // verus!
