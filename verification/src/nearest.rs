//! Decoding finds the nearest codeword: where a word differs from a
//! codeword in no more bits than the capability, it finds these bits; and
//! whatever it finds, inverting the bits found gives a codeword.

use vstd::prelude::*;
use crate::bits::bit;
use crate::bits::flip;
use crate::bits::flipped;
use crate::bits::lemma_flipped_at;
use crate::bits::lemma_flipped_len;
use crate::bits::lemma_xor_assoc;
use crate::bits::lemma_xor_bits;
use crate::bits::lemma_xor_cancel;
use crate::bits::lemma_xor_self;
use crate::bits::xor_bit;
use crate::bits::xor_bits;
use crate::decoder::located;
use crate::encoder::lemma_codeword_vanishes;
use crate::encoder::remainder;
use crate::field::Gf;
use crate::generator::generator;
use crate::generator::lemma_generator;
use crate::generator::lemma_generator_least;
use crate::generator::vanishes_at_roots;
use crate::encoder::lemma_remainder_len;
use crate::poly::lemma_eval_from_concat;
use crate::poly::lemma_eval_xor;
use crate::locator::locator;
use crate::locator::locator_degree;
use crate::locator::run;
use crate::massey::before_step;
use crate::massey::inverts_one;
use crate::massey::lemma_locator_found;
use crate::massey::lemma_power_sum_concat;
use crate::massey::lemma_power_sum_range;
use crate::massey::lemma_power_sums_vanish;
use crate::massey::lemma_run_keeps;
use crate::massey::lemma_zero_run;
use crate::massey::power_sum;
use crate::massey::power_sums;
use crate::poly::eval_bits;
use crate::poly::eval_poly;
use crate::poly::gexp;
use crate::poly::is_poly;
use crate::poly::lemma_eval_flip;
use crate::poly::lemma_eval_from_range;
use crate::poly::lemma_eval_poly_take;
use crate::poly::lemma_eval_zeros;
use crate::poly::lemma_gexp_pow;
use crate::product::lemma_same_roots;
use crate::roots::error_positions;
use crate::roots::is_error_at;
use crate::roots::lemma_error_positions_members;
use crate::roots::lemma_probe_inverse;
use crate::roots::probe;
use crate::series::conv;
use crate::series::lemma_conv_concat;
use crate::series::lemma_lowest_term;
use crate::series::lemma_product_newton;
use crate::series::lemma_recip_value_zero;
use crate::series::lemma_times_locators_eval;
use crate::series::lemma_times_locators_poly;
use crate::series::lemma_zero_beyond;
use crate::series::newton;
use crate::series::odd_part;
use crate::series::one_poly;
use crate::series::times_locators;
use crate::syndrome::all_zero;
use crate::syndrome::is_codeword;
use crate::syndrome::syndromes;

verus! {

/// The locators of the positions `ps` of a word of `len` bits: for each
/// position the power of `alpha` that the bit there is the coefficient of.
pub open spec fn error_locators(gf: Gf, len: nat, ps: Seq<u32>) -> Seq<u32> {
    Seq::new(ps.len(), |i: int| gf.pow((len - 1 - ps[i]) as nat))
}

/// The positions below `upto` at which `word` has a one, in ascending
/// order.
pub open spec fn ones(word: Seq<u8>, upto: nat) -> Seq<u32>
    decreases upto,
{
    if upto == 0 {
        Seq::empty()
    } else {
        let before = ones(word, (upto - 1) as nat);
        if bit(word[upto - 1]) == 1 {
            before.push((upto - 1) as u32)
        } else {
            before
        }
    }
}

/// The word with every one inverted.
pub open spec fn cleared(word: Seq<u8>) -> Seq<u8> {
    Seq::new(
        word.len(),
        |p: int|
            if bit(word[p]) == 1 {
                flip(word[p])
            } else {
                word[p]
            },
    )
}

/// The positions in `ps` are in ascending order.
pub open spec fn ascending(ps: Seq<u32>) -> bool {
    forall|a: int, b: int| 0 <= a < b < ps.len() ==> ps[a] < ps[b]
}

/// The positions in `ps` are positions of a word of `len` bits.
pub open spec fn within(ps: Seq<u32>, len: nat) -> bool {
    forall|i: int| 0 <= i < ps.len() ==> #[trigger] ps[i] < len
}

/// The word differs from the codeword `cw` exactly at the positions `ps`,
/// which differ from one another and are not more than the capability.
pub open spec fn differs_at(gf: Gf, t: nat, word: Seq<u8>, cw: Seq<u8>, ps: Seq<u32>) -> bool {
    &&& is_codeword(gf, t, cw)
    &&& ps.len() <= t
    &&& ps.no_duplicates()
    &&& within(ps, cw.len())
    &&& word == flipped(cw, ps)
}

/// Some codeword differs from the word in no more bits than the
/// capability.
pub open spec fn near_codeword(gf: Gf, t: nat, word: Seq<u8>) -> bool {
    exists|cw: Seq<u8>, ps: Seq<u32>| #[trigger] differs_at(gf, t, word, cw, ps)
}

/// A message followed by its parity bits is a codeword.
pub proof fn lemma_encoded_is_codeword(gf: Gf, t: nat, msg: Seq<u8>)
    requires
        gf.is_primitive(),
        1 <= t,
        gf.m * t < gf.order(),
    ensures
        is_codeword(gf, t, msg + remainder(generator(gf, t), msg)),
{
    let word = msg + remainder(generator(gf, t), msg);
    let syn = syndromes(gf, word, 2 * t);
    lemma_generator(gf, t);
    assert forall|j: int| 0 <= j < syn.len() implies #[trigger] syn[j] == 0 by {
        gf.lemma_pow_range((j + 1) as nat);
        lemma_codeword_vanishes(gf, generator(gf, t), msg, gf.pow((j + 1) as nat));
    }
}

/// The parity bits are the only bits that make a codeword of the message:
/// where as many bits as the generator polynomial has degree, put after
/// the message, give a codeword, they are the parity bits of the message.
pub proof fn lemma_parity_unique(gf: Gf, t: nat, msg: Seq<u8>, ecc: Seq<u8>)
    requires
        gf.is_primitive(),
        1 <= t,
        gf.m * t < gf.order(),
        ecc.len() == generator(gf, t).len() - 1,
        forall|i: int| 0 <= i < ecc.len() ==> #[trigger] ecc[i] <= 1,
        is_codeword(gf, t, msg + ecc),
    ensures
        ecc == remainder(generator(gf, t), msg),
{
    gf.lemma_size();
    let gen = generator(gf, t);
    let parity = remainder(gen, msg);
    let d = xor_bits(parity, ecc);
    let zeros = Seq::new(msg.len(), |i: int| 0u8);
    lemma_generator(gf, t);
    lemma_remainder_len(gen, msg);
    lemma_encoded_is_codeword(gf, t, msg);
    assert(xor_bits(msg + parity, msg + ecc) =~= zeros + d);
    assert forall|j: nat| 1 <= j <= 2 * t implies eval_bits(gf, d, #[trigger] gf.pow(j)) == 0 by {
        let x = gf.pow(j);
        gf.lemma_pow_range(j);
        lemma_eval_xor(gf, msg + parity, msg + ecc, x);
        assert(syndromes(gf, msg + parity, 2 * t)[j - 1] == 0);
        assert(syndromes(gf, msg + ecc, 2 * t)[j - 1] == 0);
        lemma_xor_self(0);
        lemma_eval_zeros(gf, zeros, x);
        lemma_eval_from_concat(gf, 0, zeros, d, x);
    }
    if exists|i: int| 0 <= i < d.len() && bit(#[trigger] d[i]) == 1 {
        lemma_generator_least(gf, t, d);
        assert(false);
    }
    assert forall|i: int| 0 <= i < ecc.len() implies parity[i] == ecc[i] by {
        assert(bit(d[i]) != 1);
        assert(d[i] == xor_bit(parity[i], ecc[i]));
    }
    assert(parity =~= ecc);
}

/// Locators are elements of the field other than zero, and positions that
/// differ have locators that differ.
pub proof fn lemma_locators(gf: Gf, len: nat, ps: Seq<u32>)
    requires
        gf.is_primitive(),
        len <= gf.order(),
        within(ps, len),
    ensures
        is_poly(gf, error_locators(gf, len, ps)),
        forall|l: int| 0 <= l < ps.len() ==> #[trigger] error_locators(gf, len, ps)[l] != 0,
        ps.no_duplicates() ==> error_locators(gf, len, ps).no_duplicates(),
{
    let xs = error_locators(gf, len, ps);
    assert forall|l: int| 0 <= l < xs.len() implies #[trigger] xs[l] < gf.size() && xs[l] != 0 by {
        gf.lemma_pow_range((len - 1 - ps[l]) as nat);
    }
    if ps.no_duplicates() {
        assert forall|a: int, b: int|
            0 <= a < xs.len() && 0 <= b < xs.len() && a != b implies xs[a] != xs[b] by {
            if xs[a] == xs[b] {
                gf.lemma_pow_injective((len - 1 - ps[a]) as nat, (len - 1 - ps[b]) as nat);
            }
        }
    }
}

/// Inverting bits of a word adds to each of its values at a power of
/// `alpha` the power sum of the locators of these bits.
pub proof fn lemma_flipped_value(gf: Gf, word: Seq<u8>, ps: Seq<u32>, j: nat)
    requires
        gf.is_primitive(),
        within(ps, word.len()),
    ensures
        eval_bits(gf, flipped(word, ps), gf.pow(j)) == eval_bits(gf, word, gf.pow(j)) ^ power_sum(
            gf,
            error_locators(gf, word.len(), ps),
            j,
        ),
    decreases ps.len(),
{
    gf.lemma_size();
    let x = gf.pow(j);
    gf.lemma_pow_range(j);
    lemma_eval_from_range(gf, 0, word, x);
    if ps.len() == 0 {
        lemma_xor_self(eval_bits(gf, word, x));
    } else {
        let qs = ps.drop_last();
        let p = ps.last();
        let e = (word.len() - 1 - p) as nat;
        let before = flipped(word, qs);
        assert forall|i: int| 0 <= i < qs.len() implies #[trigger] qs[i] < word.len() by {
            assert(qs[i] == ps[i]);
        }
        lemma_flipped_value(gf, word, qs, j);
        lemma_flipped_len(word, qs);
        assert(ps[ps.len() - 1] < word.len());
        lemma_eval_flip(gf, before, p as int, x);
        lemma_gexp_pow(gf, j, e);
        lemma_gexp_pow(gf, e, j);
        assert(j * e == e * j) by (nonlinear_arith);
        assert(error_locators(gf, word.len(), ps).drop_last() =~= error_locators(
            gf,
            word.len(),
            qs,
        ));
        lemma_xor_assoc(
            eval_bits(gf, word, x),
            power_sum(gf, error_locators(gf, word.len(), qs), j),
            gexp(gf, gf.pow(e), j),
        );
    }
}

pub proof fn lemma_ones_members(word: Seq<u8>, upto: nat)
    requires
        upto <= word.len(),
        upto <= u32::MAX,
    ensures
        forall|p: u32|
            #[trigger] ones(word, upto).contains(p) <==> (p < upto && bit(word[p as int]) == 1),
        within(ones(word, upto), upto),
        ascending(ones(word, upto)),
    decreases upto,
{
    let now = ones(word, upto);
    if upto > 0 {
        let h = (upto - 1) as nat;
        let before = ones(word, h);
        lemma_ones_members(word, h);
        assert forall|p: u32| #[trigger] now.contains(p) <==> (p < upto && bit(word[p as int])
            == 1) by {
            if now.contains(p) {
                let k = now.index_of(p);
                if k < before.len() {
                    assert(before[k] == p);
                    assert(before.contains(p));
                }
            }
            if p < upto && bit(word[p as int]) == 1 {
                if p < h {
                    assert(before.contains(p));
                    let k = before.index_of(p);
                    assert(now[k] == p);
                } else {
                    assert(now[now.len() - 1] == p);
                }
            }
        }
    }
}

/// The values of a word at the powers of `alpha` are the power sums of the
/// locators of its ones.
pub proof fn lemma_word_power_sums(gf: Gf, word: Seq<u8>, j: nat)
    requires
        gf.is_primitive(),
        word.len() <= gf.order(),
    ensures
        eval_bits(gf, word, gf.pow(j)) == power_sum(
            gf,
            error_locators(gf, word.len(), ones(word, word.len())),
            j,
        ),
{
    gf.lemma_size();
    let len = word.len();
    let zero = cleared(word);
    let sup = ones(word, len);
    lemma_ones_members(word, len);
    assert forall|p: int| 0 <= p < zero.len() implies bit(#[trigger] zero[p]) == 0 by {
        lemma_xor_bits(word[p], 0);
        lemma_xor_self(1);
    }
    lemma_eval_zeros(gf, zero, gf.pow(j));
    lemma_flipped_len(zero, sup);
    assert(ones(word, len).no_duplicates());
    assert forall|q: int| 0 <= q < len implies flipped(zero, sup)[q] == word[q] by {
        lemma_flipped_at(zero, sup, q);
        lemma_xor_bits(word[q], 0);
        assert(sup.contains(q as u32) <==> bit(word[q]) == 1);
    }
    assert(flipped(zero, sup) =~= word);
    lemma_flipped_value(gf, zero, sup, j);
    lemma_locators(gf, len, sup);
    lemma_power_sum_range(gf, error_locators(gf, len, sup), j);
    lemma_xor_self(power_sum(gf, error_locators(gf, len, sup), j));
}

/// Where a word differs from a codeword at positions that differ from one
/// another and are not more than the capability, decoding finds exactly
/// these positions, and inverting the bits found gives the codeword.
pub proof fn lemma_located_complete(gf: Gf, t: nat, cw: Seq<u8>, ps: Seq<u32>)
    requires
        gf.is_primitive(),
        1 <= t,
        cw.len() <= gf.order(),
        is_codeword(gf, t, cw),
        ps.len() <= t,
        ps.no_duplicates(),
        within(ps, cw.len()),
    ensures
        match located(gf, t, flipped(cw, ps)) {
            Some(found) => {
                &&& found.len() == ps.len()
                &&& forall|p: u32| found.contains(p) <==> ps.contains(p)
                &&& ascending(found)
                &&& flipped(flipped(cw, ps), found) == cw
            },
            None => false,
        },
{
    gf.lemma_size();
    let len = cw.len();
    let received = flipped(cw, ps);
    let xs = error_locators(gf, len, ps);
    let syn = syndromes(gf, received, 2 * t);
    lemma_flipped_len(cw, ps);
    lemma_locators(gf, len, ps);
    assert forall|j: int| 0 <= j < 2 * t implies #[trigger] syn[j] == power_sums(gf, xs, 2 * t)[j] by {
        lemma_flipped_value(gf, cw, ps, (j + 1) as nat);
        assert(syndromes(gf, cw, 2 * t)[j] == 0);
        lemma_power_sum_range(gf, xs, (j + 1) as nat);
        lemma_xor_self(power_sum(gf, xs, (j + 1) as nat));
    }
    assert(syn =~= power_sums(gf, xs, 2 * t));
    lemma_locator_found(gf, xs, t);
    let sigma = locator(gf, syn, t);
    let deg = locator_degree(gf, syn, t);
    let found = error_positions(gf, sigma, deg, len, len);
    lemma_error_positions_members(gf, sigma, deg, len, len);
    assert forall|p: u32| #[trigger] found.contains(p) <==> ps.contains(p) by {
        if p < len {
            lemma_probe_inverse(gf, len, p as nat, p as nat);
            let y = probe(gf, len, p as nat);
            assert(sigma.take(deg as int + 1) == sigma.take(xs.len() as int + 1));
            assert(is_error_at(gf, sigma, deg, len, p as nat) <==> inverts_one(gf, xs, y));
            if inverts_one(gf, xs, y) {
                let l = choose|l: int| 0 <= l < xs.len() && gf.mul(#[trigger] xs[l], y) == 1;
                lemma_probe_inverse(gf, len, p as nat, ps[l] as nat);
                assert(ps[l] == p);
            }
            if ps.contains(p) {
                let l = ps.index_of(p);
                assert(gf.mul(xs[l], y) == 1);
            }
        } else {
            if ps.contains(p) {
                let l = ps.index_of(p);
                assert(ps[l] < len);
            }
        }
    }
    assert(found.no_duplicates());
    assert(found.to_set() =~= ps.to_set());
    found.unique_seq_to_set();
    ps.unique_seq_to_set();
    if all_zero(syn) {
        lemma_zero_run(gf, syn, t, t);
        assert(found =~= Seq::<u32>::empty());
    }
    assert(located(gf, t, received) == Some(found));
    lemma_flipped_len(received, found);
    assert forall|q: int| 0 <= q < len implies flipped(received, found)[q] == cw[q] by {
        lemma_flipped_at(cw, ps, q);
        lemma_flipped_at(received, found, q);
        lemma_xor_bits(cw[q], 0);
    }
    assert(flipped(received, found) =~= cw);
}

/// Where the search finds as many positions as the degree of the locator,
/// the locator is the product of the `1 + Y z` over the locators `Y` of
/// the positions found.
pub proof fn lemma_locator_is_product(gf: Gf, t: nat, c: Seq<u32>, deg: nat, len: nat)
    requires
        gf.is_primitive(),
        1 <= t,
        len <= gf.order(),
        c.len() == 2 * t + 1,
        is_poly(gf, c),
        c[0] == 1,
        deg <= t,
        forall|n: int| deg < n < c.len() ==> c[n] == 0,
        error_positions(gf, c, deg, len, len).len() == deg,
    ensures
        c == times_locators(
            gf,
            error_locators(gf, len, error_positions(gf, c, deg, len, len)),
            one_poly(2 * t + 1),
        ),
{
    gf.lemma_size();
    let found = error_positions(gf, c, deg, len, len);
    let ys = error_locators(gf, len, found);
    let one = one_poly(2 * t + 1);
    let p = times_locators(gf, ys, one);
    let cl = c.take(deg as int + 1);
    let pl = p.take(deg as int + 1);
    let roots = Seq::new(deg, |l: int| probe(gf, len, found[l] as nat));
    lemma_error_positions_members(gf, c, deg, len, len);
    lemma_locators(gf, len, found);
    lemma_times_locators_poly(gf, ys, one);
    lemma_zero_beyond(gf, ys, one, 0);
    lemma_lowest_term(gf, ys, one, 0);
    assert forall|l: int| 0 <= l < deg implies #[trigger] roots[l] < gf.size() && roots[l] != 0
        && gf.mul(ys[l], roots[l]) == 1 && eval_poly(gf, cl, roots[l]) == 0 && eval_poly(
        gf,
        pl,
        roots[l],
    ) == 0 by {
        let y = roots[l];
        lemma_probe_inverse(gf, len, found[l] as nat, found[l] as nat);
        gf.lemma_mul_closed(ys[l], y);
        assert(found.contains(found[l]));
        lemma_eval_poly_take(gf, p, deg as int + 1, y);
        lemma_times_locators_eval(gf, ys, one, 0, y);
        lemma_recip_value_zero(gf, ys, y, l);
    }
    assert forall|a: int, b: int|
        0 <= a < roots.len() && 0 <= b < roots.len() && a != b implies roots[a] != roots[b] by {
        if roots[a] == roots[b] {
            lemma_probe_inverse(gf, len, found[a] as nat, found[b] as nat);
            assert(gf.mul(ys[b], roots[b]) == 1);
            if a < b {
                assert(found[a] < found[b]);
            } else {
                assert(found[b] < found[a]);
            }
        }
    }
    assert forall|i: int| 0 <= i < roots.len() implies eval_poly(gf, cl, #[trigger] roots[i])
        == 0 by {}
    assert forall|i: int| 0 <= i < roots.len() implies eval_poly(gf, pl, #[trigger] roots[i])
        == 0 by {}
    lemma_same_roots(gf, cl, pl, roots);
    assert forall|j: int| 0 <= j < c.len() implies c[j] == p[j] by {
        if j <= deg {
            assert(cl[j] == pl[j]);
        }
    }
    assert(c =~= p);
}

/// Whatever decoding finds, it finds no more positions than the
/// capability, and inverting the bits found gives a codeword.
pub proof fn lemma_located_sound(gf: Gf, t: nat, word: Seq<u8>)
    requires
        gf.is_primitive(),
        1 <= t,
        word.len() <= gf.order(),
    ensures
        match located(gf, t, word) {
            Some(found) => {
                &&& found.len() <= t
                &&& ascending(found)
                &&& within(found, word.len())
                &&& is_codeword(gf, t, flipped(word, found))
            },
            None => true,
        },
{
    gf.lemma_size();
    let len = word.len();
    let syn = syndromes(gf, word, 2 * t);
    if !all_zero(syn) {
        let c = locator(gf, syn, t);
        let deg = locator_degree(gf, syn, t);
        let found = error_positions(gf, c, deg, len, len);
        lemma_error_positions_members(gf, c, deg, len, len);
        if deg <= t && found.len() == deg {
            let sup = ones(word, len);
            let xs = error_locators(gf, len, sup);
            let ys = error_locators(gf, len, found);
            lemma_ones_members(word, len);
            lemma_locators(gf, len, sup);
            lemma_locators(gf, len, found);
            assert forall|j: int| 0 <= j < 2 * t implies #[trigger] syn[j] == power_sums(
                gf,
                xs,
                2 * t,
            )[j] by {
                lemma_word_power_sums(gf, word, (j + 1) as nat);
            }
            assert(syn =~= power_sums(gf, xs, 2 * t));
            lemma_run_keeps(gf, xs, t, t);
            let s = run(gf, syn, t, t);
            assert(before_step(gf, xs, t, s, t));
            lemma_locator_is_product(gf, t, c, deg, len);
            lemma_product_newton(gf, ys, 2 * t + 1);
            let zs = xs + ys;
            assert forall|n: int| 1 <= n <= 2 * t implies #[trigger] conv(gf, c, zs, n) == 0 by {
                let o = odd_part(n, c[n]);
                lemma_conv_concat(gf, c, xs, ys, n);
                assert(newton(gf, c, xs, n) == 0);
                assert(newton(gf, c, ys, n) == 0);
                lemma_xor_cancel(conv(gf, c, xs, n), o);
                lemma_xor_cancel(conv(gf, c, ys, n), o);
                lemma_xor_self(o);
            }
            assert forall|l: int| 0 <= l < zs.len() implies #[trigger] zs[l] < gf.size() by {
                if l < xs.len() {
                    assert(zs[l] == xs[l]);
                } else {
                    assert(zs[l] == ys[l - xs.len()]);
                }
            }
            lemma_power_sums_vanish(gf, zs, c, 2 * t, 2 * t);
            let after = syndromes(gf, flipped(word, found), 2 * t);
            assert forall|j: int| 0 <= j < after.len() implies #[trigger] after[j] == 0 by {
                lemma_flipped_value(gf, word, found, (j + 1) as nat);
                lemma_word_power_sums(gf, word, (j + 1) as nat);
                lemma_power_sum_concat(gf, xs, ys, (j + 1) as nat);
                assert(power_sums(gf, zs, 2 * t)[j] == 0);
            }
        }
    } else {
        assert(flipped(word, Seq::<u32>::empty()) == word);
    }
}

/// Decoding gives a word up exactly where no codeword differs from it in
/// as few bits as the capability.
pub proof fn lemma_located_boundary(gf: Gf, t: nat, word: Seq<u8>)
    requires
        gf.is_primitive(),
        1 <= t,
        word.len() <= gf.order(),
    ensures
        located(gf, t, word).is_none() <==> !near_codeword(gf, t, word),
{
    gf.lemma_size();
    if near_codeword(gf, t, word) {
        let (cw, ps) = choose|cw: Seq<u8>, ps: Seq<u32>| #[trigger]
            differs_at(gf, t, word, cw, ps);
        lemma_flipped_len(cw, ps);
        lemma_located_complete(gf, t, cw, ps);
    }
    if located(gf, t, word).is_some() {
        let found = located(gf, t, word).unwrap();
        let cw = flipped(word, found);
        lemma_located_sound(gf, t, word);
        lemma_flipped_len(word, found);
        lemma_flipped_len(cw, found);
        assert(found.no_duplicates());
        assert forall|q: int| 0 <= q < word.len() implies flipped(cw, found)[q] == word[q] by {
            lemma_flipped_at(word, found, q);
            lemma_flipped_at(cw, found, q);
            lemma_xor_bits(word[q], 0);
        }
        assert(flipped(cw, found) =~= word);
        assert(differs_at(gf, t, word, cw, found));
    }
}

} // verus!
