//! Arithmetic of polynomials over the field: sum, product, formal
//! derivative, and division with remainder. A polynomial holds the
//! coefficient of `x^j` at index `j`; coefficients beyond its length are
//! zero.

use vstd::prelude::*;
use crate::bits::lemma_xor_assoc;
use crate::bits::lemma_xor_comm;
use crate::bits::lemma_xor_self;
use crate::bits::lemma_xor_swap;
use crate::field::Gf;
use crate::field::GaloisField;
use crate::poly::coef;
use crate::poly::eval_poly;
use crate::poly::is_poly;
use crate::poly::lemma_eval_poly_range;
use crate::poly::lemma_eval_poly_scale;
use crate::poly::lemma_eval_poly_take;
use crate::poly::lemma_eval_poly_xor;
use crate::product::times_linear;
use crate::series::odd_part;

verus! {

/// The sum of two polynomials.
pub open spec fn sum_of(a: Seq<u32>, b: Seq<u32>) -> Seq<u32> {
    Seq::new(
        if a.len() >= b.len() {
            a.len()
        } else {
            b.len()
        },
        |j: int| coef(a, j) ^ coef(b, j),
    )
}

/// The sum of `a_j b_(n-j)` over `j` below `upto`.
pub open spec fn cross(gf: Gf, a: Seq<u32>, b: Seq<u32>, n: int, upto: int) -> u32
    decreases upto,
{
    if upto <= 0 {
        0
    } else {
        cross(gf, a, b, n, upto - 1) ^ gf.mul(coef(a, upto - 1), coef(b, n - (upto - 1)))
    }
}

/// The product of two polynomials: its coefficient of `x^n` is the sum of
/// `a_j b_(n-j)` over `j` from 0 to `n`.
pub open spec fn product_of(gf: Gf, a: Seq<u32>, b: Seq<u32>) -> Seq<u32> {
    if a.len() == 0 || b.len() == 0 {
        Seq::empty()
    } else {
        Seq::new((a.len() + b.len() - 1) as nat, |n: int| cross(gf, a, b, n, n + 1))
    }
}

/// The formal derivative: its coefficient of `x^j` is `j + 1` times the
/// coefficient of `x^(j+1)`.
pub open spec fn derivative_of(c: Seq<u32>) -> Seq<u32> {
    Seq::new(
        if c.len() >= 1 {
            (c.len() - 1) as nat
        } else {
            0
        },
        |j: int| odd_part(j + 1, c[j + 1]),
    )
}

/// `a` is `q` times `b` plus `r`.
pub open spec fn divides_as(gf: Gf, a: Seq<u32>, b: Seq<u32>, q: Seq<u32>, r: Seq<u32>) -> bool {
    forall|n: int| 0 <= n ==> coef(a, n) == #[trigger] cross(gf, q, b, n, n + 1) ^ coef(r, n)
}

pub proof fn lemma_cross_range(gf: Gf, a: Seq<u32>, b: Seq<u32>, n: int, upto: int)
    requires
        gf.is_primitive(),
        is_poly(gf, a),
        is_poly(gf, b),
    ensures
        cross(gf, a, b, n, upto) < gf.size(),
    decreases upto,
{
    gf.lemma_size();
    if upto > 0 {
        lemma_cross_range(gf, a, b, n, upto - 1);
        gf.lemma_mul_closed(coef(a, upto - 1), coef(b, n - (upto - 1)));
        gf.lemma_times_alpha(
            cross(gf, a, b, n, upto - 1),
            gf.mul(coef(a, upto - 1), coef(b, n - (upto - 1))),
        );
    }
}

/// Terms in which the first factor has no coefficient add nothing.
pub proof fn lemma_cross_beyond(gf: Gf, a: Seq<u32>, b: Seq<u32>, n: int, lo: int, hi: int)
    requires
        a.len() <= lo <= hi,
    ensures
        cross(gf, a, b, n, hi) == cross(gf, a, b, n, lo),
    decreases hi,
{
    if lo < hi {
        lemma_cross_beyond(gf, a, b, n, lo, hi - 1);
        lemma_xor_self(cross(gf, a, b, n, hi - 1));
    }
}

/// The sum splits into the term of the constant coefficient of the first
/// factor and the sum for the rest of it.
pub proof fn lemma_cross_head(gf: Gf, a: Seq<u32>, b: Seq<u32>, n: int, upto: int)
    requires
        a.len() >= 1,
        upto >= 1,
    ensures
        cross(gf, a, b, n, upto) == gf.mul(a[0], coef(b, n)) ^ cross(
            gf,
            a.skip(1),
            b,
            n - 1,
            upto - 1,
        ),
    decreases upto,
{
    if upto == 1 {
        assert(cross(gf, a, b, n, 0) == 0);
        assert(cross(gf, a.skip(1), b, n - 1, 0) == 0);
        lemma_xor_self(gf.mul(a[0], coef(b, n)));
    } else {
        lemma_cross_head(gf, a, b, n, upto - 1);
        assert(coef(a, upto - 1) == coef(a.skip(1), upto - 2));
        lemma_xor_assoc(
            gf.mul(a[0], coef(b, n)),
            cross(gf, a.skip(1), b, n - 1, upto - 2),
            gf.mul(coef(a, upto - 1), coef(b, n - (upto - 1))),
        );
    }
}

/// Setting a coefficient of the first factor that was zero adds one term.
pub proof fn lemma_cross_update(
    gf: Gf,
    q: Seq<u32>,
    b: Seq<u32>,
    n: int,
    upto: int,
    at: int,
    f: u32,
)
    requires
        0 <= at < q.len(),
        q[at] == 0,
    ensures
        cross(gf, q.update(at, f), b, n, upto) == cross(gf, q, b, n, upto) ^ (if at < upto {
            gf.mul(f, coef(b, n - at))
        } else {
            0
        }),
    decreases upto,
{
    lemma_xor_self(0);
    if upto > 0 {
        let j = upto - 1;
        lemma_cross_update(gf, q, b, n, j, at, f);
        let before = cross(gf, q, b, n, j);
        if j == at {
            lemma_xor_self(before);
        } else {
            assert(coef(q.update(at, f), j) == coef(q, j));
            let term = gf.mul(coef(q, j), coef(b, n - j));
            if at < j {
                lemma_xor_swap(before, gf.mul(f, coef(b, n - at)), term, 0);
                lemma_xor_self(before ^ term);
                lemma_xor_self(before);
            } else {
                lemma_xor_self(before);
                lemma_xor_self(before ^ term);
            }
        }
    } else {
        lemma_xor_self(cross(gf, q, b, n, upto));
    }
}

pub proof fn lemma_product_is_poly(gf: Gf, a: Seq<u32>, b: Seq<u32>)
    requires
        gf.is_primitive(),
        is_poly(gf, a),
        is_poly(gf, b),
    ensures
        is_poly(gf, product_of(gf, a, b)),
{
    let p = product_of(gf, a, b);
    assert forall|n: int| 0 <= n < p.len() implies #[trigger] p[n] < gf.size() by {
        lemma_cross_range(gf, a, b, n, n + 1);
    }
}

/// The value of a product is the product of the values.
pub proof fn lemma_product_eval(gf: Gf, a: Seq<u32>, b: Seq<u32>, x: u32)
    requires
        gf.is_primitive(),
        is_poly(gf, a),
        is_poly(gf, b),
        x < gf.size(),
    ensures
        eval_poly(gf, product_of(gf, a, b), x) == gf.mul(eval_poly(gf, a, x), eval_poly(gf, b, x)),
    decreases a.len(),
{
    gf.lemma_size();
    lemma_xor_self(0);
    let eb = eval_poly(gf, b, x);
    lemma_eval_poly_range(gf, b, x);
    if a.len() == 0 {
    } else if b.len() == 0 {
        lemma_eval_poly_range(gf, a, x);
        gf.lemma_mul_closed(eval_poly(gf, a, x), 0);
    } else {
        let rest = a.skip(1);
        let p = product_of(gf, a, b);
        let inner = product_of(gf, rest, b);
        let len = p.len();
        let scaled = Seq::new(len, |n: int| gf.mul(coef(b, n), a[0]));
        let shifted = Seq::new(len, |n: int| coef(inner, n - 1));
        lemma_product_eval(gf, rest, b, x);
        lemma_product_is_poly(gf, rest, b);
        assert forall|n: int| 0 <= n < len implies #[trigger] scaled[n] < gf.size() by {
            gf.lemma_mul_closed(coef(b, n), a[0]);
        }
        assert forall|n: int| 0 <= n < len implies p[n] == scaled[n] ^ shifted[n] by {
            lemma_cross_head(gf, a, b, n, n + 1);
            gf.lemma_mul_closed(coef(b, n), a[0]);
            if rest.len() == 0 || n == 0 {
                if n - 1 >= 0 {
                    lemma_cross_beyond(gf, rest, b, n - 1, 0, n);
                }
                assert(cross(gf, rest, b, n - 1, 0) == 0);
            }
        }
        assert(p =~= Seq::new(len, |n: int| scaled[n] ^ shifted[n]));
        lemma_eval_poly_xor(gf, scaled, shifted, x);
        // The multiple of `b`, with zeros above.
        let multiple = Seq::new(b.len(), |n: int| gf.mul(b[n], a[0]));
        assert(scaled.take(b.len() as int) =~= multiple);
        lemma_eval_poly_take(gf, scaled, b.len() as int, x);
        lemma_eval_poly_scale(gf, b, a[0], x);
        // The product with the rest, moved up by one place.
        let ei = eval_poly(gf, inner, x);
        if rest.len() == 0 {
            lemma_eval_poly_take(gf, shifted.skip(1), 0, x);
            assert(shifted.skip(1).take(0) =~= Seq::<u32>::empty());
        } else {
            assert(shifted.skip(1) =~= inner);
        }
        assert(eval_poly(gf, shifted.skip(1), x) == ei);
        lemma_eval_poly_range(gf, inner, x);
        gf.lemma_mul_closed(ei, x);
        lemma_xor_self(gf.mul(ei, x));
        assert(eval_poly(gf, shifted, x) == gf.mul(ei, x));
        let er = eval_poly(gf, rest, x);
        lemma_eval_poly_range(gf, rest, x);
        gf.lemma_mul_closed(er, x);
        gf.lemma_mul_closed(eb, a[0]);
        gf.lemma_mul_distributes(gf.mul(er, x), a[0], eb);
        gf.lemma_mul_assoc(er, eb, x);
        gf.lemma_mul_assoc(er, x, eb);
        gf.lemma_mul_closed(eb, x);
        lemma_xor_swap(gf.mul(eb, a[0]), gf.mul(gf.mul(er, eb), x), 0, 0);
        lemma_xor_comm(gf.mul(eb, a[0]), gf.mul(gf.mul(er, x), eb));
    }
}

/// Computes the sum of two polynomials.
pub fn poly_sum(a: &[u32], b: &[u32]) -> (out: Vec<u32>)
    ensures
        out@ == sum_of(a@, b@),
{
    let len = if a.len() >= b.len() {
        a.len()
    } else {
        b.len()
    };
    let mut out: Vec<u32> = Vec::new();
    let mut j: usize = 0;
    while j < len
        invariant
            len == sum_of(a@, b@).len(),
            j <= len,
            out@.len() == j,
            forall|q: int| 0 <= q < j ==> #[trigger] out@[q] == sum_of(a@, b@)[q],
        decreases len - j,
    {
        let x: u32 = if j < a.len() {
            a[j]
        } else {
            0
        };
        let y: u32 = if j < b.len() {
            b[j]
        } else {
            0
        };
        out.push(x ^ y);
        j += 1;
    }
    proof {
        assert(out@ =~= sum_of(a@, b@));
    }
    out
}

/// Computes the product of two polynomials.
pub fn poly_product(field: &GaloisField, a: &[u32], b: &[u32]) -> (out: Vec<u32>)
    requires
        field.wf(),
        is_poly(field.gf(), a@),
        is_poly(field.gf(), b@),
        a@.len() + b@.len() <= 0x7fff_ffff,
    ensures
        out@ == product_of(field.gf(), a@, b@),
        is_poly(field.gf(), out@),
{
    let ghost gf = field.gf();
    let mut out: Vec<u32> = Vec::new();
    if a.len() == 0 || b.len() == 0 {
        proof {
            assert(out@ =~= product_of(gf, a@, b@));
        }
        return out;
    }
    let len = a.len() + b.len() - 1;
    let mut n: usize = 0;
    proof {
        gf.lemma_size();
    }
    while n < len
        invariant
            field.wf(),
            gf == field.gf(),
            is_poly(gf, a@),
            is_poly(gf, b@),
            32 <= gf.size(),
            a@.len() >= 1,
            b@.len() >= 1,
            len == a@.len() + b@.len() - 1,
            len <= 0x7fff_ffff,
            n <= len,
            out@.len() == n,
            forall|q: int| 0 <= q < n ==> #[trigger] out@[q] == cross(gf, a@, b@, q, q + 1),
            is_poly(gf, out@),
        decreases len - n,
    {
        let mut acc: u32 = 0;
        let mut j: usize = 0;
        while j <= n
            invariant
                field.wf(),
                gf == field.gf(),
                is_poly(gf, a@),
                is_poly(gf, b@),
                n < 0x7fff_ffff,
                j <= n + 1,
                acc < gf.size(),
                acc == cross(gf, a@, b@, n as int, j as int),
            decreases n + 1 - j,
        {
            if j < a.len() && n - j < b.len() {
                let term = field.mul(a[j], b[n - j]);
                proof {
                    gf.lemma_times_alpha(acc, term);
                }
                acc = acc ^ term;
            } else {
                proof {
                    lemma_xor_self(acc);
                }
            }
            j += 1;
        }
        out.push(acc);
        n += 1;
    }
    proof {
        assert(out@ =~= product_of(gf, a@, b@));
    }
    out
}

/// Computes the product of the polynomial `c` and `x + r`.
pub fn poly_times_linear(field: &GaloisField, c: &Vec<u32>, r: u32) -> (out: Vec<u32>)
    requires
        field.wf(),
        r < field.gf().size(),
        1 <= c@.len() <= 32768,
        is_poly(field.gf(), c@),
    ensures
        out@ == times_linear(field.gf(), c@, r),
        is_poly(field.gf(), out@),
{
    let ghost gf = field.gf();
    let len = c.len();
    let mut out: Vec<u32> = Vec::new();
    let mut j: usize = 0;
    while j <= len
        invariant
            field.wf(),
            gf == field.gf(),
            r < gf.size(),
            len == c@.len(),
            1 <= len <= 32768,
            j <= len + 1,
            out@.len() == j,
            is_poly(gf, c@),
            forall|q: int| 0 <= q < j ==> #[trigger] out@[q] == times_linear(gf, c@, r)[q],
            is_poly(gf, out@),
        decreases len + 1 - j,
    {
        let lo: u32 = if j >= 1 {
            c[j - 1]
        } else {
            0
        };
        let hi: u32 = if j < len {
            field.mul(c[j], r)
        } else {
            0
        };
        proof {
            gf.lemma_size();
            gf.lemma_times_alpha(lo, hi);
        }
        out.push(lo ^ hi);
        j += 1;
    }
    proof {
        assert(out@ =~= times_linear(gf, c@, r));
    }
    out
}

/// Computes the formal derivative of a polynomial.
pub fn poly_derivative(c: &[u32]) -> (out: Vec<u32>)
    ensures
        out@ == derivative_of(c@),
{
    let mut out: Vec<u32> = Vec::new();
    let mut j: usize = 1;
    if c.len() == 0 {
        proof {
            assert(out@ =~= derivative_of(c@));
        }
        return out;
    }
    while j < c.len()
        invariant
            1 <= j <= c@.len(),
            out@.len() == j - 1,
            forall|q: int| 0 <= q < j - 1 ==> #[trigger] out@[q] == odd_part(q + 1, c@[q + 1]),
        decreases c@.len() - j,
    {
        out.push(
            if j % 2 == 1 {
                c[j]
            } else {
                0
            },
        );
        j += 1;
    }
    proof {
        assert(out@ =~= derivative_of(c@));
    }
    out
}

/// Divides `a` by `b`, whose highest coefficient is not zero: returns the
/// quotient and the remainder, which has fewer coefficients than `b`.
pub fn poly_divide(field: &GaloisField, a: &[u32], b: &[u32]) -> (out: (Vec<u32>, Vec<u32>))
    requires
        field.wf(),
        is_poly(field.gf(), a@),
        is_poly(field.gf(), b@),
        b@.len() >= 1,
        b@[b@.len() - 1] != 0,
        a@.len() + b@.len() <= 0x7fff_ffff,
    ensures
        is_poly(field.gf(), out.0@),
        is_poly(field.gf(), out.1@),
        out.0@.len() == (if a@.len() >= b@.len() {
            a@.len() - b@.len() + 1
        } else {
            0
        }),
        out.1@.len() == b@.len() - 1,
        divides_as(field.gf(), a@, b@, out.0@, out.1@),
{
    let ghost gf = field.gf();
    let db = b.len() - 1;
    let lead = b[db];
    let count = if a.len() >= b.len() {
        a.len() - db
    } else {
        0
    };
    let mut rem: Vec<u32> = Vec::new();
    let mut quo: Vec<u32> = Vec::new();
    let total = if a.len() >= db {
        a.len()
    } else {
        db
    };
    let mut z: usize = 0;
    while z < total
        invariant
            z <= total,
            rem@.len() == z,
            forall|q: int| 0 <= q < z ==> #[trigger] rem@[q] == coef(a@, q),
        decreases total - z,
    {
        rem.push(
            if z < a.len() {
                a[z]
            } else {
                0
            },
        );
        z += 1;
    }
    z = 0;
    while z < count
        invariant
            z <= count,
            quo@.len() == z,
            forall|q: int| 0 <= q < z ==> #[trigger] quo@[q] == 0,
        decreases count - z,
    {
        quo.push(0);
        z += 1;
    }
    proof {
        gf.lemma_size();
        assert forall|n: int| 0 <= n implies coef(a@, n) == #[trigger] cross(
            gf,
            quo@,
            b@,
            n,
            n + 1,
        ) ^ coef(rem@, n) by {
            lemma_cross_zero(gf, quo@, b@, n, n + 1);
            lemma_xor_self(coef(rem@, n));
        }
    }
    let mut i: usize = count;
    while i > 0
        invariant
            field.wf(),
            gf == field.gf(),
            32 <= gf.size(),
            is_poly(gf, a@),
            is_poly(gf, b@),
            db == b@.len() - 1,
            lead == b@[db as int],
            lead != 0,
            total <= 0x7fff_ffff,
            i <= count,
            count > 0 ==> total == count + db,
            rem@.len() == total,
            quo@.len() == count,
            is_poly(gf, rem@),
            is_poly(gf, quo@),
            forall|q: int| 0 <= q < i ==> #[trigger] quo@[q] == 0,
            count > 0 ==> forall|n: int| i + db <= n < total ==> #[trigger] rem@[n] == 0,
            divides_as(gf, a@, b@, quo@, rem@),
        decreases i,
    {
        i -= 1;
        let f = field.div(rem[i + db], lead);
        let ghost rem0 = rem@;
        let ghost quo0 = quo@;
        proof {
            gf.lemma_div_mul(rem0[i + db], lead);
        }
        quo[i] = f;
        let mut j: usize = 0;
        while j <= db
            invariant
                field.wf(),
                gf == field.gf(),
                is_poly(gf, b@),
                is_poly(gf, rem0),
                is_poly(gf, rem@),
                f < gf.size(),
                db == b@.len() - 1,
                i + db < total,
                total <= 0x7fff_ffff,
                j <= db + 1,
                rem@.len() == total,
                rem0.len() == total,
                forall|n: int|
                    0 <= n < total ==> #[trigger] rem@[n] == (if i <= n < i + j {
                        rem0[n] ^ gf.mul(f, b@[n - i])
                    } else {
                        rem0[n]
                    }),
            decreases db + 1 - j,
        {
            let term = field.mul(f, b[j]);
            let v = rem[i + j] ^ term;
            proof {
                gf.lemma_times_alpha(rem@[i + j], term);
            }
            rem[i + j] = v;
            j += 1;
        }
        proof {
            lemma_xor_self(0);
            assert(quo@ == quo0.update(i as int, f));
            assert forall|n: int| 0 <= n implies coef(a@, n) == #[trigger] cross(
                gf,
                quo@,
                b@,
                n,
                n + 1,
            ) ^ coef(rem@, n) by {
                lemma_cross_update(gf, quo0, b@, n, n + 1, i as int, f);
                let before = cross(gf, quo0, b@, n, n + 1);
                assert(coef(a@, n) == before ^ coef(rem0, n));
                if i <= n {
                    let delta = gf.mul(f, coef(b@, n - i));
                    if n <= i + db {
                        lemma_xor_swap(before, delta, coef(rem0, n), delta);
                        lemma_xor_self(delta);
                        lemma_xor_self(before ^ coef(rem0, n));
                    } else {
                        lemma_xor_self(before);
                    }
                } else {
                    lemma_xor_self(before);
                }
            }
            assert(rem@[i + db] == 0) by {
                gf.lemma_mul_closed(f, lead);
                lemma_xor_self(rem0[i + db]);
            }
        }
    }
    let mut r: Vec<u32> = Vec::new();
    z = 0;
    while z < db
        invariant
            z <= db,
            db <= rem@.len(),
            r@.len() == z,
            forall|q: int| 0 <= q < z ==> #[trigger] r@[q] == rem@[q],
        decreases db - z,
    {
        r.push(rem[z]);
        z += 1;
    }
    proof {
        assert forall|n: int| 0 <= n implies coef(a@, n) == #[trigger] cross(
            gf,
            quo@,
            b@,
            n,
            n + 1,
        ) ^ coef(r@, n) by {
            assert(coef(a@, n) == cross(gf, quo@, b@, n, n + 1) ^ coef(rem@, n));
            if db <= n < total {
                if count > 0 {
                    assert(rem@[n] == 0);
                } else {
                    assert(rem@[n] == coef(a@, n));
                }
            }
        }
    }
    (quo, r)
}

/// Without coefficients in the first factor the sum is zero.
pub proof fn lemma_cross_zero(gf: Gf, q: Seq<u32>, b: Seq<u32>, n: int, upto: int)
    requires
        forall|j: int| 0 <= j < q.len() ==> #[trigger] q[j] == 0,
    ensures
        cross(gf, q, b, n, upto) == 0,
    decreases upto,
{
    lemma_xor_self(0);
    if upto > 0 {
        lemma_cross_zero(gf, q, b, n, upto - 1);
        assert(coef(q, upto - 1) == 0);
    }
}

} // verus!
