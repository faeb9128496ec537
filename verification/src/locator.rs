//! The error-locator polynomial, by the Berlekamp-Massey iteration in the
//! form that binary codes allow: one step for every second syndrome.

use vstd::prelude::*;
use crate::field::Gf;
use crate::field::GaloisField;

verus! {

/// The state of the iteration. Polynomials hold the coefficient of `x^j` at
/// index `j`; a degree is the one the iteration accounts for, and the
/// coefficient at it may be zero.
pub struct Iteration {
    /// The locator polynomial so far.
    pub elp: Seq<u32>,
    pub deg: nat,
    /// The locator polynomial before the last step that raised the degree.
    pub prev: Seq<u32>,
    pub prev_deg: nat,
    /// The discrepancy at that step.
    pub prev_d: u32,
    /// Twice the number of that step, or -1 before the first.
    pub prev_at: int,
    /// The discrepancy that the next step has to remove.
    pub d: u32,
}

/// The state before the first step, for `2t` syndromes.
pub open spec fn start(syn: Seq<u32>, t: nat) -> Iteration {
    let one = Seq::new(
        2 * t + 1,
        |j: int|
            if j == 0 {
                1u32
            } else {
                0u32
            },
    );
    Iteration { elp: one, deg: 0, prev: one, prev_deg: 0, prev_d: 1, prev_at: -1, d: syn[0] }
}

/// The discrepancy at the syndrome of index `at`, summed over the locator's
/// coefficients up to `upto`.
pub open spec fn discrepancy(gf: Gf, syn: Seq<u32>, elp: Seq<u32>, at: int, upto: nat) -> u32
    decreases upto,
{
    if upto == 0 {
        syn[at]
    } else {
        discrepancy(gf, syn, elp, at, (upto - 1) as nat) ^ gf.mul(elp[upto as int], syn[at - upto])
    }
}

/// The locator after the correction of step `i`: a multiple of the earlier
/// polynomial, shifted up, is added to remove the discrepancy.
pub open spec fn corrected(gf: Gf, s: Iteration, i: nat) -> Seq<u32> {
    let k = 2 * i - s.prev_at;
    let scale = gf.div(s.d, s.prev_d);
    Seq::new(
        s.elp.len(),
        |j: int|
            if k <= j <= s.prev_deg + k {
                s.elp[j] ^ gf.mul(scale, s.prev[j - k])
            } else {
                s.elp[j]
            },
    )
}

/// The state after the correction of step `i`, for a nonzero discrepancy.
pub open spec fn correct_step(gf: Gf, s: Iteration, i: nat) -> Iteration {
    let k = 2 * i - s.prev_at;
    if s.prev_deg + k > s.deg {
        Iteration {
            elp: corrected(gf, s, i),
            deg: (s.prev_deg + k) as nat,
            prev: s.elp,
            prev_deg: s.deg,
            prev_d: s.d,
            prev_at: 2 * i as int,
            d: s.d,
        }
    } else {
        Iteration { elp: corrected(gf, s, i), ..s }
    }
}

/// Step `i` of the iteration: the correction, where the discrepancy is not
/// zero, and the discrepancy for the step that follows.
pub open spec fn step(gf: Gf, syn: Seq<u32>, t: nat, s: Iteration, i: nat) -> Iteration {
    let u = if s.d != 0 {
        correct_step(gf, s, i)
    } else {
        s
    };
    if i + 1 < t {
        Iteration { d: discrepancy(gf, syn, u.elp, 2 * i as int + 2, u.deg), ..u }
    } else {
        u
    }
}

/// The state after `i` steps. The iteration stops where the degree has
/// passed `t`.
pub open spec fn run(gf: Gf, syn: Seq<u32>, t: nat, i: nat) -> Iteration
    decreases i,
{
    if i == 0 {
        start(syn, t)
    } else {
        let s = run(gf, syn, t, (i - 1) as nat);
        if s.deg > t {
            s
        } else {
            step(gf, syn, t, s, (i - 1) as nat)
        }
    }
}

/// The error-locator polynomial of the `2t` syndromes `syn`.
pub open spec fn locator(gf: Gf, syn: Seq<u32>, t: nat) -> Seq<u32> {
    run(gf, syn, t, t).elp
}

/// The degree of the error-locator polynomial: the number of errors it
/// stands for.
pub open spec fn locator_degree(gf: Gf, syn: Seq<u32>, t: nat) -> nat {
    run(gf, syn, t, t).deg
}

proof fn lemma_run_stopped(gf: Gf, syn: Seq<u32>, t: nat, i: nat, j: nat)
    requires
        i <= j,
        run(gf, syn, t, i).deg > t,
    ensures
        run(gf, syn, t, j) == run(gf, syn, t, i),
    decreases j,
{
    if i < j {
        lemma_run_stopped(gf, syn, t, i, (j - 1) as nat);
    }
}

fn filled(len: usize, first: u32) -> (v: Vec<u32>)
    requires
        len >= 1,
    ensures
        v@.len() == len,
        v@[0] == first,
        forall|j: int| 1 <= j < len ==> #[trigger] v@[j] == 0,
{
    let mut v: Vec<u32> = Vec::new();
    v.push(first);
    let mut j: usize = 1;
    while j < len
        invariant
            1 <= j <= len,
            v@.len() == j,
            v@[0] == first,
            forall|q: int| 1 <= q < j ==> #[trigger] v@[q] == 0,
        decreases len - j,
    {
        v.push(0);
        j += 1;
    }
    v
}

fn copy_of(src: &Vec<u32>) -> (v: Vec<u32>)
    ensures
        v@ == src@,
{
    let mut v: Vec<u32> = Vec::new();
    let mut j: usize = 0;
    while j < src.len()
        invariant
            j <= src@.len(),
            v@.len() == j,
            forall|q: int| 0 <= q < j ==> #[trigger] v@[q] == src@[q],
        decreases src@.len() - j,
    {
        v.push(src[j]);
        j += 1;
    }
    proof {
        assert(v@ =~= src@);
    }
    v
}

/// Computes the error-locator polynomial of the syndromes `syn` and its
/// degree.
pub fn solve_locator(field: &GaloisField, syn: &Vec<u32>, t: u32) -> (r: (Vec<u32>, usize))
    requires
        field.wf(),
        1 <= t <= 32767,
        syn@.len() == 2 * t,
        forall|j: int| 0 <= j < syn@.len() ==> #[trigger] syn@[j] < field.gf().size(),
    ensures
        r.0@ == locator(field.gf(), syn@, t as nat),
        r.1 == locator_degree(field.gf(), syn@, t as nat),
        r.0@.len() == 2 * t + 1,
        r.1 <= 2 * t,
        forall|j: int| 0 <= j < r.0@.len() ==> #[trigger] r.0@[j] < field.gf().size(),
{
    let ghost gf = field.gf();
    let tt = t as usize;
    let len = 2 * tt + 1;
    let mut elp = filled(len, 1);
    let mut prev = filled(len, 1);
    let mut deg: usize = 0;
    let mut prev_deg: usize = 0;
    let mut prev_d: u32 = 1;
    let mut prev_at: i64 = -1;
    let mut d: u32 = syn[0];
    let mut i: usize = 0;
    proof {
        gf.lemma_size();
        assert(elp@ =~= start(syn@, t as nat).elp);
        assert(prev@ =~= start(syn@, t as nat).prev);
    }
    while i < tt && deg <= tt
        invariant
            field.wf(),
            gf == field.gf(),
            32 <= gf.size(),
            tt == t,
            1 <= t <= 32767,
            len == 2 * tt + 1,
            syn@.len() == 2 * t,
            forall|j: int| 0 <= j < syn@.len() ==> #[trigger] syn@[j] < gf.size(),
            i <= tt,
            elp@ == run(gf, syn@, t as nat, i as nat).elp,
            prev@ == run(gf, syn@, t as nat, i as nat).prev,
            deg == run(gf, syn@, t as nat, i as nat).deg,
            prev_deg == run(gf, syn@, t as nat, i as nat).prev_deg,
            prev_d == run(gf, syn@, t as nat, i as nat).prev_d,
            prev_at == run(gf, syn@, t as nat, i as nat).prev_at,
            d == run(gf, syn@, t as nat, i as nat).d,
            elp@.len() == len,
            prev@.len() == len,
            deg <= 2 * i,
            -1 <= prev_at <= 2 * i - 1,
            prev_deg <= prev_at + 1,
            0 < prev_d < gf.size(),
            d < gf.size(),
            forall|j: int| 0 <= j < len ==> #[trigger] elp@[j] < gf.size(),
            forall|j: int| 0 <= j < len ==> #[trigger] prev@[j] < gf.size(),
        decreases tt - i,
    {
        let ghost s = run(gf, syn@, t as nat, i as nat);
        if d != 0 {
            let k: usize = (2 * (i as i64) - prev_at) as usize;
            let scale = field.div(d, prev_d);
            let saved = copy_of(&elp);
            let mut j: usize = 0;
            while j <= prev_deg
                invariant
                    field.wf(),
                    gf == field.gf(),
                    scale < gf.size(),
                    j <= prev_deg + 1,
                    k + prev_deg < len,
                    elp@.len() == len,
                    prev@.len() == len,
                    saved@.len() == len,
                    forall|q: int| 0 <= q < len ==> #[trigger] prev@[q] < gf.size(),
                    forall|q: int| 0 <= q < len ==> #[trigger] saved@[q] < gf.size(),
                    forall|q: int| 0 <= q < len ==> #[trigger] elp@[q] < gf.size(),
                    forall|q: int|
                        0 <= q < len ==> #[trigger] elp@[q] == (if k <= q < k + j {
                            saved@[q] ^ gf.mul(scale, prev@[q - k])
                        } else {
                            saved@[q]
                        }),
                decreases prev_deg + 1 - j,
            {
                let c = field.mul(scale, prev[j]);
                let v = elp[j + k] ^ c;
                proof {
                    gf.lemma_times_alpha(elp@[j + k], c);
                }
                elp[j + k] = v;
                j += 1;
            }
            proof {
                assert(elp@ =~= corrected(gf, s, i as nat));
            }
            if prev_deg + k > deg {
                let raised = prev_deg + k;
                prev = saved;
                prev_deg = deg;
                deg = raised;
                prev_d = d;
                prev_at = 2 * (i as i64);
            }
        }
        let ghost u = if s.d != 0 {
            correct_step(gf, s, i as nat)
        } else {
            s
        };
        assert(elp@ == u.elp && deg == u.deg && prev@ == u.prev && prev_deg == u.prev_deg && prev_d
            == u.prev_d && prev_at == u.prev_at);
        if i + 1 < tt {
            let at = 2 * i + 2;
            let mut acc = syn[at];
            let mut j: usize = 1;
            while j <= deg
                invariant
                    field.wf(),
                    gf == field.gf(),
                    1 <= j <= deg + 1,
                    deg <= 2 * i + 1,
                    at == 2 * i + 2,
                    at < syn@.len(),
                    deg < len,
                    elp@.len() == len,
                    forall|q: int| 0 <= q < syn@.len() ==> #[trigger] syn@[q] < gf.size(),
                    forall|q: int| 0 <= q < len ==> #[trigger] elp@[q] < gf.size(),
                    acc < gf.size(),
                    acc == discrepancy(gf, syn@, elp@, at as int, (j - 1) as nat),
                decreases deg + 1 - j,
            {
                let c = field.mul(elp[j], syn[at - j]);
                proof {
                    gf.lemma_times_alpha(acc, c);
                }
                acc = acc ^ c;
                j += 1;
            }
            d = acc;
        }
        i += 1;
    }
    proof {
        if i < tt {
            lemma_run_stopped(gf, syn@, t as nat, i as nat, t as nat);
        }
    }
    (elp, deg)
}

} // verus!
