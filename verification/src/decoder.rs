//! Location of bit errors: syndromes, error-locator polynomial, and search
//! for its roots.

use vstd::prelude::*;
use crate::field::Gf;
use crate::field::GaloisField;
use crate::locator::locator;
use crate::locator::locator_degree;
use crate::locator::solve_locator;
use crate::roots::error_positions;
use crate::roots::find_errors;
use crate::syndrome::all_zero;
use crate::syndrome::compute_syndromes;
use crate::syndrome::is_clean;
use crate::syndrome::syndromes;

verus! {

/// What decoding finds in `word` with capability `t`: the positions of the
/// bits in error, in ascending order, or `None` for a word that cannot be
/// corrected. A word whose syndromes are all zero has no error. Otherwise
/// the word can be corrected if the degree of its locator is at most `t` and
/// the locator marks exactly as many positions as its degree.
pub open spec fn located(gf: Gf, t: nat, word: Seq<u8>) -> Option<Seq<u32>> {
    let syn = syndromes(gf, word, 2 * t);
    if all_zero(syn) {
        Some(Seq::empty())
    } else {
        let sigma = locator(gf, syn, t);
        let deg = locator_degree(gf, syn, t);
        let found = error_positions(gf, sigma, deg, word.len(), word.len());
        if deg <= t && found.len() == deg {
            Some(found)
        } else {
            None
        }
    }
}

/// Locates the errors in the word made of `msg` followed by `ecc`.
pub fn locate(field: &GaloisField, t: u32, msg: &[u8], ecc: &[u8]) -> (r: Option<Vec<u32>>)
    requires
        field.wf(),
        1 <= t <= 32767,
        msg@.len() + ecc@.len() <= field.gf().order(),
    ensures
        match located(field.gf(), t as nat, msg@ + ecc@) {
            Some(p) => r.is_some() && r.unwrap()@ == p && p.len() <= t,
            None => r.is_none(),
        },
{
    let syn = compute_syndromes(field, msg, ecc, t);
    if is_clean(&syn) {
        return Some(Vec::new());
    }
    let (sigma, deg) = solve_locator(field, &syn, t);
    if deg > t as usize {
        return None;
    }
    let len = msg.len() + ecc.len();
    let found = find_errors(field, &sigma, deg, len);
    if found.len() == deg {
        Some(found)
    } else {
        None
    }
}

} // verus!
