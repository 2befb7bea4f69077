//! The random source of the solvers: `rand::rngs::StdRng`.
//!
//! The generator is opaque to the verifier, and what it returns depends on
//! its seed and on what was drawn before. The two draws the solvers make go
//! through one small function each, whose contract states only what holds
//! of every outcome. Nothing in the first half of this file is proved; the
//! choice of a tile in the second half is proved from it.

use crate::rules::{sum_of, sum_to};
use rand::Rng;
use rand::distr::Distribution;
use rand::distr::weighted::WeightedIndex;
use rand::rngs::StdRng;
use vstd::prelude::*;

verus! {

/// Makes `rand::rngs::StdRng` known to the verifier as a type whose inside
/// it does not see.
#[verifier::external_type_specification]
#[verifier::external_body]
pub struct ExStdRng(StdRng);

/// `Rng::random_range` over `0..n`: a number below `n`. The outside
/// function panics on an empty range, so `n` must not be zero.
#[verifier::external_body]
pub(crate) fn draw_below(rng: &mut StdRng, n: usize) -> (r: usize)
    requires
        n > 0,
    ensures
        r < n,
{
    rng.random_range(0..n)
}

/// `WeightedIndex::new` on the weights and one `sample` of the result: an
/// index into the weights, or `None` where the outside crate makes no
/// distribution of them, which is where there is no weight, where all are
/// zero, or where their sum overflows. The outside function draws a number
/// below the sum and returns the first index whose running sum exceeds it,
/// so the weight at the index it returns is never zero.
#[verifier::external_body]
pub(crate) fn draw_weighted(rng: &mut StdRng, weights: &Vec<usize>) -> (r: Option<usize>)
    ensures
        r matches Some(i) ==> i < weights@.len() && weights@[i as int] > 0,
        r.is_none() <==> weights@.len() == 0 || sum_of(weights@) == 0 || sum_of(weights@)
            > usize::MAX,
{
    match WeightedIndex::new(weights) {
        Ok(table) => Some(table.sample(rng)),
        Err(_) => None,
    }
}

/// Whether every entry of `weights` is zero.
fn all_zero(weights: &Vec<usize>) -> (r: bool)
    ensures
        r == (forall|i: int| 0 <= i < weights@.len() ==> weights@[i] == 0),
{
    let mut i: usize = 0;
    while i < weights.len()
        invariant
            i <= weights.len(),
            forall|k: int| 0 <= k < i ==> weights@[k] == 0,
        decreases weights.len() - i,
    {
        if weights[i] != 0 {
            return false;
        }
        i += 1;
    }
    true
}

/// A sum is zero only where every entry is zero.
proof fn lemma_zero_sum(weights: Seq<usize>, k: int)
    requires
        0 <= k <= weights.len(),
        forall|i: int| 0 <= i < k ==> weights[i] == 0,
    ensures
        sum_to(weights, k) == 0,
    decreases k,
{
    if k > 0 {
        lemma_zero_sum(weights, k - 1);
    }
}

/// Draws an index into a non-empty list of weights: in proportion to the
/// weights where the outside crate makes a distribution of them, and
/// uniformly where it does not, as where all weights are zero.
///
/// Where the sum of the weights is positive and fits a machine word, the
/// draw is weighted, and an entry of weight zero is never drawn.
pub fn sample_index(rng: &mut StdRng, weights: &Vec<usize>) -> (r: usize)
    requires
        weights@.len() > 0,
    ensures
        r < weights@.len(),
        0 < sum_of(weights@) <= usize::MAX ==> weights@[r as int] > 0,
{
    if all_zero(weights) {
        proof {
            lemma_zero_sum(weights@, weights@.len() as int);
        }
        draw_below(rng, weights.len())
    } else {
        match draw_weighted(rng, weights) {
            Some(i) => i,
            None => draw_below(rng, weights.len()),
        }
    }
}

} // verus!
