//! Random draws, made by the `rand` crate from the generator of the
//! current thread.
//!
//! Nothing in this file is proved: the contracts state what holds of every
//! value that a draw can give.

use crate::regex::alphabet::Alphabet;
use vstd::prelude::*;

verus! {

/// The weights added up.
pub open spec fn total_weight(weights: Seq<u32>) -> int
    decreases weights.len(),
{
    if weights.len() == 0 {
        0
    } else {
        total_weight(weights.drop_last()) + weights.last()
    }
}

/// `Rng::gen_ratio` of the `rand` crate: `true` with the probability
/// `numerator / denominator`. The crate refuses a denominator of 0 and a
/// numerator above the denominator.
#[verifier::external_body]
pub(crate) fn random_ratio(numerator: u32, denominator: u32) -> (r: bool)
    requires
        0 < denominator,
        numerator <= denominator,
    ensures
        numerator == denominator ==> r,
        numerator == 0 ==> !r,
{
    ::rand::Rng::gen_ratio(&mut ::rand::thread_rng(), numerator, denominator)
}

/// `Uniform::new(0, bound)` of the `rand` crate, sampled once: a number
/// below `bound`, each with the same probability. The crate refuses an
/// empty range.
#[verifier::external_body]
pub(crate) fn random_below(bound: u8) -> (r: u8)
    requires
        0 < bound,
    ensures
        r < bound,
{
    let range = ::rand::distributions::Uniform::new(0u8, bound);
    ::rand::distributions::Distribution::sample(&range, &mut ::rand::thread_rng())
}

/// `WeightedIndex::new` of the `rand` crate, sampled once: an index of
/// `weights`, each with a probability in proportion to its weight, so that
/// an index of weight 0 is never drawn. The crate refuses an empty list and
/// one of weights that are all 0, and it adds the weights up in a `u32`.
#[verifier::external_body]
pub(crate) fn random_index(weights: &Vec<u32>) -> (r: usize)
    requires
        0 < total_weight(weights@) <= u32::MAX,
    ensures
        r < weights@.len(),
        weights@[r as int] > 0,
{
    let choice = ::rand::distributions::WeightedIndex::new(weights).unwrap();
    ::rand::distributions::Distribution::sample(&choice, &mut ::rand::thread_rng())
}

/// `Slice::new` of the `rand` crate, sampled once: one of the letters of
/// the list, each place of it with the same probability. The crate refuses
/// an empty list.
#[verifier::external_body]
pub(crate) fn random_letter(letters: &Vec<Alphabet>) -> (r: Alphabet)
    requires
        letters@.len() > 0,
    ensures
        letters@.contains(r),
{
    let choice = ::rand::distributions::Slice::new(letters).unwrap();
    *::rand::distributions::Distribution::sample(&choice, &mut ::rand::thread_rng())
}

} // verus!
