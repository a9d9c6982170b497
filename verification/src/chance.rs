//! The source of chance of the genetic search.

use rand::distributions::{Distribution, Weighted, WeightedChoice};
use rand::rngs::ThreadRng;
use rand::Rng;
use vstd::prelude::*;

verus! {

/// The random number generator of a thread (`rand::rngs::ThreadRng`). The
/// solver carries it along; nothing is known of what it holds.
#[verifier::external_type_specification]
#[verifier::external_body]
pub struct ExThreadRng(ThreadRng);

/// The sum of the weights.
pub open spec fn total_weight(w: Seq<u32>) -> int
    decreases w.len(),
{
    if w.len() == 0 {
        0
    } else {
        total_weight(w.drop_last()) + w.last()
    }
}

/// The random number generator of the running thread (`rand::thread_rng`),
/// which is seeded by the system. Nothing is known of the numbers it will
/// give.
#[verifier::external_body]
pub(crate) fn new_rng() -> ThreadRng {
    rand::thread_rng()
}

/// A random byte (`Rng::gen`). Any byte may come.
#[verifier::external_body]
pub(crate) fn random_gene(rng: &mut ThreadRng) -> u8 {
    rng.gen()
}

/// A random number from `low` up to, but not including, `high`
/// (`Rng::gen_range`, which needs `low < high`).
#[verifier::external_body]
pub(crate) fn random_below(rng: &mut ThreadRng, low: usize, high: usize) -> (r: usize)
    requires
        low < high,
    ensures
        low <= r < high,
{
    rng.gen_range(low, high)
}

/// A random place in `weights`, each place being the likelier the greater
/// its weight (`WeightedChoice::new` and `sample`). The list must not be
/// empty, and the sum of the weights must be more than 0 and fit in 32 bits.
/// The place that comes has a weight of more than 0.
#[verifier::external_body]
pub(crate) fn random_weighted(rng: &mut ThreadRng, weights: &Vec<u32>) -> (r: usize)
    requires
        weights@.len() > 0,
        0 < total_weight(weights@) <= u32::MAX,
    ensures
        r < weights@.len(),
        weights@[r as int] > 0,
{
    let mut items: Vec<Weighted<usize>> =
        weights.iter().enumerate().map(|(i, w)| Weighted { weight: *w, item: i }).collect();
    WeightedChoice::new(&mut items).sample(rng)
}

} // verus!
