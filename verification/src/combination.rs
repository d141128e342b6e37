//! Strategies for combining weights.
use vstd::prelude::*;

use crate::rounding::INFINITE_MAGNITUDE;
use crate::weight::{
    larger_weight, signed, smaller_weight, weight_of_count, weight_product, weight_quotient,
    weight_sum, Weight, ONE_BITS, SIGN_BIT,
};

verus! {

/// Weight combination strategies for transformations
#[derive(Debug, Clone, Copy, PartialEq, Eq, Structural)]
pub enum WeightCombination {
    /// Add weights together
    Add,
    /// Multiply weights
    Multiply,
    /// Take the maximum weight
    Max,
    /// Take the minimum weight
    Min,
    /// Take the average weight
    Average,
}

impl Default for WeightCombination {
    /// Weights are added together unless another strategy is chosen.
    fn default() -> (strategy: Self)
        ensures
            strategy == WeightCombination::Add,
    {
        WeightCombination::Add
    }
}

pub open spec fn zero() -> Weight {
    signed(false, 0)
}

/// The weights added to `start` one after the other.
pub open spec fn sum_onto(start: Weight, weights: Seq<Weight>) -> Weight {
    weights.fold_left(start, |total: Weight, weight: Weight| weight_sum(total, weight))
}

/// The sum of the weights. Minus zero is the weight that changes no sum.
pub open spec fn sum_of(weights: Seq<Weight>) -> Weight {
    sum_onto(signed(true, 0), weights)
}

/// The product of the weights, taken one after the other.
pub open spec fn product_of(weights: Seq<Weight>) -> Weight {
    weights.fold_left(
        Weight { bits: ONE_BITS },
        |total: Weight, weight: Weight| weight_product(total, weight),
    )
}

/// The largest of the weights that are numbers, minus infinity where there is none.
pub open spec fn largest_of(weights: Seq<Weight>) -> Weight {
    weights.fold_left(
        signed(true, INFINITE_MAGNITUDE as nat),
        |largest: Weight, weight: Weight| larger_weight(largest, weight),
    )
}

/// The smallest of the weights that are numbers, infinity where there is none.
pub open spec fn smallest_of(weights: Seq<Weight>) -> Weight {
    weights.fold_left(
        signed(false, INFINITE_MAGNITUDE as nat),
        |smallest: Weight, weight: Weight| smaller_weight(smallest, weight),
    )
}

/// What a strategy makes of some weights: zero where there are none.
pub open spec fn combined(strategy: WeightCombination, weights: Seq<Weight>) -> Weight {
    if weights.len() == 0 {
        zero()
    } else {
        match strategy {
            WeightCombination::Add => sum_of(weights),
            WeightCombination::Multiply => product_of(weights),
            WeightCombination::Max => largest_of(weights),
            WeightCombination::Min => smallest_of(weights),
            WeightCombination::Average => weight_quotient(
                sum_of(weights),
                weight_of_count(weights.len()),
            ),
        }
    }
}

/// One more weight of a fold.
pub proof fn lemma_fold_step(
    weights: Seq<Weight>,
    i: int,
    start: Weight,
    f: spec_fn(Weight, Weight) -> Weight,
)
    requires
        0 <= i < weights.len(),
    ensures
        weights.take(i + 1).fold_left(start, f) == f(
            weights.take(i).fold_left(start, f),
            weights[i],
        ),
{
    assert(weights.take(i + 1).drop_last() =~= weights.take(i));
}

/// Adds the weights together.
fn add_up(weights: &[Weight]) -> (sum: Weight)
    ensures
        sum == sum_of(weights@),
{
    let mut sum: Weight = Weight { bits: SIGN_BIT };
    let mut i: usize = 0;
    let ghost f = |total: Weight, weight: Weight| weight_sum(total, weight);
    let ghost start = signed(true, 0);
    while i < weights.len()
        invariant
            i <= weights.len(),
            f == |total: Weight, weight: Weight| weight_sum(total, weight),
            sum == weights@.take(i as int).fold_left(start, f),
        decreases weights.len() - i,
    {
        proof {
            lemma_fold_step(weights@, i as int, start, f);
        }
        sum = sum.plus(weights[i]);
        i = i + 1;
    }
    assert(weights@.take(i as int) =~= weights@);
    sum
}

/// Multiplies the weights together.
fn multiply_up(weights: &[Weight]) -> (product: Weight)
    ensures
        product == product_of(weights@),
{
    let mut product: Weight = Weight { bits: ONE_BITS };
    let mut i: usize = 0;
    let ghost f = |total: Weight, weight: Weight| weight_product(total, weight);
    let ghost start = Weight { bits: ONE_BITS };
    while i < weights.len()
        invariant
            i <= weights.len(),
            f == |total: Weight, weight: Weight| weight_product(total, weight),
            product == weights@.take(i as int).fold_left(start, f),
        decreases weights.len() - i,
    {
        proof {
            lemma_fold_step(weights@, i as int, start, f);
        }
        product = product.times(weights[i]);
        i = i + 1;
    }
    assert(weights@.take(i as int) =~= weights@);
    product
}

/// Takes the largest of the weights.
fn largest(weights: &[Weight]) -> (largest: Weight)
    ensures
        largest == largest_of(weights@),
{
    let mut largest: Weight = Weight { bits: SIGN_BIT + INFINITE_MAGNITUDE };
    let mut i: usize = 0;
    let ghost f = |best: Weight, weight: Weight| larger_weight(best, weight);
    let ghost start = signed(true, INFINITE_MAGNITUDE as nat);
    while i < weights.len()
        invariant
            i <= weights.len(),
            f == |best: Weight, weight: Weight| larger_weight(best, weight),
            largest == weights@.take(i as int).fold_left(start, f),
        decreases weights.len() - i,
    {
        proof {
            lemma_fold_step(weights@, i as int, start, f);
        }
        largest = largest.larger(weights[i]);
        i = i + 1;
    }
    assert(weights@.take(i as int) =~= weights@);
    largest
}

/// Takes the smallest of the weights.
fn smallest(weights: &[Weight]) -> (smallest: Weight)
    ensures
        smallest == smallest_of(weights@),
{
    let mut smallest: Weight = Weight { bits: INFINITE_MAGNITUDE };
    let mut i: usize = 0;
    let ghost f = |best: Weight, weight: Weight| smaller_weight(best, weight);
    let ghost start = signed(false, INFINITE_MAGNITUDE as nat);
    while i < weights.len()
        invariant
            i <= weights.len(),
            f == |best: Weight, weight: Weight| smaller_weight(best, weight),
            smallest == weights@.take(i as int).fold_left(start, f),
        decreases weights.len() - i,
    {
        proof {
            lemma_fold_step(weights@, i as int, start, f);
        }
        smallest = smallest.smaller(weights[i]);
        i = i + 1;
    }
    assert(weights@.take(i as int) =~= weights@);
    smallest
}

impl WeightCombination {
    /// Combines weights according to the strategy.
    pub fn combine(self, weights: &[Weight]) -> (weight: Weight)
        ensures
            weight == combined(self, weights@),
    {
        if weights.len() == 0 {
            return Weight { bits: 0 };
        }
        match self {
            WeightCombination::Add => add_up(weights),
            WeightCombination::Multiply => multiply_up(weights),
            WeightCombination::Max => largest(weights),
            WeightCombination::Min => smallest(weights),
            WeightCombination::Average => add_up(weights).divided_by(
                Weight::from_count(weights.len() as u64),
            ),
        }
    }
}

}
