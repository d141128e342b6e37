//! What the arithmetic of weights computes, in terms of the numbers that weights stand for.
//!
//! Numbers are counted in units of two to the power of minus 1074, the smallest positive
//! weight. Each law on rounding compares a result with any other finite weight.
use vstd::arithmetic::div_mod::lemma_fundamental_div_mod_converse;
use vstd::arithmetic::mul::lemma_mul_is_associative;
use vstd::arithmetic::power2::{
    lemma2_to64, lemma2_to64_rest, lemma_pow2_adds, lemma_pow2_pos, lemma_pow2_strictly_increases,
    lemma_pow2_unfold, pow2,
};
use vstd::math::abs;
use vstd::prelude::*;

use crate::combination::{combined, WeightCombination};
use crate::rounding::{
    lemma_nearest_common_factor, lemma_significand_powers, nearest, units, IMPLICIT_BIT,
    INFINITE_MAGNITUDE,
};
use crate::weight::{
    larger_weight, lemma_units_of_zero, signed, smaller_weight, weight_of_count, weight_product,
    weight_quotient, weight_sum, Weight, SIGN_BIT,
};
use crate::weight_laws::{
    distance, law_exact_results_are_kept, law_overflow_goes_to_infinity, law_rank_orders_values,
    law_rounding_is_nearest, law_ties_go_to_even, lemma_units_of,
};

verus! {

/// What a bit pattern stands for: its sign, its exponent field and its fraction field make
/// an infinity, no number, or a number of units.
pub proof fn law_what_bit_patterns_stand_for(
    weight: Weight,
    negative: bool,
    exponent: nat,
    fraction: nat,
)
    requires
        exponent <= 2047,
        fraction < pow2(52),
        weight.bits == (if negative {
            pow2(63)
        } else {
            0
        }) + exponent * pow2(52) + fraction,
    ensures
        weight.negative() == negative,
        weight.is_finite() == (exponent < 2047),
        weight.is_infinite() == (exponent == 2047 && fraction == 0),
        weight.is_nan() == (exponent == 2047 && fraction != 0),
        weight.is_finite() ==> weight.value() == (if negative {
            -1int
        } else {
            1int
        }) * (if exponent == 0 {
            fraction
        } else {
            (pow2(52) + fraction) * pow2((exponent - 1) as nat)
        }),
{
    lemma_significand_powers();
    lemma2_to64_rest();
    let magnitude = exponent * pow2(52) + fraction;
    lemma_fundamental_div_mod_converse(
        magnitude as int,
        IMPLICIT_BIT as int,
        exponent as int,
        fraction as int,
    );
    assert(magnitude < SIGN_BIT);
    assert(weight.magnitude() == magnitude);
    let u = units(magnitude) as int;
    assert(-1int * u == -u && 1int * u == u);
}

/// A weight times `den`, by its sign and its magnitude.
proof fn lemma_value_times(weight: Weight, den: nat)
    ensures
        weight.value() * den == if weight.negative() {
            -((units(weight.magnitude()) * den) as int)
        } else {
            (units(weight.magnitude()) * den) as int
        },
        weight.value() == 0 <==> weight.magnitude() == 0,
{
    let u = units(weight.magnitude());
    lemma_units_of_zero(weight.magnitude());
    assert(-(u as int) * den == -(u * den)) by (nonlinear_arith);
}

/// What holds of a quotient that is rounded and given a sign.
proof fn lemma_rounded(num: nat, den: nat, negative: bool, other: Weight)
    requires
        den > 0,
        other.is_finite(),
    ensures
        ({
            let rounded = signed(negative, nearest(num, den));
            let exact: int = if negative {
                -(num as int)
            } else {
                num as int
            };
            let off = abs(rounded.value() * den - exact);
            let other_off = abs(other.value() * den - exact);
            &&& rounded.negative() == negative
            &&& rounded.magnitude() == nearest(num, den)
            &&& !rounded.is_nan()
            &&& rounded.is_infinite() <==> 2 * num >= ((pow2(54) - 1) * pow2(2045)) * den
            &&& rounded.is_finite() ==> off <= other_off
            &&& rounded.is_finite() && off == other_off && other.value() != rounded.value()
                ==> rounded.bits % 2 == 0
            &&& other.value() * den == exact ==> rounded.is_finite() && rounded.value()
                == other.value()
        }),
{
    let magnitude = nearest(num, den);
    let rounded = signed(negative, magnitude);
    let m = other.magnitude();
    assert(rounded.negative() == negative && rounded.magnitude() == magnitude);
    lemma_value_times(rounded, den);
    lemma_value_times(other, den);
    lemma_units_of_zero(0);
    lemma_units_of_zero(m);
    assert(0 * den == 0);
    lemma_significand_powers();
    law_overflow_goes_to_infinity(num, den);
    lemma_limit();
    if rounded.is_finite() {
        law_rounding_is_nearest(num, den, m);
        law_rounding_is_nearest(num, den, 0);
        if m != magnitude && distance(units(magnitude) * den, num) == distance(
            units(m) * den,
            num,
        ) {
            law_ties_go_to_even(num, den, m);
        }
        if 0 != magnitude && distance(units(magnitude) * den, num) == distance(0, num) {
            law_ties_go_to_even(num, den, 0);
        }
        let um = units(m);
        assert(um * den >= 0 && (um > 0 ==> um * den > 0)) by (nonlinear_arith)
            requires
                den > 0,
                um >= 0,
        ;
    }
    let exact: int = if negative {
        -(num as int)
    } else {
        num as int
    };
    if other.value() * den == exact {
        let um = units(m);
        assert(um * den >= 0 && (um > 0 ==> um * den > 0)) by (nonlinear_arith)
            requires
                den > 0,
                um >= 0,
        ;
        assert(um * den == num);
        lemma_nearest_common_factor(um, 1, den);
        law_exact_results_are_kept(m);
        assert(1 * den == den);
    }
}

/// Where rounding goes to infinity.
proof fn lemma_limit()
    ensures
        units((INFINITE_MAGNITUDE - 1) as nat) + units(INFINITE_MAGNITUDE as nat) == (pow2(54) - 1)
            * pow2(2045),
{
    lemma_significand_powers();
    let q = pow2(2045);
    lemma_units_of((pow2(53) - 1) as nat, 2045);
    lemma_units_of(pow2(53), 2045);
    assert((pow2(53) - 1) * q + pow2(53) * q == (pow2(54) - 1) * q) by (nonlinear_arith)
        requires
            pow2(54) == 2 * pow2(53),
    ;
}

/// The sum of two finite weights is the weight nearest to the exact sum, ties going to the
/// even one, and infinite where the exact sum is too large. An exact sum that some weight
/// stands for is given exactly. A sum of zero is negative only where both terms are.
pub proof fn law_sums_are_rounded(a: Weight, b: Weight, other: Weight)
    requires
        a.is_finite(),
        b.is_finite(),
        other.is_finite(),
    ensures
        ({
            let sum = weight_sum(a, b);
            let exact = a.value() + b.value();
            let off = abs(sum.value() - exact);
            let other_off = abs(other.value() - exact);
            &&& !sum.is_nan()
            &&& sum.is_infinite() <==> 2 * abs(exact) >= (pow2(54) - 1) * pow2(2045)
            &&& sum.is_finite() ==> off <= other_off
            &&& sum.is_finite() && off == other_off && other.value() != sum.value() ==> sum.bits % 2
                == 0
            &&& other.value() == exact ==> sum.is_finite() && sum.value() == exact
            &&& sum.negative() == (exact < 0 || (exact == 0 && a.negative() && b.negative()))
        }),
{
    let exact = a.value() + b.value();
    lemma_units_of_zero(0);
    lemma_significand_powers();
    lemma_pow2_pos(2045);
    let limit = (pow2(54) - 1) * pow2(2045);
    assert(limit > 0) by (nonlinear_arith)
        requires
            limit == (pow2(54) - 1) * pow2(2045),
            pow2(54) > 1,
            pow2(2045) > 0,
    ;
    assert(limit * 1 == limit);
    if exact < 0 {
        lemma_rounded((-exact) as nat, 1, true, other);
    } else if exact > 0 {
        lemma_rounded(exact as nat, 1, false, other);
    } else {
        let none = signed(a.negative() && b.negative(), 0);
        assert(none.magnitude() == 0);
        lemma_value_times(none, 1);
    }
}

/// The product of two finite weights is the weight nearest to the exact product, ties going
/// to the even one, and infinite where the exact product is too large. An exact product that
/// some weight stands for is given exactly. Products are negative where one factor is.
pub proof fn law_products_are_rounded(a: Weight, b: Weight, other: Weight)
    requires
        a.is_finite(),
        b.is_finite(),
        other.is_finite(),
    ensures
        ({
            let product = weight_product(a, b);
            let exact = a.value() * b.value();
            let off = abs(product.value() * pow2(1074) - exact);
            let other_off = abs(other.value() * pow2(1074) - exact);
            &&& !product.is_nan()
            &&& product.is_infinite() <==> 2 * abs(exact) >= ((pow2(54) - 1) * pow2(2045)) * pow2(
                1074,
            )
            &&& product.is_finite() ==> off <= other_off
            &&& product.is_finite() && off == other_off && other.value() != product.value()
                ==> product.bits % 2 == 0
            &&& other.value() * pow2(1074) == exact ==> product.is_finite() && product.value()
                == other.value()
            &&& product.negative() == (a.negative() != b.negative())
        }),
{
    let x = units(a.magnitude());
    let y = units(b.magnitude());
    let num = x * y;
    let negative = a.negative() != b.negative();
    lemma_pow2_pos(1074);
    lemma_rounded(num, pow2(1074), negative, other);
    lemma_signed_product(a, b);
    assert(num >= 0);
}

proof fn lemma_signed_product(a: Weight, b: Weight)
    ensures
        a.value() * b.value() == if a.negative() != b.negative() {
            -((units(a.magnitude()) * units(b.magnitude())) as int)
        } else {
            (units(a.magnitude()) * units(b.magnitude())) as int
        },
{
    let x = units(a.magnitude()) as int;
    let y = units(b.magnitude()) as int;
    assert((-x) * y == -(x * y)) by (nonlinear_arith);
    assert(x * (-y) == -(x * y)) by (nonlinear_arith);
    assert((-x) * (-y) == x * y) by (nonlinear_arith);
}

/// The quotient of a finite weight and one that is not zero is the weight nearest to the exact
/// quotient, ties going to the even one, and infinite where the exact quotient is too large.
/// An exact quotient that some weight stands for is given exactly. Quotients are negative
/// where one of the two weights is.
pub proof fn law_quotients_are_rounded(a: Weight, b: Weight, other: Weight)
    requires
        a.is_finite(),
        b.is_finite(),
        b.value() != 0,
        other.is_finite(),
    ensures
        ({
            let quotient = weight_quotient(a, b);
            let exact = a.value() * pow2(1074);
            let off = abs(quotient.value() * b.value() - exact);
            let other_off = abs(other.value() * b.value() - exact);
            &&& !quotient.is_nan()
            &&& quotient.is_infinite() <==> 2 * abs(exact) >= ((pow2(54) - 1) * pow2(2045)) * abs(
                b.value(),
            )
            &&& quotient.is_finite() ==> off <= other_off
            &&& quotient.is_finite() && off == other_off && other.value() != quotient.value()
                ==> quotient.bits % 2 == 0
            &&& other.value() * b.value() == exact ==> quotient.is_finite() && quotient.value()
                == other.value()
            &&& quotient.negative() == (a.negative() != b.negative())
        }),
{
    let den = units(b.magnitude());
    let unit = pow2(1074);
    let num = units(a.magnitude()) * unit;
    let negative = a.negative() != b.negative();
    lemma_units_of_zero(b.magnitude());
    lemma_value_times(a, unit);
    lemma_rounded(num, den, negative, other);
    let quotient = weight_quotient(a, b);
    assert(quotient == signed(negative, nearest(num, den)));
    let q = quotient.value();
    let o = other.value();
    if b.negative() {
        assert(q * b.value() == -(q * den)) by (nonlinear_arith)
            requires
                b.value() == -(den as int),
        ;
        assert(o * b.value() == -(o * den)) by (nonlinear_arith)
            requires
                b.value() == -(den as int),
        ;
    }
}

/// The weight of a number of things is the weight nearest to that number, ties going to the
/// even one, and exactly that number where a weight stands for it.
pub proof fn law_counts_are_rounded(count: nat, other: Weight)
    requires
        count <= u64::MAX,
        other.is_finite(),
    ensures
        ({
            let weight = weight_of_count(count);
            let exact = (count * pow2(1074)) as int;
            let off = abs(weight.value() - exact);
            let other_off = abs(other.value() - exact);
            &&& weight.is_finite()
            &&& !weight.negative()
            &&& off <= other_off
            &&& off == other_off && other.value() != weight.value() ==> weight.bits % 2 == 0
            &&& other.value() == exact ==> weight.value() == exact
        }),
{
    let num = count * pow2(1074);
    let limit = (pow2(54) - 1) * pow2(2045);
    lemma_significand_powers();
    lemma2_to64();
    lemma_pow2_pos(1074);
    lemma_pow2_pos(2045);
    lemma_pow2_adds(1074, 65);
    lemma_pow2_strictly_increases(1139, 2045);
    lemma_pow2_unfold(65);
    assert(2 * num < pow2(1139)) by (nonlinear_arith)
        requires
            num == count * pow2(1074),
            count < pow2(64),
            pow2(65) == 2 * pow2(64),
            pow2(1139) == pow2(1074) * pow2(65),
            pow2(1074) > 0,
    ;
    assert(limit >= pow2(2045)) by (nonlinear_arith)
        requires
            limit == (pow2(54) - 1) * pow2(2045),
            pow2(54) >= 2,
            pow2(2045) > 0,
    ;
    assert(limit * 1 == limit);
    lemma_rounded(num, 1, false, other);
}

/// Sums that a weight without a number or an infinite weight takes part in.
pub proof fn law_sums_beyond_the_finite(a: Weight, b: Weight)
    ensures
        a.is_nan() || b.is_nan() ==> weight_sum(a, b).is_nan(),
        a.is_infinite() && b.is_finite() ==> weight_sum(a, b) == a,
        a.is_finite() && b.is_infinite() ==> weight_sum(a, b) == b,
        a.is_infinite() && b.is_infinite() && a.negative() == b.negative() ==> weight_sum(a, b)
            == a,
        a.is_infinite() && b.is_infinite() && a.negative() != b.negative() ==> weight_sum(
            a,
            b,
        ).is_nan(),
{
}

/// Products that a weight without a number or an infinite weight takes part in.
pub proof fn law_products_beyond_the_finite(a: Weight, b: Weight)
    ensures
        ({
            let product = weight_product(a, b);
            &&& a.is_nan() || b.is_nan() ==> product.is_nan()
            &&& a.is_infinite() && b.is_finite() && b.value() == 0 ==> product.is_nan()
            &&& a.is_finite() && a.value() == 0 && b.is_infinite() ==> product.is_nan()
            &&& (a.is_infinite() && !b.is_nan() && !(b.is_finite() && b.value() == 0)) || (
            b.is_infinite() && !a.is_nan() && !(a.is_finite() && a.value() == 0))
                ==> product.is_infinite() && product.negative() == (a.negative() != b.negative())
        }),
{
    lemma_units_of_zero(a.magnitude());
    lemma_units_of_zero(b.magnitude());
}

/// Quotients that a weight without a number, an infinite weight or a divisor of zero takes
/// part in.
pub proof fn law_quotients_beyond_the_finite(a: Weight, b: Weight)
    ensures
        ({
            let quotient = weight_quotient(a, b);
            let negative = a.negative() != b.negative();
            &&& a.is_nan() || b.is_nan() ==> quotient.is_nan()
            &&& a.is_infinite() && b.is_infinite() ==> quotient.is_nan()
            &&& a.is_finite() && b.is_finite() && a.value() == 0 && b.value() == 0
                ==> quotient.is_nan()
            &&& a.is_finite() && b.is_finite() && a.value() != 0 && b.value() == 0
                ==> quotient.is_infinite() && quotient.negative() == negative
            &&& a.is_infinite() && b.is_finite() ==> quotient.is_infinite() && quotient.negative()
                == negative
            &&& a.is_finite() && b.is_infinite() ==> quotient.is_finite() && quotient.value() == 0
                && quotient.negative() == negative
        }),
{
    lemma_units_of_zero(a.magnitude());
    lemma_units_of_zero(b.magnitude());
    lemma_units_of_zero(0);
}

/// The larger of two weights is one of them, and neither of them is above it.
pub proof fn law_the_larger_weight(a: Weight, b: Weight)
    ensures
        ({
            let larger = larger_weight(a, b);
            &&& larger == a || larger == b
            &&& a.is_nan() ==> larger == b
            &&& b.is_nan() ==> larger == a || a.is_nan()
            &&& a.is_finite() && b.is_finite() ==> a.value() <= larger.value() && b.value()
                <= larger.value()
            &&& !a.is_nan() && !b.is_nan() && b.is_infinite() && !b.negative()
                ==> larger.is_infinite() && !larger.negative()
            &&& !a.is_nan() && !b.is_nan() && a.is_infinite() && !a.negative()
                ==> larger.is_infinite() && !larger.negative()
            &&& !a.is_nan() && b.is_infinite() && b.negative() ==> larger == a
            &&& !b.is_nan() && a.is_infinite() && a.negative() ==> larger == b
        }),
{
    if a.is_finite() && b.is_finite() {
        law_rank_orders_values(a, b);
        law_rank_orders_values(b, a);
    }
}

/// The smaller of two weights is one of them, and neither of them is below it.
pub proof fn law_the_smaller_weight(a: Weight, b: Weight)
    ensures
        ({
            let smaller = smaller_weight(a, b);
            &&& smaller == a || smaller == b
            &&& a.is_nan() ==> smaller == b
            &&& b.is_nan() ==> smaller == a || a.is_nan()
            &&& a.is_finite() && b.is_finite() ==> smaller.value() <= a.value() && smaller.value()
                <= b.value()
            &&& !a.is_nan() && !b.is_nan() && b.is_infinite() && b.negative()
                ==> smaller.is_infinite() && smaller.negative()
            &&& !a.is_nan() && !b.is_nan() && a.is_infinite() && a.negative()
                ==> smaller.is_infinite() && smaller.negative()
            &&& !a.is_nan() && b.is_infinite() && !b.negative() ==> smaller == a
            &&& !b.is_nan() && a.is_infinite() && !a.negative() ==> smaller == b
        }),
{
    if a.is_finite() && b.is_finite() {
        law_rank_orders_values(a, b);
        law_rank_orders_values(b, a);
    }
}

/// The strategies of addition, multiplication, maximum and minimum take one weight more as
/// the arithmetic of two weights takes it.
pub proof fn law_one_weight_more(weights: Seq<Weight>, weight: Weight)
    requires
        weights.len() > 0,
    ensures
        combined(WeightCombination::Add, weights.push(weight)) == weight_sum(
            combined(WeightCombination::Add, weights),
            weight,
        ),
        combined(WeightCombination::Multiply, weights.push(weight)) == weight_product(
            combined(WeightCombination::Multiply, weights),
            weight,
        ),
        combined(WeightCombination::Max, weights.push(weight)) == larger_weight(
            combined(WeightCombination::Max, weights),
            weight,
        ),
        combined(WeightCombination::Min, weights.push(weight)) == smaller_weight(
            combined(WeightCombination::Min, weights),
            weight,
        ),
{
    assert(weights.push(weight).drop_last() =~= weights);
}

/// A weight that is no number makes no number of sums, products and averages.
pub proof fn law_no_number_spreads(weights: Seq<Weight>, i: int)
    requires
        0 <= i < weights.len(),
        weights[i].is_nan(),
    ensures
        combined(WeightCombination::Add, weights).is_nan(),
        combined(WeightCombination::Multiply, weights).is_nan(),
        combined(WeightCombination::Average, weights).is_nan(),
    decreases weights.len(),
{
    let init = weights.drop_last();
    let last = weights.last();
    if i < init.len() {
        law_no_number_spreads(init, i);
        assert(init.push(last) =~= weights);
        law_one_weight_more(init, last);
    }
}

/// A number of things up to two to the power of 53, moved up to the place of a significand.
proof fn lemma_places(count: nat) -> (places: nat)
    requires
        0 < count <= pow2(53),
    ensures
        places <= 53,
        pow2(52) <= count * pow2(places) <= pow2(53),
    decreases pow2(53) - count,
{
    lemma_significand_powers();
    if count >= pow2(52) {
        assert(count * pow2(0) == count) by (nonlinear_arith)
            requires
                pow2(0) == 1,
        ;
        0
    } else {
        let places = lemma_places(2 * count);
        lemma_pow2_unfold(places + 1);
        assert(count * pow2(places + 1) == (2 * count) * pow2(places)) by (nonlinear_arith)
            requires
                pow2(places + 1) == 2 * pow2(places),
        ;
        if places + 1 > 53 {
            lemma_pow2_strictly_increases(53, places + 1);
            assert(count * pow2(places + 1) >= pow2(places + 1)) by (nonlinear_arith)
                requires
                    count >= 1,
            ;
        }
        places + 1
    }
}

/// A number of things up to two to the power of 53 has a weight of its own.
proof fn lemma_count_is_exact(count: nat)
    requires
        0 < count <= pow2(53),
    ensures
        !weight_of_count(count).negative(),
        weight_of_count(count).is_finite(),
        units(weight_of_count(count).magnitude()) == count * pow2(1074),
{
    let places = lemma_places(count);
    lemma_significand_powers();
    let k = (1074 - places) as nat;
    let s = count * pow2(places);
    lemma_pow2_adds(places, k);
    lemma_mul_is_associative(count as int, pow2(places) as int, pow2(k) as int);
    lemma_units_of(s, k);
    let magnitude = k * (IMPLICIT_BIT as nat) + s;
    assert(magnitude < INFINITE_MAGNITUDE);
    law_exact_results_are_kept(magnitude);
    assert(weight_of_count(count) == signed(false, magnitude));
    assert(signed(false, magnitude).magnitude() == magnitude);
}

/// The average of some weights is the weight nearest to their sum divided by their number,
/// ties going to the even one: no weight is nearer, a weight that stands for the quotient
/// exactly is given, and the average lies between any two weights that the quotient lies
/// between. The average of an infinite sum is that sum.
pub proof fn law_averages_are_rounded(weights: Seq<Weight>, other: Weight)
    requires
        0 < weights.len() <= pow2(53),
        other.is_finite(),
    ensures
        ({
            let count = weights.len();
            let sum = combined(WeightCombination::Add, weights);
            let average = combined(WeightCombination::Average, weights);
            let off = abs(average.value() * count - sum.value());
            let other_off = abs(other.value() * count - sum.value());
            &&& sum.is_nan() ==> average.is_nan()
            &&& sum.is_infinite() ==> average == sum
            &&& sum.is_finite() ==> {
                &&& average.is_finite()
                &&& average.negative() == sum.negative()
                &&& off <= other_off
                &&& off == other_off && other.value() != average.value() ==> average.bits % 2 == 0
                &&& other.value() * count == sum.value() ==> average.value() == other.value()
                &&& other.value() * count <= sum.value() ==> other.value() <= average.value()
                &&& other.value() * count >= sum.value() ==> other.value() >= average.value()
            }
        }),
{
    let count = weights.len();
    let sum = combined(WeightCombination::Add, weights);
    let divisor = weight_of_count(count);
    let average = combined(WeightCombination::Average, weights);
    assert(average == weight_quotient(sum, divisor));
    lemma_count_is_exact(count);
    lemma_pow2_pos(1074);
    let unit = pow2(1074);
    assert(count * unit > 0) by (nonlinear_arith)
        requires
            count > 0,
            unit > 0,
    ;
    lemma_units_of_zero(divisor.magnitude());
    if sum.is_finite() {
        let u = units(sum.magnitude());
        lemma_nearest_common_factor(u, count, unit);
        lemma_rounded(u, count, sum.negative(), other);
        lemma_rounded(u, count, sum.negative(), sum);
        lemma_finite_limit(u, count, sum.magnitude());
        lemma_units_of_zero(sum.magnitude());
        let a = average.value();
        let o = other.value();
        if a < o {
            assert(a * count < o * count) by (nonlinear_arith)
                requires
                    a < o,
                    count > 0,
            ;
        } else if o < a {
            assert(o * count < a * count) by (nonlinear_arith)
                requires
                    o < a,
                    count > 0,
            ;
        }
    }
}

/// The quotient of what a finite weight stands for is not too large for a weight.
proof fn lemma_finite_limit(u: nat, count: nat, magnitude: nat)
    requires
        magnitude < INFINITE_MAGNITUDE,
        u == units(magnitude),
        count > 0,
    ensures
        2 * u < ((pow2(54) - 1) * pow2(2045)) * count,
{
    let limit = (pow2(54) - 1) * pow2(2045);
    law_exact_results_are_kept(magnitude);
    law_overflow_goes_to_infinity(u, 1);
    lemma_limit();
    assert(limit * 1 == limit);
    assert(limit <= limit * count) by (nonlinear_arith)
        requires
            count >= 1,
            limit >= 0,
    ;
}

/// The average divides the sum by the weight of the number of weights, however many there are.
pub proof fn law_averages_of_many_weights(weights: Seq<Weight>)
    requires
        weights.len() > 0,
    ensures
        combined(WeightCombination::Average, weights) == weight_quotient(
            combined(WeightCombination::Add, weights),
            weight_of_count(weights.len()),
        ),
{
}

}
