//! What holds of the arithmetic of weights and of combined weights.
use vstd::arithmetic::div_mod::{
    lemma_fundamental_div_mod, lemma_fundamental_div_mod_converse,
};
use vstd::arithmetic::mul::{lemma_mul_inequality, lemma_mul_is_commutative};
use vstd::arithmetic::power2::{
    lemma_pow2_adds, lemma_pow2_pos, lemma_pow2_strictly_increases, pow2,
};
use vstd::prelude::*;

use crate::combination::{combined, largest_of, smallest_of, zero, WeightCombination};
use crate::rounding::{
    lemma_nearest_common_factor, lemma_nearest_integer_exact, lemma_scale_bounds, lemma_scale_is,
    lemma_significand_powers, nearest, nearest_integer, scale, units, IMPLICIT_BIT,
    INFINITE_MAGNITUDE, UNIT_EXPONENT,
};
use crate::weight::{
    lemma_sign_and_magnitude, lemma_units_of_zero, signed, weight_of_count, weight_product,
    weight_quotient, weight_sum, Weight, ONE_BITS,
};

verus! {

/// How far apart two natural numbers are.
pub open spec fn distance(a: nat, b: nat) -> nat {
    if a <= b {
        (b - a) as nat
    } else {
        (a - b) as nat
    }
}

/// The significand of a magnitude, and the power of two that it is counted in.
spec fn parts(magnitude: nat) -> (nat, nat) {
    let exponent = magnitude / (IMPLICIT_BIT as nat);
    let fraction = magnitude % (IMPLICIT_BIT as nat);
    if exponent == 0 {
        (fraction, 0)
    } else {
        ((IMPLICIT_BIT + fraction) as nat, (exponent - 1) as nat)
    }
}

proof fn lemma_parts(magnitude: nat)
    ensures
        ({
            let (s, k) = parts(magnitude);
            &&& magnitude == k * IMPLICIT_BIT + s
            &&& units(magnitude) == s * pow2(k)
            &&& s < pow2(53)
            &&& k > 0 ==> pow2(52) <= s
            &&& units(magnitude) < pow2(53 + k)
            &&& k > 0 ==> pow2((52 + k) as nat) <= units(magnitude)
        }),
{
    lemma_significand_powers();
    let (s, k) = parts(magnitude);
    lemma_fundamental_div_mod(magnitude as int, IMPLICIT_BIT as int);
    let p = pow2(k);
    lemma_pow2_pos(k);
    lemma_pow2_adds(53, k);
    lemma_pow2_adds(52, k);
    assert(s * p < pow2(53) * p) by (nonlinear_arith)
        requires
            s < pow2(53),
            p > 0,
    ;
    if k > 0 {
        lemma_mul_inequality(pow2(52) as int, s as int, p as int);
    }
    if magnitude / (IMPLICIT_BIT as nat) == 0 {
        assert(s * p == s) by (nonlinear_arith)
            requires
                p == 1,
        ;
    }
}

/// The magnitude that a significand and a power of two make.
pub proof fn lemma_units_of(s: nat, k: nat)
    requires
        s <= pow2(53),
        k > 0 ==> pow2(52) <= s,
    ensures
        units(k * (IMPLICIT_BIT as nat) + s) == s * pow2(k),
{
    lemma_significand_powers();
    let bit = IMPLICIT_BIT as nat;
    let magnitude = k * bit + s;
    if s < bit {
        lemma_fundamental_div_mod_converse(magnitude as int, bit as int, 0, s as int);
        assert(s * pow2(0) == s) by (nonlinear_arith)
            requires
                pow2(0) == 1,
        ;
    } else if s < 2 * bit {
        lemma_fundamental_div_mod_converse(magnitude as int, bit as int, (k + 1) as int, s - bit);
    } else {
        lemma_fundamental_div_mod_converse(magnitude as int, bit as int, (k + 2) as int, 0);
        lemma_pow2_adds(1, k);
        assert(bit * pow2(k + 1) == s * pow2(k)) by (nonlinear_arith)
            requires
                s == 2 * bit,
                pow2(k + 1) == 2 * pow2(k),
        ;
    }
}

/// A number that a weight stands for exactly is rounded to that weight.
pub proof fn law_exact_results_are_kept(magnitude: nat)
    requires
        magnitude < INFINITE_MAGNITUDE,
    ensures
        nearest(units(magnitude), 1) == magnitude,
{
    let (s, k) = parts(magnitude);
    lemma_parts(magnitude);
    lemma_scale_is(units(magnitude), 1, k);
    lemma_pow2_pos(k);
    lemma_nearest_integer_exact(s, pow2(k));
}

proof fn lemma_nearest_integer_is_nearest(num: nat, den: nat, other: nat)
    requires
        den > 0,
    ensures
        distance(nearest_integer(num, den) * den, num) <= distance(other * den, num),
{
    let whole = num / den;
    let rest = num % den;
    lemma_fundamental_div_mod(num as int, den as int);
    lemma_mul_is_commutative(den as int, whole as int);
    assert((whole + 1) * den == whole * den + den) by (nonlinear_arith);
    if other <= whole {
        lemma_mul_inequality(other as int, whole as int, den as int);
    } else {
        lemma_mul_inequality((whole + 1) as int, other as int, den as int);
    }
}

/// What is known of the significand that rounding finds.
proof fn lemma_rounded_significand(num: nat, den: nat)
    requires
        den > 0,
    ensures
        ({
            let k = scale(num, den);
            let step = den * pow2(k);
            let n = nearest_integer(num, step);
            &&& step > 0
            &&& num / step < pow2(53)
            &&& k > 0 ==> pow2(52) <= num / step && pow2(52) * step <= num
            &&& units(k * (IMPLICIT_BIT as nat) + n) == n * pow2(k)
            &&& units(k * (IMPLICIT_BIT as nat) + n) * den == n * step
        }),
{
    let k = scale(num, den);
    let p = pow2(k);
    let step = den * p;
    let n = nearest_integer(num, step);
    lemma_pow2_pos(k);
    lemma_scale_bounds(num, den);
    lemma_pow2_adds(53, k);
    lemma_pow2_adds(52, k);
    assert(step > 0) by (nonlinear_arith)
        requires
            step == den * p,
            den > 0,
            p > 0,
    ;
    let whole = num / step;
    lemma_fundamental_div_mod(num as int, step as int);
    let top = pow2(53);
    let low = pow2(52);
    assert(whole < top) by (nonlinear_arith)
        requires
            num == step * whole + num % step,
            num % step >= 0,
            num < den * (top * p),
            step == den * p,
            step > 0,
    ;
    if k > 0 {
        assert(low <= whole) by (nonlinear_arith)
            requires
                num == step * whole + num % step,
                num % step < step,
                den * (low * p) <= num,
                step == den * p,
                step > 0,
        ;
    }
    lemma_units_of(n, k);
    assert((n * p) * den == n * step) by (nonlinear_arith)
        requires
            step == den * p,
    ;
    if k > 0 {
        assert(low * step <= num) by (nonlinear_arith)
            requires
                den * (low * p) <= num,
                step == den * p,
        ;
    }
}

/// A magnitude that is coarser than what rounding counts in is one of its steps, and a
/// finer one lies below all of them.
proof fn lemma_other_magnitude(num: nat, den: nat, other: nat)
    requires
        den > 0,
    ensures
        ({
            let step = den * pow2(scale(num, den));
            ||| exists|j: nat| #[trigger] (j * step) == units(other) * den
            ||| units(other) * den < pow2(52) * step <= num
        }),
{
    let k = scale(num, den);
    let p = pow2(k);
    let step = den * p;
    lemma_rounded_significand(num, den);
    let u = units(other);
    let (s, e) = parts(other);
    lemma_parts(other);
    if k <= e {
        lemma_pow2_adds((e - k) as nat, k);
        let j = s * pow2((e - k) as nat);
        assert(j * step == u * den) by (nonlinear_arith)
            requires
                u == s * pow2(e),
                pow2(e) == pow2((e - k) as nat) * p,
                j == s * pow2((e - k) as nat),
                step == den * p,
        ;
    } else {
        let low = pow2(52);
        lemma_pow2_adds(52, k);
        if 53 + e < 52 + k {
            lemma_pow2_strictly_increases(53 + e, 52 + k);
        }
        assert(u * den < low * step) by (nonlinear_arith)
            requires
                u < low * p,
                den > 0,
                step == den * p,
        ;
    }
}

/// Rounding takes the nearest magnitude: no finite one is nearer to the exact quotient.
pub proof fn law_rounding_is_nearest(num: nat, den: nat, other: nat)
    requires
        den > 0,
        nearest(num, den) < INFINITE_MAGNITUDE,
        other < INFINITE_MAGNITUDE,
    ensures
        distance(units(nearest(num, den)) * den, num) <= distance(units(other) * den, num),
{
    let step = den * pow2(scale(num, den));
    lemma_rounded_significand(num, den);
    lemma_other_magnitude(num, den, other);
    if exists|j: nat| #[trigger] (j * step) == units(other) * den {
        let j = choose|j: nat| #[trigger] (j * step) == units(other) * den;
        lemma_nearest_integer_is_nearest(num, step, j);
    } else {
        lemma_nearest_integer_is_nearest(num, step, pow2(52));
    }
}

/// Of two magnitudes that are equally near, rounding takes the even one.
pub proof fn law_ties_go_to_even(num: nat, den: nat, other: nat)
    requires
        den > 0,
        nearest(num, den) < INFINITE_MAGNITUDE,
        other < INFINITE_MAGNITUDE,
        other != nearest(num, den),
        distance(units(nearest(num, den)) * den, num) == distance(units(other) * den, num),
    ensures
        nearest(num, den) % 2 == 0,
{
    let k = scale(num, den);
    let step = den * pow2(k);
    let n = nearest_integer(num, step);
    let rounded = nearest(num, den);
    lemma_rounded_significand(num, den);
    lemma_other_magnitude(num, den, other);
    if other < rounded {
        lemma_units_increase(other, rounded);
    } else {
        lemma_units_increase(rounded, other);
    }
    let u = units(other);
    let v = units(rounded);
    assert(u * den != v * den) by (nonlinear_arith)
        requires
            u != v,
            den > 0,
    ;
    if exists|j: nat| #[trigger] (j * step) == units(other) * den {
        let j = choose|j: nat| #[trigger] (j * step) == units(other) * den;
        lemma_equally_near_is_even(num, step, j);
        assert((k * IMPLICIT_BIT + n) % 2 == 0) by (nonlinear_arith)
            requires
                n % 2 == 0,
                IMPLICIT_BIT % 2 == 0,
        ;
    } else {
        lemma_nearest_integer_is_nearest(num, step, pow2(52));
    }
}

proof fn lemma_equally_near_is_even(num: nat, den: nat, other: nat)
    requires
        den > 0,
        other != nearest_integer(num, den),
        distance(nearest_integer(num, den) * den, num) == distance(other * den, num),
    ensures
        nearest_integer(num, den) % 2 == 0,
{
    let whole = num / den;
    lemma_fundamental_div_mod(num as int, den as int);
    lemma_mul_is_commutative(den as int, whole as int);
    assert((whole + 1) * den == whole * den + den) by (nonlinear_arith);
    assert((whole + 2) * den == whole * den + 2 * den) by (nonlinear_arith);
    if other < whole {
        lemma_mul_inequality((other + 1) as int, whole as int, den as int);
        assert((other + 1) * den == other * den + den) by (nonlinear_arith);
    } else if other > whole + 1 {
        lemma_mul_inequality((whole + 2) as int, other as int, den as int);
    }
}

/// A quotient is rounded to infinity when it is at least halfway from the largest finite
/// magnitude to what would follow it.
pub proof fn law_overflow_goes_to_infinity(num: nat, den: nat)
    requires
        den > 0,
    ensures
        nearest(num, den) == INFINITE_MAGNITUDE <==> 2 * num >= (units(
            (INFINITE_MAGNITUDE - 1) as nat,
        ) + units(INFINITE_MAGNITUDE as nat)) * den,
{
    let k = scale(num, den);
    let p = pow2(k);
    let step = den * p;
    let n = nearest_integer(num, step);
    let whole = num / step;
    let rest = num % step;
    let top = pow2(53);
    let q = pow2(2045);
    lemma_significand_powers();
    lemma_rounded_significand(num, den);
    lemma_fundamental_div_mod(num as int, step as int);
    lemma_units_of((top - 1) as nat, 2045);
    lemma_units_of(top, 2045);
    lemma_pow2_pos(2045);
    let limit = ((top - 1) as nat * q + top * q) * den;
    assert(limit == (2 * top - 1) * (q * den)) by (nonlinear_arith)
        requires
            limit == ((top - 1) * q + top * q) * den,
    ;
    lemma_mul_is_commutative(den as int, p as int);
    if k == 2045 {
        if whole == top - 1 {
            assert(2 * num == (2 * top - 2) * step + 2 * rest) by (nonlinear_arith)
                requires
                    num == step * whole + rest,
                    whole == top - 1,
            ;
            assert((2 * top - 1) * step == (2 * top - 2) * step + step) by (nonlinear_arith);
        } else {
            assert(2 * num < (2 * top - 1) * step) by (nonlinear_arith)
                requires
                    num == step * whole + rest,
                    rest < step,
                    whole + 1 <= top - 1,
            ;
        }
    } else if k < 2045 {
        lemma_pow2_strictly_increases(k, 2045);
        assert(k * IMPLICIT_BIT <= 2044 * IMPLICIT_BIT) by (nonlinear_arith)
            requires
                k <= 2044,
        ;
        assert(num < top * step) by (nonlinear_arith)
            requires
                num == step * whole + rest,
                rest < step,
                whole + 1 <= top,
        ;
        lemma_pow2_adds(1, k);
        if k + 1 < 2045 {
            lemma_pow2_strictly_increases(k + 1, 2045);
        }
        assert(2 * num < (2 * top - 1) * (q * den)) by (nonlinear_arith)
            requires
                num < top * step,
                step == den * p,
                2 * p <= q,
                top >= 1,
                den > 0,
        ;
    } else {
        lemma_pow2_strictly_increases(2045, k);
        lemma_pow2_adds(1, 2045);
        if 2046 < k {
            lemma_pow2_strictly_increases(2046, k);
        }
        assert(k * IMPLICIT_BIT >= 2046 * IMPLICIT_BIT) by (nonlinear_arith)
            requires
                k >= 2046,
        ;
        assert(2 * num >= (2 * top - 1) * (q * den)) by (nonlinear_arith)
            requires
                pow2(52) * step <= num,
                top == 2 * pow2(52),
                step == den * p,
                p >= 2 * q,
                den > 0,
                q > 0,
        ;
    }
}

proof fn lemma_units_increase(a: nat, b: nat)
    requires
        a < b,
    ensures
        units(a) < units(b),
{
    let (s, k) = parts(a);
    let (t, l) = parts(b);
    lemma_parts(a);
    lemma_parts(b);
    lemma_significand_powers();
    if k == l {
        lemma_pow2_pos(k);
        assert(s * pow2(k) < t * pow2(k)) by (nonlinear_arith)
            requires
                s < t,
                pow2(k) > 0,
        ;
    } else {
        assert(k < l) by (nonlinear_arith)
            requires
                k * IMPLICIT_BIT + s < l * IMPLICIT_BIT + t,
                s < 2 * IMPLICIT_BIT,
                k > 0 ==> IMPLICIT_BIT <= s,
                l > 0 ==> IMPLICIT_BIT <= t,
                t < 2 * IMPLICIT_BIT,
                k != l,
        ;
        if 53 + k < 52 + l {
            lemma_pow2_strictly_increases(53 + k, 52 + l);
        }
    }
}

/// Weights rank as the numbers that they stand for.
pub proof fn law_rank_orders_values(a: Weight, b: Weight)
    requires
        a.is_finite(),
        b.is_finite(),
    ensures
        a.rank() < b.rank() <==> a.value() < b.value(),
        a.rank() == b.rank() <==> a.value() == b.value(),
{
    let x = a.magnitude();
    let y = b.magnitude();
    if x < y {
        lemma_units_increase(x, y);
    } else if y < x {
        lemma_units_increase(y, x);
    }
    if x > 0 {
        lemma_units_increase(0, x);
    }
    if y > 0 {
        lemma_units_increase(0, y);
    }
    lemma_units_of_zero(0);
}

/// An infinite weight ranks above or below all finite ones.
pub proof fn law_infinite_weights_rank_outermost(a: Weight, b: Weight)
    requires
        a.is_infinite(),
        b.is_finite(),
    ensures
        a.negative() ==> a.rank() < b.rank(),
        !a.negative() ==> b.rank() < a.rank(),
{
}

/// The order of two terms does not matter.
pub proof fn law_sum_commutes(a: Weight, b: Weight)
    ensures
        weight_sum(a, b) == weight_sum(b, a),
{
    lemma_sign_and_magnitude(a);
    lemma_sign_and_magnitude(b);
}

/// The order of two factors does not matter.
pub proof fn law_product_commutes(a: Weight, b: Weight)
    ensures
        weight_product(a, b) == weight_product(b, a),
{
    lemma_mul_is_commutative(units(a.magnitude()) as int, units(b.magnitude()) as int);
}

/// Minus zero changes no sum, and zero none but that with minus zero.
pub proof fn law_adding_to_zero(weight: Weight)
    requires
        !weight.is_nan(),
    ensures
        weight_sum(signed(true, 0), weight) == weight,
        weight != signed(true, 0) ==> weight_sum(signed(false, 0), weight) == weight,
{
    lemma_sign_and_magnitude(weight);
    let m = weight.magnitude();
    lemma_units_of_zero(0);
    if weight.is_finite() {
        law_exact_results_are_kept(m);
        if m > 0 {
            lemma_units_increase(0, m);
        }
    }
}

pub proof fn lemma_units_of_one()
    ensures
        units(ONE_BITS as nat) == pow2(UNIT_EXPONENT as nat),
        pow2(UNIT_EXPONENT as nat) > 0,
{
    lemma_significand_powers();
    lemma_pow2_adds(52, 1022);
    lemma_pow2_pos(UNIT_EXPONENT as nat);
}

/// Multiplying one by a weight, and dividing a weight by one, gives the weight.
pub proof fn law_one_is_neutral(weight: Weight)
    requires
        !weight.is_nan(),
    ensures
        weight_product(Weight { bits: ONE_BITS }, weight) == weight,
        weight_quotient(weight, Weight { bits: ONE_BITS }) == weight,
        weight_of_count(1) == (Weight { bits: ONE_BITS }),
{
    lemma_sign_and_magnitude(weight);
    lemma_units_of_one();
    let one = pow2(UNIT_EXPONENT as nat);
    law_exact_results_are_kept(ONE_BITS as nat);
    if weight.is_finite() {
        let u = units(weight.magnitude());
        law_exact_results_are_kept(weight.magnitude());
        lemma_nearest_common_factor(u, 1, one);
        lemma_mul_is_commutative(u as int, one as int);
    }
}

/// Every strategy makes zero of no weights.
pub proof fn law_nothing_combines_to_zero(strategy: WeightCombination)
    ensures
        combined(strategy, Seq::empty()) == zero(),
        combined(strategy, Seq::empty()).bits == 0,
        zero().value() == 0,
{
    lemma_units_of_zero(0);
}

/// Every strategy makes of one weight that weight.
pub proof fn law_one_weight_combines_to_itself(strategy: WeightCombination, weight: Weight)
    requires
        !weight.is_nan(),
    ensures
        combined(strategy, seq![weight]) == weight,
{
    let weights = seq![weight];
    reveal_with_fuel(Seq::fold_left, 2);
    assert(weights.drop_last() =~= Seq::empty());
    lemma_sign_and_magnitude(weight);
    law_adding_to_zero(weight);
    law_one_is_neutral(weight);
}

/// The strategy of the maximum takes one of the weights, and none of them is larger. Only
/// weights that are numbers count; where there is none, the maximum is minus infinity.
pub proof fn law_max_is_the_largest(weights: Seq<Weight>)
    requires
        weights.len() > 0,
    ensures
        ({
            let largest = combined(WeightCombination::Max, weights);
            &&& !largest.is_nan()
            &&& forall|i: int|
                0 <= i < weights.len() && !(#[trigger] weights[i]).is_nan() ==> weights[i].rank()
                    <= largest.rank()
            &&& if exists|i: int| 0 <= i < weights.len() && !(#[trigger] weights[i]).is_nan() {
                weights.contains(largest)
            } else {
                largest == signed(true, INFINITE_MAGNITUDE as nat)
            }
        }),
{
    lemma_largest(weights);
    if exists|i: int| 0 <= i < weights.len() && !(#[trigger] weights[i]).is_nan() {
        let i = choose|i: int| 0 <= i < weights.len() && !(#[trigger] weights[i]).is_nan();
        lemma_sign_and_magnitude(weights[i]);
    }
}

proof fn lemma_largest(weights: Seq<Weight>)
    ensures
        ({
            let largest = largest_of(weights);
            &&& !largest.is_nan()
            &&& forall|i: int|
                0 <= i < weights.len() && !(#[trigger] weights[i]).is_nan() ==> weights[i].rank()
                    <= largest.rank()
            &&& largest == signed(true, INFINITE_MAGNITUDE as nat) || weights.contains(largest)
        }),
    decreases weights.len(),
{
    if weights.len() > 0 {
        let init = weights.drop_last();
        lemma_largest(init);
        assert forall|i: int|
            0 <= i < weights.len() && !(#[trigger] weights[i]).is_nan() implies weights[i].rank()
            <= largest_of(weights).rank() by {
            if i < init.len() {
                assert(weights[i] == init[i]);
            }
        }
        if init.contains(largest_of(init)) {
            let i = choose|i: int| 0 <= i < init.len() && init[i] == largest_of(init);
            assert(weights[i] == largest_of(init));
        }
        assert(weights[weights.len() - 1] == weights.last());
    }
}

/// The strategy of the minimum takes one of the weights, and none of them is smaller. Only
/// weights that are numbers count; where there is none, the minimum is infinity.
pub proof fn law_min_is_the_smallest(weights: Seq<Weight>)
    requires
        weights.len() > 0,
    ensures
        ({
            let smallest = combined(WeightCombination::Min, weights);
            &&& !smallest.is_nan()
            &&& forall|i: int|
                0 <= i < weights.len() && !(#[trigger] weights[i]).is_nan() ==> smallest.rank()
                    <= weights[i].rank()
            &&& if exists|i: int| 0 <= i < weights.len() && !(#[trigger] weights[i]).is_nan() {
                weights.contains(smallest)
            } else {
                smallest == signed(false, INFINITE_MAGNITUDE as nat)
            }
        }),
{
    lemma_smallest(weights);
    if exists|i: int| 0 <= i < weights.len() && !(#[trigger] weights[i]).is_nan() {
        let i = choose|i: int| 0 <= i < weights.len() && !(#[trigger] weights[i]).is_nan();
        lemma_sign_and_magnitude(weights[i]);
    }
}

proof fn lemma_smallest(weights: Seq<Weight>)
    ensures
        ({
            let smallest = smallest_of(weights);
            &&& !smallest.is_nan()
            &&& forall|i: int|
                0 <= i < weights.len() && !(#[trigger] weights[i]).is_nan() ==> smallest.rank()
                    <= weights[i].rank()
            &&& smallest == signed(false, INFINITE_MAGNITUDE as nat) || weights.contains(smallest)
        }),
    decreases weights.len(),
{
    if weights.len() > 0 {
        let init = weights.drop_last();
        lemma_smallest(init);
        assert forall|i: int|
            0 <= i < weights.len() && !(#[trigger] weights[i]).is_nan() implies smallest_of(
            weights,
        ).rank() <= weights[i].rank() by {
            if i < init.len() {
                assert(weights[i] == init[i]);
            }
        }
        if init.contains(smallest_of(init)) {
            let i = choose|i: int| 0 <= i < init.len() && init[i] == smallest_of(init);
            assert(weights[i] == smallest_of(init));
        }
        assert(weights[weights.len() - 1] == weights.last());
    }
}

}
