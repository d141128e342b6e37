//! Rounding an exact quotient to a binary64 magnitude.
//!
//! A magnitude is a binary64 bit pattern without its sign bit. Every finite
//! magnitude is a whole number of *units*, a unit being the smallest positive
//! subnormal number (two to the power of minus 1074), so exact results are
//! quotients of natural numbers counted in units.
use vstd::arithmetic::div_mod::{
    lemma_div_denominator, lemma_fundamental_div_mod, lemma_fundamental_div_mod_converse,
    lemma_mod_breakdown,
};
use vstd::arithmetic::mul::{
    lemma_mul_inequality, lemma_mul_is_associative, lemma_mul_is_commutative,
    lemma_mul_strict_inequality, lemma_mul_strict_inequality_converse,
};
use vstd::arithmetic::power2::{
    lemma2_to64, lemma2_to64_rest, lemma_pow2_adds, lemma_pow2_pos, lemma_pow2_strictly_increases,
    lemma_pow2_unfold, pow2,
};
use vstd::prelude::*;

verus! {

/// Two to the power of 52: the weight of the implicit leading bit of a significand,
/// and the place of the exponent field in a bit pattern.
pub const IMPLICIT_BIT: u64 = 0x0010_0000_0000_0000;

/// The magnitude of the infinities.
pub const INFINITE_MAGNITUDE: u64 = 0x7ff0_0000_0000_0000;

/// The number of units in one, as a power of two.
pub const UNIT_EXPONENT: u32 = 1074;

/// The number of units in a finite magnitude.
pub open spec fn units(magnitude: nat) -> nat {
    let exponent = magnitude / (IMPLICIT_BIT as nat);
    let fraction = magnitude % (IMPLICIT_BIT as nat);
    if exponent == 0 {
        fraction
    } else {
        (IMPLICIT_BIT + fraction) as nat * pow2((exponent - 1) as nat)
    }
}

/// The natural number nearest to `num / den`, and the even one of two equally near.
pub open spec fn nearest_integer(num: nat, den: nat) -> nat {
    let whole = num / den;
    let rest = num % den;
    if 2 * rest < den || (2 * rest == den && whole % 2 == 0) {
        whole
    } else {
        whole + 1
    }
}

/// How often `num / den` has to be halved until it is less than two to the power of 53.
pub open spec fn scale(num: nat, den: nat) -> nat
    decreases num - den,
{
    if den == 0 || num < den * pow2(53) {
        0
    } else {
        proof {
            lemma_significand_powers();
            lemma_mul_inequality(2, pow2(53) as int, den as int);
        }
        1 + scale(num, 2 * den)
    }
}

/// The magnitude nearest to `num / den` units, ties going to the even significand,
/// and infinite where no finite magnitude is near enough.
pub open spec fn nearest(num: nat, den: nat) -> nat {
    let halvings = scale(num, den);
    let rounded = halvings * (IMPLICIT_BIT as nat) + nearest_integer(num, den * pow2(halvings));
    if rounded < INFINITE_MAGNITUDE {
        rounded
    } else {
        INFINITE_MAGNITUDE as nat
    }
}

pub proof fn lemma_significand_powers()
    ensures
        pow2(0) == 1,
        pow2(1) == 2,
        pow2(52) == IMPLICIT_BIT,
        pow2(53) == 2 * IMPLICIT_BIT,
        pow2(54) == 4 * IMPLICIT_BIT,
        pow2(55) == 8 * IMPLICIT_BIT,
{
    lemma2_to64();
    lemma2_to64_rest();
}

/// `scale` is pinned by the binade that the quotient lies in.
pub proof fn lemma_scale_is(num: nat, den: nat, k: nat)
    requires
        den > 0,
        num < den * pow2(53 + k),
        k > 0 ==> den * pow2((52 + k) as nat) <= num,
    ensures
        scale(num, den) == k,
    decreases k,
{
    if k == 0 {
    } else {
        let j = (k - 1) as nat;
        lemma_pow2_unfold(53 + k);
        lemma_pow2_unfold((52 + k) as nat);
        assert(den * pow2(53 + k) == (2 * den) * pow2(53 + j)) by (nonlinear_arith)
            requires
                pow2(53 + k) == 2 * pow2(53 + j),
        ;
        assert(den * pow2(53 + j) <= num);
        if j > 0 {
            assert(den * pow2(52 + k) == (2 * den) * pow2(52 + j)) by (nonlinear_arith)
                requires
                    pow2((52 + k) as nat) == 2 * pow2((52 + j) as nat),
            ;
        }
        lemma_scale_is(num, 2 * den, j);
        assert(pow2(53) <= pow2(53 + j)) by {
            if j > 0 {
                lemma_pow2_strictly_increases(53, 53 + j);
            }
        }
        lemma_mul_inequality(pow2(53) as int, pow2(53 + j) as int, den as int);
        assert(den * pow2(53) <= num) by {
            lemma_mul_is_commutative(den as int, pow2(53) as int);
            lemma_mul_is_commutative(den as int, pow2(53 + j) as int);
        }
    }
}

/// The binade bounds that `scale` promises.
pub proof fn lemma_scale_bounds(num: nat, den: nat)
    requires
        den > 0,
    ensures
        num < den * pow2(53 + scale(num, den)),
        scale(num, den) > 0 ==> den * pow2((52 + scale(num, den)) as nat) <= num,
    decreases num - den,
{
    if num < den * pow2(53) {
    } else {
        lemma_significand_powers();
        lemma_mul_inequality(2, pow2(53) as int, den as int);
        lemma_mul_is_commutative(den as int, pow2(53) as int);
        lemma_scale_bounds(num, 2 * den);
        let j = scale(num, 2 * den);
        let k = scale(num, den);
        assert(k == j + 1);
        lemma_pow2_unfold(53 + k);
        lemma_pow2_unfold((52 + k) as nat);
        assert(den * pow2(53 + k) == (2 * den) * pow2(53 + j)) by (nonlinear_arith)
            requires
                pow2(53 + k) == 2 * pow2(53 + j),
        ;
        if j > 0 {
            assert(den * pow2(52 + k) == (2 * den) * pow2(52 + j)) by (nonlinear_arith)
                requires
                    pow2((52 + k) as nat) == 2 * pow2((52 + j) as nat),
            ;
        }
    }
}

/// Rounding looks at the quotient only: a common factor changes nothing.
pub proof fn lemma_nearest_integer_common_factor(num: nat, den: nat, c: nat)
    requires
        den > 0,
        c > 0,
    ensures
        nearest_integer(num * c, den * c) == nearest_integer(num, den),
{
    let whole = (num / den) as int;
    let rest = (num % den) as int;
    lemma_fundamental_div_mod(num as int, den as int);
    assert(num * c == whole * (den * c) + rest * c) by (nonlinear_arith)
        requires
            num == den * whole + rest,
    ;
    assert(0 <= rest * c < den * c) by (nonlinear_arith)
        requires
            0 <= rest < den,
            c > 0,
    ;
    lemma_fundamental_div_mod_converse((num * c) as int, (den * c) as int, whole, rest * c);
    assert((2 * (rest * c) < den * c) == (2 * rest < den)) by (nonlinear_arith)
        requires
            c > 0,
    ;
    assert((2 * (rest * c) == den * c) == (2 * rest == den)) by (nonlinear_arith)
        requires
            c > 0,
    ;
}

/// `nearest` looks at the quotient only: a common factor changes nothing.
pub proof fn lemma_nearest_common_factor(num: nat, den: nat, c: nat)
    requires
        den > 0,
        c > 0,
    ensures
        nearest(num * c, den * c) == nearest(num, den),
{
    let k = scale(num, den);
    lemma_scale_bounds(num, den);
    assert(den * c > 0) by (nonlinear_arith)
        requires
            den > 0,
            c > 0,
    ;
    let upper = pow2(53 + k);
    assert(num * c < (den * c) * upper) by (nonlinear_arith)
        requires
            num < den * upper,
            c > 0,
    ;
    if k > 0 {
        let lower = pow2((52 + k) as nat);
        assert((den * c) * lower <= num * c) by (nonlinear_arith)
            requires
                den * lower <= num,
                c > 0,
        ;
    }
    lemma_scale_is(num * c, den * c, k);
    lemma_pow2_pos(k);
    let p = pow2(k);
    assert((den * c) * p == (den * p) * c) by (nonlinear_arith);
    assert(den * p > 0) by (nonlinear_arith)
        requires
            den > 0,
            p > 0,
    ;
    lemma_nearest_integer_common_factor(num, den * p, c);
}

/// A whole quotient rounds to itself.
pub proof fn lemma_nearest_integer_exact(whole: nat, den: nat)
    requires
        den > 0,
    ensures
        nearest_integer(whole * den, den) == whole,
{
    lemma_fundamental_div_mod_converse((whole * den) as int, den as int, whole as int, 0);
}

/// Rounding a quotient at a coarser even step needs only its floor `num / den`
/// and whether that floor is exact.
pub proof fn lemma_nearest_integer_coarser(num: nat, den: nat, half: nat)
    requires
        den > 0,
        half > 0,
    ensures
        ({
            let floor = num / den;
            let whole = floor / (2 * half);
            let rest = floor % (2 * half);
            nearest_integer(num, den * (2 * half)) == if rest < half || (rest == half && num % den == 0
                && whole % 2 == 0) {
                whole
            } else {
                whole + 1
            }
        }),
{
    let step = 2 * half;
    let floor = num / den;
    let whole = floor / step;
    let rest = floor % step;
    let sticky = num % den;
    assert(den * step > 0) by (nonlinear_arith)
        requires
            den > 0,
            step > 0,
    ;
    lemma_div_denominator(num as int, den as int, step as int);
    lemma_mod_breakdown(num as int, den as int, step as int);
    assert(num % (den * step) == den * rest + sticky);
    assert(num / (den * step) == whole);
    let full = den * rest + sticky;
    assert(2 * full < den * step <==> rest < half) by (nonlinear_arith)
        requires
            full == den * rest + sticky,
            0 <= sticky < den,
            step == 2 * half,
    ;
    assert(2 * full == den * step <==> rest == half && sticky == 0) by (nonlinear_arith)
        requires
            full == den * rest + sticky,
            0 <= sticky < den,
            step == 2 * half,
    ;
}

/// The numerator of `num / den` after it is divided by two to the power of `e`.
pub open spec fn shifted_num(num: nat, e: int) -> nat {
    if e < 0 {
        num * pow2((-e) as nat)
    } else {
        num
    }
}

/// The denominator of `num / den` after it is divided by two to the power of `e`.
pub open spec fn shifted_den(den: nat, e: int) -> nat {
    if e < 0 {
        den
    } else {
        den * pow2(e as nat)
    }
}

/// The factor by which `shifted_num` and `shifted_den` enlarge a fraction.
spec fn shift_factor(e: int) -> nat {
    if e < 0 {
        pow2((-e) as nat)
    } else {
        1
    }
}

proof fn lemma_shift(num: nat, den: nat, e: int, k: nat)
    requires
        den > 0,
        k >= e,
    ensures
        shift_factor(e) > 0,
        shifted_den(den, e) > 0,
        shifted_num(num, e) == num * shift_factor(e),
        (den * pow2(k)) * shift_factor(e) == shifted_den(den, e) * pow2((k - e) as nat),
{
    let t = (k - e) as nat;
    if e < 0 {
        let f = (-e) as nat;
        lemma_pow2_pos(f);
        lemma_pow2_adds(k, f);
        lemma_mul_is_associative(den as int, pow2(k) as int, pow2(f) as int);
    } else {
        let f = e as nat;
        lemma_pow2_pos(f);
        lemma_pow2_adds(f, t);
        lemma_mul_is_associative(den as int, pow2(f) as int, pow2(t) as int);
        lemma_mul_inequality(1, pow2(f) as int, den as int);
        lemma_mul_is_commutative(den as int, pow2(f) as int);
    }
}

proof fn lemma_shifted_scale(num: nat, den: nat, floor: nat, e: int, k: nat)
    requires
        den > 0,
        k >= e,
        floor == shifted_num(num, e) / shifted_den(den, e),
        floor < pow2((53 + k - e) as nat),
        k > 0 ==> pow2((52 + k - e) as nat) <= floor,
    ensures
        scale(num, den) == k,
{
    let n = shifted_num(num, e);
    let d = shifted_den(den, e);
    let f = shift_factor(e);
    lemma_shift(num, den, e, 53 + k);
    lemma_fundamental_div_mod(n as int, d as int);
    let upper = pow2((53 + k - e) as nat);
    assert(n < d * upper) by (nonlinear_arith)
        requires
            n == d * floor + n % d,
            n % d < d,
            floor + 1 <= upper,
            d > 0,
    ;
    lemma_mul_strict_inequality_converse(num as int, (den * pow2(53 + k)) as int, f as int);
    if k > 0 {
        lemma_shift(num, den, e, 52 + k);
        let lower = pow2((52 + k - e) as nat);
        assert(d * lower <= n) by (nonlinear_arith)
            requires
                n == d * floor + n % d,
                0 <= n % d,
                lower <= floor,
                d > 0,
        ;
        if num < den * pow2(52 + k) {
            lemma_mul_strict_inequality(num as int, (den * pow2(52 + k)) as int, f as int);
        }
    }
    lemma_scale_is(num, den, k);
}

/// The magnitude nearest to a quotient of which the floor after division by two to
/// the power of `e` is known, when that floor carries more bits than a significand.
pub proof fn lemma_nearest_from_floor(num: nat, den: nat, floor: nat, e: int, k: nat)
    requires
        den > 0,
        k > e,
        floor == shifted_num(num, e) / shifted_den(den, e),
        floor < pow2((53 + k - e) as nat),
        k > 0 ==> pow2((52 + k - e) as nat) <= floor,
    ensures
        scale(num, den) == k,
        ({
            let half = pow2((k - e - 1) as nat);
            let whole = floor / (2 * half);
            let rest = floor % (2 * half);
            let exact = shifted_num(num, e) % shifted_den(den, e) == 0;
            nearest_integer(num, den * pow2(k)) == if rest < half || (rest == half && exact && whole
                % 2 == 0) {
                whole
            } else {
                whole + 1
            }
        }),
{
    lemma_shifted_scale(num, den, floor, e, k);
    lemma_shift(num, den, e, k);
    lemma_pow2_pos(k);
    assert(den * pow2(k) > 0) by (nonlinear_arith)
        requires
            den > 0,
            pow2(k) > 0,
    ;
    lemma_nearest_integer_common_factor(num, den * pow2(k), shift_factor(e));
    let half = pow2((k - e - 1) as nat);
    lemma_pow2_pos((k - e - 1) as nat);
    lemma_pow2_unfold((k - e) as nat);
    lemma_nearest_integer_coarser(shifted_num(num, e), shifted_den(den, e), half);
}

/// The magnitude nearest to a quotient that fits a significand without rounding.
pub proof fn lemma_nearest_exact(num: nat, den: nat, whole: nat, e: int, k: nat)
    requires
        den > 0,
        e >= k,
        num == (whole * pow2(e as nat)) * den,
        whole * pow2((e - k) as nat) < pow2(53),
        k > 0 ==> pow2(52) <= whole * pow2((e - k) as nat),
    ensures
        scale(num, den) == k,
        nearest_integer(num, den * pow2(k)) == whole * pow2((e - k) as nat),
{
    let r = whole * pow2((e - k) as nat);
    let p = pow2(k);
    lemma_pow2_pos(k);
    lemma_pow2_adds((e - k) as nat, k);
    assert(num == r * (den * p)) by (nonlinear_arith)
        requires
            num == (whole * pow2(e as nat)) * den,
            pow2(e as nat) == pow2((e - k) as nat) * p,
            r == whole * pow2((e - k) as nat),
    ;
    assert(den * p > 0) by (nonlinear_arith)
        requires
            den > 0,
            p > 0,
    ;
    lemma_nearest_integer_exact(r, den * p);
    lemma_pow2_adds(53, k);
    assert(num < den * pow2(53 + k)) by (nonlinear_arith)
        requires
            num == r * (den * p),
            r < pow2(53),
            den * p > 0,
            pow2(53 + k) == pow2(53) * p,
    ;
    if k > 0 {
        lemma_pow2_adds(52, k);
        assert(den * pow2(52 + k) <= num) by (nonlinear_arith)
            requires
                num == r * (den * p),
                pow2(52) <= r,
                den * p > 0,
                pow2(52 + k) == pow2(52) * p,
        ;
    }
    lemma_scale_is(num, den, k);
}

}
