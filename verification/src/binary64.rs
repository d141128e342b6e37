//! Taking binary64 magnitudes apart and putting rounded ones together.
use vstd::arithmetic::div_mod::{
    lemma_fundamental_div_mod, lemma_fundamental_div_mod_converse,
};
use vstd::arithmetic::mul::lemma_mul_inequality;
use vstd::arithmetic::power2::{
    lemma_pow2_adds, lemma_pow2_pos, lemma_pow2_strictly_increases, lemma_pow2_unfold, pow2,
};
use vstd::prelude::*;

use crate::rounding::{
    lemma_nearest_exact, lemma_nearest_from_floor, lemma_significand_powers, nearest, scale,
    shifted_den, shifted_num, units, IMPLICIT_BIT, INFINITE_MAGNITUDE,
};

verus! {

/// Two to the power of `exponent`.
pub(crate) fn two_to(exponent: u32) -> (power: u128)
    requires
        exponent <= 127,
    ensures
        power == pow2(exponent as nat),
{
    let mut power: u128 = 1;
    let mut done: u32 = 0;
    proof {
        lemma_significand_powers();
        lemma_large_powers();
    }
    while done < exponent
        invariant
            done <= exponent <= 127,
            power == pow2(done as nat),
            pow2(127) == 0x8000_0000_0000_0000_0000_0000_0000_0000,
        decreases exponent - done,
    {
        proof {
            lemma_pow2_unfold((done + 1) as nat);
            if done + 1 < 127 {
                lemma_pow2_strictly_increases((done + 1) as nat, 127);
            }
        }
        power = power * 2;
        done = done + 1;
    }
    power
}

pub(crate) proof fn lemma_large_powers()
    ensures
        pow2(63) == 0x8000_0000_0000_0000,
        pow2(126) == 0x4000_0000_0000_0000_0000_0000_0000_0000,
        pow2(127) == 0x8000_0000_0000_0000_0000_0000_0000_0000,
{
    vstd::arithmetic::power2::lemma2_to64_rest();
    lemma_pow2_adds(63, 63);
    lemma_pow2_unfold(127);
}

/// The number of binary digits of `value`.
pub(crate) fn bit_length(value: u128) -> (length: u32)
    requires
        0 < value < pow2(126),
    ensures
        1 <= length <= 126,
        pow2((length - 1) as nat) <= value < pow2(length as nat),
{
    let mut length: u32 = 1;
    let mut power: u128 = 2;
    proof {
        lemma_significand_powers();
        lemma_large_powers();
    }
    while power <= value
        invariant
            1 <= length <= 126,
            pow2(126) <= pow2(127),
            power == pow2(length as nat),
            pow2((length - 1) as nat) <= value < pow2(126),
            pow2(127) == 0x8000_0000_0000_0000_0000_0000_0000_0000,
        decreases 126 - length,
    {
        proof {
            lemma_pow2_unfold((length + 1) as nat);
            if length + 1 < 127 {
                lemma_pow2_strictly_increases((length + 1) as nat, 127);
            }
        }
        power = power * 2;
        length = length + 1;
    }
    length
}

/// The significand and the exponent of a finite magnitude, in units.
pub(crate) fn decode(magnitude: u64) -> (parts: (u64, u32))
    requires
        magnitude < INFINITE_MAGNITUDE,
    ensures
        units(magnitude as nat) == parts.0 * pow2(parts.1 as nat),
        parts.0 < pow2(53),
        parts.1 <= 2045,
        parts.1 > 0 ==> pow2(52) <= parts.0,
        magnitude == parts.1 * IMPLICIT_BIT + parts.0,
{
    proof {
        lemma_significand_powers();
    }
    let exponent: u64 = magnitude / IMPLICIT_BIT;
    let fraction: u64 = magnitude % IMPLICIT_BIT;
    if exponent == 0 {
        assert(units(magnitude as nat) == fraction);
        assert(fraction * pow2(0) == fraction) by (nonlinear_arith)
            requires
                pow2(0) == 1,
        ;
        (fraction, 0)
    } else {
        (IMPLICIT_BIT + fraction, (exponent - 1) as u32)
    }
}

proof fn lemma_shifted_den_positive(den: nat, e: int)
    requires
        den > 0,
    ensures
        shifted_den(den, e) > 0,
{
    if e >= 0 {
        let p = pow2(e as nat);
        lemma_pow2_pos(e as nat);
        assert(den * p > 0) by (nonlinear_arith)
            requires
                den > 0,
                p > 0,
        ;
    }
}

proof fn lemma_zero_quotient(num: nat, den: nat, e: int)
    requires
        den > 0,
        shifted_num(num, e) == 0,
    ensures
        nearest(num, den) == 0,
{
    if e < 0 {
        let p = pow2((-e) as nat);
        lemma_pow2_pos((-e) as nat);
        assert(num == 0) by (nonlinear_arith)
            requires
                num * p == 0,
                p > 0,
        ;
    }
    lemma_pow2_pos(53);
    lemma_pow2_pos(0);
    assert(0 < den * pow2(53)) by (nonlinear_arith)
        requires
            den > 0,
            pow2(53) > 0,
    ;
    assert(0 < den * pow2(0)) by (nonlinear_arith)
        requires
            den > 0,
            pow2(0) > 0,
    ;
    assert(scale(num, den) == 0);
    lemma_fundamental_div_mod_converse(0, (den * pow2(0)) as int, 0, 0);
}

proof fn lemma_left_shift_fits(floor: nat, length: nat, left: nat)
    requires
        floor < pow2(length),
        length + left <= 53,
    ensures
        floor * pow2(left) < pow2(53),
{
    lemma_pow2_pos(left);
    lemma_pow2_adds(length, left);
    let a = pow2(length);
    let p = pow2(left);
    assert(floor * p < a * p) by (nonlinear_arith)
        requires
            floor < a,
            p > 0,
    ;
    if length + left < 53 {
        lemma_pow2_strictly_increases(length + left, 53);
    }
}

/// The bounds of a floor carry over to its quotient by two to the power of `t`.
proof fn lemma_whole_bounds(floor: nat, t: nat)
    requires
        floor < pow2(53 + t),
    ensures
        floor / pow2(t) < pow2(53),
        pow2(52 + t) <= floor ==> pow2(52) <= floor / pow2(t),
{
    let p = pow2(t);
    lemma_pow2_pos(t);
    lemma_pow2_adds(53, t);
    lemma_pow2_adds(52, t);
    lemma_fundamental_div_mod(floor as int, p as int);
    let whole = floor / p;
    let rest = floor % p;
    assert(whole < pow2(53)) by (nonlinear_arith)
        requires
            floor == p * whole + rest,
            rest >= 0,
            floor < pow2(53) * p,
            p > 0,
    ;
    if pow2(52 + t) <= floor {
        assert(pow2(52) <= whole) by (nonlinear_arith)
            requires
                floor == p * whole + rest,
                rest < p,
                pow2(52) * p <= floor,
                p > 0,
        ;
    }
}

/// The magnitude nearest to `num / den` units, from `floor`, which is that quotient
/// divided by two to the power of `e` and cut to a whole number, and from whether
/// that cut took nothing away.
pub(crate) fn round_magnitude(
    floor: u128,
    e: i32,
    exact: bool,
    Ghost(num): Ghost<nat>,
    Ghost(den): Ghost<nat>,
) -> (magnitude: u64)
    requires
        den > 0,
        -10_000 <= e <= 10_000,
        floor < pow2(126),
        floor == shifted_num(num, e as int) / shifted_den(den, e as int),
        exact == (shifted_num(num, e as int) % shifted_den(den, e as int) == 0),
        exact || pow2(54) <= floor,
    ensures
        magnitude == nearest(num, den),
{
    proof {
        lemma_significand_powers();
        lemma_large_powers();
        lemma_shifted_den_positive(den, e as int);
    }
    let ghost shifted = shifted_num(num, e as int);
    let ghost step_den = shifted_den(den, e as int);
    proof {
        lemma_fundamental_div_mod(shifted as int, step_den as int);
    }
    if floor == 0 {
        proof {
            assert(step_den * 0 == 0) by (nonlinear_arith);
            lemma_zero_quotient(num, den, e as int);
        }
        return 0;
    }
    let length: u32 = bit_length(floor);
    let wanted: i32 = e + length as i32 - 53;
    let k: i32 = if wanted < 0 {
        0
    } else {
        wanted
    };
    let t: i32 = k - e;
    let ghost kk = k as nat;
    if t <= 0 {
        let left: u32 = (e - k) as u32;
        let factor: u128 = two_to(left);
        proof {
            lemma_left_shift_fits(floor as nat, length as nat, left as nat);
            let p = pow2(e as nat);
            lemma_pow2_strictly_increases(length as nat, 54);
            assert(exact);
            assert(num == step_den * floor);
            assert(num == (floor * p) * den) by (nonlinear_arith)
                requires
                    num == step_den * floor,
                    step_den == den * p,
            ;
            if k > 0 {
                lemma_pow2_adds((length - 1) as nat, left as nat);
                lemma_mul_inequality(
                    pow2((length - 1) as nat) as int,
                    floor as int,
                    pow2(left as nat) as int,
                );
            }
            lemma_nearest_exact(num, den, floor as nat, e as int, kk);
        }
        let significand: u64 = (floor * factor) as u64;
        if k > 2045 {
            return INFINITE_MAGNITUDE;
        }
        (k as u64) * IMPLICIT_BIT + significand
    } else {
        proof {
            if length < 53 + t {
                lemma_pow2_strictly_increases(length as nat, (53 + t) as nat);
            }
            lemma_nearest_from_floor(num, den, floor as nat, e as int, kk);
        }
        if k > 2045 {
            proof {
                lemma_pow2_unfold(t as nat);
                lemma_whole_bounds(floor as nat, t as nat);
            }
            return INFINITE_MAGNITUDE;
        }
        if t > 127 {
            proof {
                let half = pow2((t - 1) as nat);
                lemma_pow2_strictly_increases(126, (t - 1) as nat);
                lemma_fundamental_div_mod_converse(floor as int, (2 * half) as int, 0, floor as int);
            }
            return (k as u64) * IMPLICIT_BIT;
        }
        let half: u128 = two_to((t - 1) as u32);
        let step: u128 = two_to(t as u32);
        proof {
            lemma_pow2_pos(t as nat);
        }
        let whole: u128 = floor / step;
        let rest: u128 = floor % step;
        proof {
            lemma_pow2_unfold(t as nat);
            lemma_whole_bounds(floor as nat, t as nat);
        }
        let significand: u64 = if rest < half || (rest == half && exact && whole % 2 == 0) {
            whole as u64
        } else {
            (whole + 1) as u64
        };
        (k as u64) * IMPLICIT_BIT + significand
    }
}

}
