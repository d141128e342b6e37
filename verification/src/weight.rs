//! Weights: binary64 numbers, held as their bit patterns, with exactly rounded arithmetic.
use vstd::arithmetic::div_mod::{
    lemma_fundamental_div_mod, lemma_fundamental_div_mod_converse,
};
use vstd::arithmetic::mul::lemma_mul_is_associative;
use vstd::arithmetic::power2::{
    lemma_pow2_adds, lemma_pow2_pos, lemma_pow2_strictly_increases, lemma_pow2_unfold, pow2,
};
use vstd::prelude::*;

use crate::binary64::{bit_length, decode, lemma_large_powers, round_magnitude, two_to};
use crate::rounding::{
    lemma_scale_is, lemma_significand_powers, nearest, shifted_den, shifted_num, units,
    IMPLICIT_BIT, INFINITE_MAGNITUDE, UNIT_EXPONENT,
};

verus! {

/// The sign bit of a bit pattern.
pub const SIGN_BIT: u64 = 0x8000_0000_0000_0000;

/// The bit pattern of one.
pub const ONE_BITS: u64 = 0x3ff0_0000_0000_0000;

/// The bit pattern of the not-a-number that arithmetic gives.
pub const NAN_BITS: u64 = 0x7ff8_0000_0000_0000;

/// A weight: a binary64 number, held as its bit pattern.
///
/// Two weights are equal when their bit patterns are, so that zero and minus zero
/// differ and a not-a-number equals itself.
#[derive(Clone, Copy, Debug, PartialEq, Eq, Structural)]
pub struct Weight {
    pub bits: u64,
}

impl Weight {
    /// The bit pattern without its sign bit.
    pub open spec fn magnitude(self) -> nat {
        self.bits as nat % SIGN_BIT as nat
    }

    pub open spec fn negative(self) -> bool {
        self.bits >= SIGN_BIT
    }

    pub open spec fn is_nan(self) -> bool {
        self.magnitude() > INFINITE_MAGNITUDE
    }

    pub open spec fn is_infinite(self) -> bool {
        self.magnitude() == INFINITE_MAGNITUDE
    }

    pub open spec fn is_finite(self) -> bool {
        self.magnitude() < INFINITE_MAGNITUDE
    }

    pub open spec fn is_zero(self) -> bool {
        self.magnitude() == 0
    }

    /// The number that a finite weight stands for, in units.
    pub open spec fn value(self) -> int {
        if self.negative() {
            -(units(self.magnitude()) as int)
        } else {
            units(self.magnitude()) as int
        }
    }

    /// The place of a weight that is a number in the order of the numbers.
    pub open spec fn rank(self) -> int {
        if self.negative() {
            -(self.magnitude() as int)
        } else {
            self.magnitude() as int
        }
    }
}

/// The weight with the given sign and magnitude.
pub open spec fn signed(negative: bool, magnitude: nat) -> Weight {
    Weight {
        bits: if negative {
            (SIGN_BIT + magnitude) as u64
        } else {
            magnitude as u64
        },
    }
}

pub open spec fn not_a_number() -> Weight {
    Weight { bits: NAN_BITS }
}

/// The sum of two weights, rounded to the nearest weight. An exact sum of zero is minus
/// zero where both terms are negative, and zero otherwise.
pub open spec fn weight_sum(a: Weight, b: Weight) -> Weight {
    if a.is_nan() || b.is_nan() {
        not_a_number()
    } else if a.is_infinite() {
        if b.is_infinite() && a.negative() != b.negative() {
            not_a_number()
        } else {
            a
        }
    } else if b.is_infinite() {
        b
    } else {
        let exact = a.value() + b.value();
        if exact == 0 {
            signed(a.negative() && b.negative(), 0)
        } else if exact < 0 {
            signed(true, nearest((-exact) as nat, 1))
        } else {
            signed(false, nearest(exact as nat, 1))
        }
    }
}

/// The product of two weights, rounded to the nearest weight.
pub open spec fn weight_product(a: Weight, b: Weight) -> Weight {
    let negative = a.negative() != b.negative();
    if a.is_nan() || b.is_nan() {
        not_a_number()
    } else if a.is_infinite() || b.is_infinite() {
        if a.is_zero() || b.is_zero() {
            not_a_number()
        } else {
            signed(negative, INFINITE_MAGNITUDE as nat)
        }
    } else {
        signed(
            negative,
            nearest(units(a.magnitude()) * units(b.magnitude()), pow2(UNIT_EXPONENT as nat)),
        )
    }
}

/// The quotient of two weights, rounded to the nearest weight.
pub open spec fn weight_quotient(a: Weight, b: Weight) -> Weight {
    let negative = a.negative() != b.negative();
    if a.is_nan() || b.is_nan() || (a.is_infinite() && b.is_infinite()) || (a.is_zero()
        && b.is_zero()) {
        not_a_number()
    } else if a.is_infinite() || b.is_zero() {
        signed(negative, INFINITE_MAGNITUDE as nat)
    } else if b.is_infinite() {
        signed(negative, 0)
    } else {
        signed(
            negative,
            nearest(units(a.magnitude()) * pow2(UNIT_EXPONENT as nat), units(b.magnitude())),
        )
    }
}

/// The larger of two weights, the first where they rank alike, and the other one where
/// one of them is not a number.
pub open spec fn larger_weight(a: Weight, b: Weight) -> Weight {
    if a.is_nan() || (!b.is_nan() && a.rank() < b.rank()) {
        b
    } else {
        a
    }
}

/// The smaller of two weights, the first where they rank alike, and the other one where
/// one of them is not a number.
pub open spec fn smaller_weight(a: Weight, b: Weight) -> Weight {
    if a.is_nan() || (!b.is_nan() && b.rank() < a.rank()) {
        b
    } else {
        a
    }
}

/// The weight nearest to a natural number.
pub open spec fn weight_of_count(count: nat) -> Weight {
    signed(false, nearest(count * pow2(UNIT_EXPONENT as nat), 1))
}

proof fn lemma_nearest_in_range(num: nat, den: nat)
    ensures
        nearest(num, den) <= INFINITE_MAGNITUDE,
{
}

/// A term of less than a quarter of the last place of a number leaves it as it is.
proof fn lemma_absorbed(m: nat, k: nat, small: nat)
    requires
        pow2(52) <= m < pow2(53),
        k > 0,
        4 * small < pow2(k),
        k * IMPLICIT_BIT + m < INFINITE_MAGNITUDE,
    ensures
        nearest(m * pow2(k) + small, 1) == k * IMPLICIT_BIT + m,
        small < m * pow2(k),
        nearest((m * pow2(k) - small) as nat, 1) == k * IMPLICIT_BIT + m,
{
    let p = pow2(k);
    let num = m * p + small;
    lemma_significand_powers();
    lemma_pow2_pos(k);
    lemma_pow2_adds(53, k);
    lemma_pow2_adds(52, k);
    assert(pow2(52) * p <= num < pow2(53) * p) by (nonlinear_arith)
        requires
            num == m * p + small,
            pow2(52) <= m,
            m + 1 <= pow2(53),
            0 <= small < p,
    ;
    lemma_scale_is(num, 1, k);
    lemma_fundamental_div_mod_converse(num as int, p as int, m as int, small as int);
    let less = (m * p - small) as nat;
    assert(small < m * p) by (nonlinear_arith)
        requires
            m >= 1,
            small < p,
    ;
    if small == 0 {
    } else if m > pow2(52) {
        assert(pow2(52) * p <= less < pow2(53) * p) by (nonlinear_arith)
            requires
                less == m * p - small,
                pow2(52) + 1 <= m,
                m <= pow2(53),
                0 < small < p,
        ;
        lemma_scale_is(less, 1, k);
        assert(less == (m - 1) * p + (p - small)) by (nonlinear_arith)
            requires
                less == m * p - small,
        ;
        lemma_fundamental_div_mod_converse(less as int, p as int, m - 1, p - small);
    } else {
        let j = (k - 1) as nat;
        let h = pow2(j);
        lemma_pow2_unfold(k);
        lemma_pow2_adds(53, j);
        lemma_pow2_adds(52, j);
        lemma_pow2_pos(j);
        assert(less == (pow2(53) - 1) * h + (h - small)) by (nonlinear_arith)
            requires
                less == m * p - small,
                p == 2 * h,
                pow2(53) == 2 * m,
        ;
        assert(pow2(52) * h <= less < pow2(53) * h) by (nonlinear_arith)
            requires
                less == (pow2(53) - 1) * h + (h - small),
                0 < small < h,
                pow2(52) + 1 <= pow2(53),
        ;
        lemma_scale_is(less, 1, j);
        lemma_fundamental_div_mod_converse(less as int, h as int, pow2(53) - 1, h - small);
    }
}

/// A weight is pinned by its sign and its magnitude.
pub proof fn lemma_sign_and_magnitude(weight: Weight)
    ensures
        signed(weight.negative(), weight.magnitude()) == weight,
{
}

/// A weight swallows another one that is smaller by 56 binary places.
proof fn lemma_absorbs(high: Weight, low: Weight, mh: nat, kh: nat, ml: nat, kl: nat)
    requires
        high.is_finite(),
        low.is_finite(),
        units(high.magnitude()) == mh * pow2(kh),
        units(low.magnitude()) == ml * pow2(kl),
        high.magnitude() == kh * IMPLICIT_BIT + mh,
        pow2(52) <= mh < pow2(53),
        ml < pow2(53),
        kh >= kl + 56,
    ensures
        weight_sum(high, low) == high,
        weight_sum(low, high) == high,
{
    let small = ml * pow2(kl);
    lemma_pow2_adds(53, kl);
    lemma_pow2_pos(kl);
    assert(small < pow2(53 + kl)) by (nonlinear_arith)
        requires
            small == ml * pow2(kl),
            ml < pow2(53),
            pow2(kl) > 0,
            pow2(53 + kl) == pow2(53) * pow2(kl),
    ;
    lemma_pow2_unfold(54 + kl);
    lemma_pow2_unfold(55 + kl);
    lemma_pow2_strictly_increases(55 + kl, kh);
    lemma_absorbed(mh, kh, small);
    lemma_sign_and_magnitude(high);
}

/// A number of steps of two to the power of `k` units, as a quotient.
proof fn lemma_steps(steps: nat, k: nat)
    ensures
        shifted_num(steps * pow2(k), k as int) / shifted_den(1, k as int) == steps,
        shifted_num(steps * pow2(k), k as int) % shifted_den(1, k as int) == 0,
{
    lemma_pow2_pos(k);
    lemma_fundamental_div_mod_converse(
        (steps * pow2(k)) as int,
        pow2(k) as int,
        steps as int,
        0,
    );
}

/// A significand moved from exponent `k` to the lower exponent `low`.
proof fn lemma_moved_down(m: nat, k: nat, low: nat)
    requires
        m < pow2(53),
        low <= k < low + 56,
    ensures
        (m * pow2((k - low) as nat)) * pow2(low) == m * pow2(k),
        m * pow2((k - low) as nat) < pow2(108),
{
    let d = (k - low) as nat;
    lemma_pow2_adds(d, low);
    lemma_mul_is_associative(m as int, pow2(d) as int, pow2(low) as int);
    lemma_pow2_adds(53, d);
    lemma_pow2_pos(d);
    assert(m * pow2(d) < pow2(53 + d)) by (nonlinear_arith)
        requires
            m < pow2(53),
            pow2(d) > 0,
            pow2(53 + d) == pow2(53) * pow2(d),
    ;
    if 53 + d < 108 {
        lemma_pow2_strictly_increases(53 + d, 108);
    }
}

/// Signed multiples of `p` add up as their multipliers do.
proof fn lemma_signed_steps(an: bool, x: nat, bn: bool, y: nat, p: nat)
    requires
        p > 0,
    ensures
        ({
            let a: int = if an {
                -(x * p)
            } else {
                (x * p) as int
            };
            let b: int = if bn {
                -(y * p)
            } else {
                (y * p) as int
            };
            let steps: int = if an == bn {
                (x + y) as int
            } else if x >= y {
                x - y
            } else {
                y - x
            };
            let negative = if an == bn || x >= y {
                an
            } else {
                bn
            };
            &&& a + b == if negative {
                -(steps * p)
            } else {
                steps * p
            }
            &&& steps > 0 ==> steps * p > 0
            &&& steps == 0 ==> steps * p == 0
        }),
{
    let px = (x * p) as int;
    let py = (y * p) as int;
    assert((x + y) * p == px + py) by (nonlinear_arith)
        requires
            px == x * p,
            py == y * p,
    ;
    assert((x - y) * p == px - py) by (nonlinear_arith)
        requires
            px == x * p,
            py == y * p,
    ;
    assert((y - x) * p == py - px) by (nonlinear_arith)
        requires
            px == x * p,
            py == y * p,
    ;
    assert forall|steps: int| steps > 0 implies #[trigger] (steps * p) > 0 by {
        assert(steps * p > 0) by (nonlinear_arith)
            requires
                steps > 0,
                p > 0,
        ;
    }
}

/// A product of significands as a quotient of units.
proof fn lemma_product_floor(ma: nat, ka: nat, mb: nat, kb: nat)
    ensures
        ({
            let e = ka + kb - UNIT_EXPONENT;
            let num = (ma * pow2(ka)) * (mb * pow2(kb));
            let den = pow2(UNIT_EXPONENT as nat);
            &&& shifted_num(num, e) / shifted_den(den, e) == ma * mb
            &&& shifted_num(num, e) % shifted_den(den, e) == 0
        }),
{
    let u = UNIT_EXPONENT as nat;
    let e = ka + kb - u;
    let num = (ma * pow2(ka)) * (mb * pow2(kb));
    lemma_pow2_adds(ka, kb);
    let c = pow2(ka + kb);
    assert(num == (ma * mb) * c) by (nonlinear_arith)
        requires
            num == (ma * pow2(ka)) * (mb * pow2(kb)),
            c == pow2(ka) * pow2(kb),
    ;
    if e < 0 {
        lemma_pow2_adds(ka + kb, (-e) as nat);
        lemma_mul_is_associative((ma * mb) as int, c as int, pow2((-e) as nat) as int);
        lemma_pow2_pos(u);
        lemma_fundamental_div_mod_converse(
            (num * pow2((-e) as nat)) as int,
            pow2(u) as int,
            (ma * mb) as int,
            0,
        );
    } else {
        lemma_pow2_adds(u, e as nat);
        lemma_pow2_pos(ka + kb);
        lemma_fundamental_div_mod_converse(num as int, c as int, (ma * mb) as int, 0);
    }
}

/// A quotient of significands, the upper one widened by `places` binary places, as a
/// quotient of units.
proof fn lemma_quotient_floor(ma: nat, ka: nat, mb: nat, kb: nat, places: nat)
    requires
        mb > 0,
    ensures
        ({
            let e = ka + UNIT_EXPONENT - kb - places;
            let num = (ma * pow2(ka)) * pow2(UNIT_EXPONENT as nat);
            let den = mb * pow2(kb);
            let wide = ma * pow2(places);
            &&& den > 0
            &&& shifted_num(num, e) / shifted_den(den, e) == wide / mb
            &&& shifted_num(num, e) % shifted_den(den, e) == 0 <==> wide % mb == 0
        }),
{
    let u = UNIT_EXPONENT as nat;
    let e = ka + u - kb - places;
    let num = (ma * pow2(ka)) * pow2(u);
    let den = mb * pow2(kb);
    let wide = ma * pow2(places);
    lemma_pow2_adds(ka, u);
    lemma_mul_is_associative(ma as int, pow2(ka) as int, pow2(u) as int);
    lemma_pow2_pos(kb);
    assert(den > 0) by (nonlinear_arith)
        requires
            den == mb * pow2(kb),
            mb > 0,
            pow2(kb) > 0,
    ;
    let c = if e < 0 {
        pow2(kb)
    } else {
        pow2(kb + e as nat)
    };
    if e < 0 {
        lemma_pow2_adds(ka + u, (-e) as nat);
        lemma_pow2_adds(places, kb);
        lemma_mul_is_associative(ma as int, pow2(ka + u) as int, pow2((-e) as nat) as int);
        lemma_mul_is_associative(ma as int, pow2(places) as int, pow2(kb) as int);
        assert(ka + u + (-e) as nat == places + kb);
    } else {
        lemma_pow2_adds(kb, e as nat);
        lemma_pow2_pos(kb + e as nat);
        lemma_pow2_adds(places, kb + e as nat);
        lemma_mul_is_associative(mb as int, pow2(kb) as int, pow2(e as nat) as int);
        lemma_mul_is_associative(ma as int, pow2(places) as int, c as int);
        assert(ka + u == places + (kb + e as nat));
    }
    assert(shifted_num(num, e) == wide * c);
    assert(shifted_den(den, e) == mb * c);
    let q = (wide / mb) as int;
    let r = (wide % mb) as int;
    lemma_fundamental_div_mod(wide as int, mb as int);
    assert(wide * c == q * (mb * c) + r * c) by (nonlinear_arith)
        requires
            wide == mb * q + r,
    ;
    assert(0 <= r * c < mb * c) by (nonlinear_arith)
        requires
            0 <= r < mb,
            c > 0,
    ;
    assert(r * c == 0 <==> r == 0) by (nonlinear_arith)
        requires
            c > 0,
    ;
    lemma_fundamental_div_mod_converse((wide * c) as int, (mb * c) as int, q, r * c);
}

/// A significand widened to 126 binary places has a quotient of at least 72 places.
proof fn lemma_widened(m: nat, length: nat, d: nat)
    requires
        1 <= length <= 54,
        pow2((length - 1) as nat) <= m < pow2(length),
        0 < d < pow2(53),
    ensures
        m * pow2((126 - length) as nat) < pow2(126),
        pow2(54) <= (m * pow2((126 - length) as nat)) / d < pow2(126),
{
    let places = (126 - length) as nat;
    let wide = m * pow2(places);
    lemma_pow2_pos(places);
    lemma_pow2_adds(length, places);
    lemma_pow2_adds((length - 1) as nat, places);
    lemma_pow2_adds(54, 53);
    lemma_pow2_strictly_increases(107, 125);
    assert(pow2(125) <= wide < pow2(126)) by (nonlinear_arith)
        requires
            wide == m * pow2(places),
            pow2((length - 1) as nat) <= m < pow2(length),
            pow2(places) > 0,
            pow2(126) == pow2(length) * pow2(places),
            pow2(125) == pow2((length - 1) as nat) * pow2(places),
    ;
    lemma_fundamental_div_mod(wide as int, d as int);
    let q = wide / d;
    let r = wide % d;
    assert(q <= wide) by (nonlinear_arith)
        requires
            wide == d * q + r,
            d >= 1,
            r >= 0,
            q >= 0,
    ;
    assert(pow2(54) <= q) by (nonlinear_arith)
        requires
            wide == d * q + r,
            r < d,
            d < pow2(53),
            pow2(54) * pow2(53) < wide,
            d > 0,
    ;
}

/// Only zero has no units.
pub proof fn lemma_units_of_zero(magnitude: nat)
    ensures
        units(magnitude) == 0 <==> magnitude == 0,
{
    let exponent = magnitude / (IMPLICIT_BIT as nat);
    if exponent > 0 {
        let p = pow2((exponent - 1) as nat);
        lemma_pow2_pos((exponent - 1) as nat);
        let m = IMPLICIT_BIT + magnitude % (IMPLICIT_BIT as nat);
        assert(m * p > 0) by (nonlinear_arith)
            requires
                m > 0,
                p > 0,
        ;
    }
}

impl Weight {
    /// The weight of a bit pattern.
    pub fn from_bits(bits: u64) -> (weight: Weight)
        ensures
            weight.bits == bits,
    {
        Weight { bits }
    }

    /// The bit pattern of a weight.
    pub fn to_bits(self) -> (bits: u64)
        ensures
            bits == self.bits,
    {
        self.bits
    }

    fn split(self) -> (parts: (bool, u64))
        ensures
            parts.0 == self.negative(),
            parts.1 == self.magnitude(),
    {
        (self.bits >= SIGN_BIT, self.bits % SIGN_BIT)
    }

    fn join(negative: bool, magnitude: u64) -> (weight: Weight)
        requires
            magnitude <= INFINITE_MAGNITUDE,
        ensures
            weight == signed(negative, magnitude as nat),
    {
        if negative {
            Weight { bits: SIGN_BIT + magnitude }
        } else {
            Weight { bits: magnitude }
        }
    }

    /// The sum of two weights.
    pub fn plus(self, other: Weight) -> (sum: Weight)
        ensures
            sum == weight_sum(self, other),
    {
        let (an, am) = self.split();
        let (bn, bm) = other.split();
        if am > INFINITE_MAGNITUDE || bm > INFINITE_MAGNITUDE {
            return Weight { bits: NAN_BITS };
        }
        if am == INFINITE_MAGNITUDE {
            if bm == INFINITE_MAGNITUDE && an != bn {
                return Weight { bits: NAN_BITS };
            }
            return self;
        }
        if bm == INFINITE_MAGNITUDE {
            return other;
        }
        let (ma, ka) = decode(am);
        let (mb, kb) = decode(bm);
        if ka >= kb + 56 {
            proof {
                lemma_absorbs(self, other, ma as nat, ka as nat, mb as nat, kb as nat);
            }
            return self;
        }
        if kb >= ka + 56 {
            proof {
                lemma_absorbs(other, self, mb as nat, kb as nat, ma as nat, ka as nat);
            }
            return other;
        }
        self.near_sum(other, ma, ka, mb, kb)
    }

    /// The sum of two finite weights whose exponents are close together.
    fn near_sum(self, other: Weight, ma: u64, ka: u32, mb: u64, kb: u32) -> (sum: Weight)
        requires
            self.is_finite(),
            other.is_finite(),
            units(self.magnitude()) == ma * pow2(ka as nat),
            units(other.magnitude()) == mb * pow2(kb as nat),
            ma < pow2(53),
            mb < pow2(53),
            ka <= 2045,
            kb <= 2045,
            ka < kb + 56,
            kb < ka + 56,
        ensures
            sum == weight_sum(self, other),
    {
        let an: bool = self.bits >= SIGN_BIT;
        let bn: bool = other.bits >= SIGN_BIT;
        let k: u32 = if ka < kb {
            ka
        } else {
            kb
        };
        proof {
            lemma_large_powers();
            lemma_pow2_unfold(109);
            lemma_pow2_strictly_increases(109, 126);
            lemma_moved_down(ma as nat, ka as nat, k as nat);
            lemma_moved_down(mb as nat, kb as nat, k as nat);
        }
        let pa: u128 = two_to(ka - k);
        let pb: u128 = two_to(kb - k);
        let x: u128 = (ma as u128) * pa;
        let y: u128 = (mb as u128) * pb;
        let ghost p = pow2(k as nat);
        proof {
            lemma_pow2_pos(k as nat);
            lemma_signed_steps(self.negative(), x as nat, other.negative(), y as nat, p);
        }
        let (negative, steps): (bool, u128) = if an == bn {
            (an, x + y)
        } else if x >= y {
            (an, x - y)
        } else {
            (bn, y - x)
        };
        if steps == 0 {
            return Weight::join(an && bn, 0);
        }
        proof {
            lemma_steps(steps as nat, k as nat);
            lemma_nearest_in_range((steps * p) as nat, 1);
        }
        let magnitude: u64 = round_magnitude(
            steps,
            k as i32,
            true,
            Ghost((steps * p) as nat),
            Ghost(1nat),
        );
        Weight::join(negative, magnitude)
    }

    /// The product of two weights.
    pub fn times(self, other: Weight) -> (product: Weight)
        ensures
            product == weight_product(self, other),
    {
        let (an, am) = self.split();
        let (bn, bm) = other.split();
        let negative: bool = an != bn;
        if am > INFINITE_MAGNITUDE || bm > INFINITE_MAGNITUDE {
            return Weight { bits: NAN_BITS };
        }
        if am == INFINITE_MAGNITUDE || bm == INFINITE_MAGNITUDE {
            if am == 0 || bm == 0 {
                return Weight { bits: NAN_BITS };
            }
            return Weight::join(negative, INFINITE_MAGNITUDE);
        }
        let (ma, ka) = decode(am);
        let (mb, kb) = decode(bm);
        proof {
            lemma_significand_powers();
            lemma_large_powers();
            lemma_product_floor(ma as nat, ka as nat, mb as nat, kb as nat);
            assert(ma * mb < 0x4000_0000_0000_0000_0000_0000_0000_0000) by (nonlinear_arith)
                requires
                    ma < 0x20_0000_0000_0000,
                    mb < 0x20_0000_0000_0000,
            ;
            lemma_pow2_pos(UNIT_EXPONENT as nat);
            lemma_nearest_in_range(
                units(am as nat) * units(bm as nat),
                pow2(UNIT_EXPONENT as nat),
            );
        }
        let magnitude: u64 = round_magnitude(
            (ma as u128) * (mb as u128),
            ka as i32 + kb as i32 - UNIT_EXPONENT as i32,
            true,
            Ghost(units(am as nat) * units(bm as nat)),
            Ghost(pow2(UNIT_EXPONENT as nat)),
        );
        Weight::join(negative, magnitude)
    }

    /// The quotient of two weights.
    pub fn divided_by(self, other: Weight) -> (quotient: Weight)
        ensures
            quotient == weight_quotient(self, other),
    {
        let (an, am) = self.split();
        let (bn, bm) = other.split();
        let negative: bool = an != bn;
        if am > INFINITE_MAGNITUDE || bm > INFINITE_MAGNITUDE || (am == INFINITE_MAGNITUDE && bm
            == INFINITE_MAGNITUDE) || (am == 0 && bm == 0) {
            return Weight { bits: NAN_BITS };
        }
        if am == INFINITE_MAGNITUDE || bm == 0 {
            return Weight::join(negative, INFINITE_MAGNITUDE);
        }
        if bm == INFINITE_MAGNITUDE {
            return Weight::join(negative, 0);
        }
        let (ma, ka) = decode(am);
        let (mb, kb) = decode(bm);
        proof {
            lemma_significand_powers();
            lemma_large_powers();
            lemma_units_of_zero(bm as nat);
            lemma_nearest_in_range(
                units(am as nat) * pow2(UNIT_EXPONENT as nat),
                units(bm as nat),
            );
            if mb == 0 {
                assert(mb * pow2(kb as nat) == 0) by (nonlinear_arith)
                    requires
                        mb == 0,
                ;
            }
        }
        if ma == 0 {
            proof {
                lemma_quotient_floor(ma as nat, ka as nat, mb as nat, kb as nat, 0);
                assert(0 * pow2(0) == 0);
                lemma_fundamental_div_mod_converse(0, mb as int, 0, 0);
            }
            let magnitude: u64 = round_magnitude(
                0,
                ka as i32 + UNIT_EXPONENT as i32 - kb as i32,
                true,
                Ghost(units(am as nat) * pow2(UNIT_EXPONENT as nat)),
                Ghost(units(bm as nat)),
            );
            return Weight::join(negative, magnitude);
        }
        proof {
            lemma_pow2_strictly_increases(53, 126);
        }
        let length: u32 = bit_length(ma as u128);
        proof {
            if length > 53 {
                if length > 54 {
                    lemma_pow2_strictly_increases(53, (length - 1) as nat);
                }
            }
        }
        let places: u32 = 126 - length;
        let factor: u128 = two_to(places);
        proof {
            lemma_quotient_floor(ma as nat, ka as nat, mb as nat, kb as nat, places as nat);
            lemma_widened(ma as nat, length as nat, mb as nat);
        }
        let wide: u128 = (ma as u128) * factor;
        let floor: u128 = wide / (mb as u128);
        let exact: bool = wide % (mb as u128) == 0;
        let magnitude: u64 = round_magnitude(
            floor,
            ka as i32 + UNIT_EXPONENT as i32 - kb as i32 - places as i32,
            exact,
            Ghost(units(am as nat) * pow2(UNIT_EXPONENT as nat)),
            Ghost(units(bm as nat)),
        );
        Weight::join(negative, magnitude)
    }

    /// The weight nearest to a number of things.
    pub fn from_count(count: u64) -> (weight: Weight)
        ensures
            weight == weight_of_count(count as nat),
    {
        let ghost num = count as nat * pow2(UNIT_EXPONENT as nat);
        proof {
            lemma_large_powers();
            vstd::arithmetic::power2::lemma2_to64();
            lemma_pow2_strictly_increases(64, 126);
            lemma_steps(count as nat, UNIT_EXPONENT as nat);
            lemma_nearest_in_range(num, 1);
        }
        let magnitude: u64 = round_magnitude(
            count as u128,
            UNIT_EXPONENT as i32,
            true,
            Ghost(num),
            Ghost(1nat),
        );
        Weight::join(false, magnitude)
    }

    /// The larger of two weights.
    pub fn larger(self, other: Weight) -> (larger: Weight)
        ensures
            larger == larger_weight(self, other),
    {
        let (_, am) = self.split();
        let (_, bm) = other.split();
        if am > INFINITE_MAGNITUDE || (bm <= INFINITE_MAGNITUDE && self.ranks_below(other)) {
            other
        } else {
            self
        }
    }

    /// The smaller of two weights.
    pub fn smaller(self, other: Weight) -> (smaller: Weight)
        ensures
            smaller == smaller_weight(self, other),
    {
        let (_, am) = self.split();
        let (_, bm) = other.split();
        if am > INFINITE_MAGNITUDE || (bm <= INFINITE_MAGNITUDE && other.ranks_below(self)) {
            other
        } else {
            self
        }
    }

    fn ranks_below(self, other: Weight) -> (below: bool)
        ensures
            below == (self.rank() < other.rank()),
    {
        let (an, am) = self.split();
        let (bn, bm) = other.split();
        if an {
            if bn {
                bm < am
            } else {
                am > 0 || bm > 0
            }
        } else {
            !bn && am < bm
        }
    }
}

}
