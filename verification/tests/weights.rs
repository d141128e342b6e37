use weighted_space::weight::Weight;

fn w(value: f64) -> Weight {
    Weight::from_bits(value.to_bits())
}

fn f(weight: Weight) -> f64 {
    f64::from_bits(weight.to_bits())
}

fn same(weight: Weight, value: f64) -> bool {
    if value.is_nan() {
        f(weight).is_nan()
    } else {
        weight.to_bits() == value.to_bits()
    }
}

/// A stream of bit patterns that reaches all exponents, with small significands,
/// equal exponents and special values among them.
fn patterns() -> Vec<u64> {
    let mut out: Vec<u64> = vec![
        0,
        1,
        2,
        3,
        0x000f_ffff_ffff_ffff,
        0x0010_0000_0000_0000,
        0x0010_0000_0000_0001,
        0x001f_ffff_ffff_ffff,
        0x3cb0_0000_0000_0000,
        0x3ca0_0000_0000_0000,
        0x3ca0_0000_0000_0001,
        0x3fe0_0000_0000_0000,
        0x3fef_ffff_ffff_ffff,
        0x3ff0_0000_0000_0000,
        0x3ff0_0000_0000_0001,
        0x4000_0000_0000_0000,
        0x4008_0000_0000_0000,
        0x4340_0000_0000_0000,
        0x7fe0_0000_0000_0000,
        0x7fef_ffff_ffff_ffff,
        0x7ff0_0000_0000_0000,
        0x7ff8_0000_0000_0000,
    ];
    let mut state: u64 = 0x9e37_79b9_7f4a_7c15;
    let mut i = 0;
    while i < 120 {
        state ^= state << 13;
        state ^= state >> 7;
        state ^= state << 17;
        out.push(state & 0x7fff_ffff_ffff_ffff);
        out.push(0x3ff0_0000_0000_0000 | (state >> 12));
        out.push((0x3f00_0000_0000_0000 + ((state >> 40) << 40) % 0x0300_0000_0000_0000) & !0xffff_ffff);
        i += 1;
    }
    let mut signed: Vec<u64> = out.clone();
    for bits in out {
        signed.push(bits | 0x8000_0000_0000_0000);
    }
    signed
}

#[test]
fn arithmetic_agrees_with_the_machine() {
    let all = patterns();
    for a in &all {
        for b in &all {
            let x = f64::from_bits(*a);
            let y = f64::from_bits(*b);
            assert!(same(w(x).plus(w(y)), x + y), "{x:e} + {y:e}");
            assert!(same(w(x).times(w(y)), x * y), "{x:e} * {y:e}");
            assert!(same(w(x).divided_by(w(y)), x / y), "{x:e} / {y:e}");
            assert!(f(w(x).larger(w(y))) == x.max(y) || (x.is_nan() && y.is_nan()));
            assert!(f(w(x).smaller(w(y))) == x.min(y) || (x.is_nan() && y.is_nan()));
        }
    }
}

#[test]
fn counts_agree_with_the_machine() {
    for count in [0u64, 1, 2, 3, 49, (1 << 53) - 1, 1 << 53, (1 << 53) + 1, (1 << 53) + 3, u64::MAX] {
        assert_eq!(Weight::from_count(count).to_bits(), (count as f64).to_bits());
    }
}

#[test]
fn results_are_rounded_to_the_nearest_weight() {
    assert_eq!(f(w(0.1).plus(w(0.2))), 0.30000000000000004);
    assert_eq!(f(w(1.0).divided_by(w(3.0))), 0.3333333333333333);
    // ties go to the even weight
    assert_eq!(f(w(9007199254740992.0).plus(w(1.0))), 9007199254740992.0);
    assert_eq!(f(w(9007199254740994.0).plus(w(1.0))), 9007199254740996.0);
    // the smallest weight has no half
    assert_eq!(w(5e-324).times(w(0.5)).to_bits(), 0);
    assert_eq!(w(5e-324).times(w(0.75)).to_bits(), 1);
}

#[test]
fn too_large_results_are_infinite() {
    let half_a_place: f64 = 9.979201547673599e291;
    assert_eq!(f(w(f64::MAX).plus(w(half_a_place))), f64::INFINITY);
    assert_eq!(f(w(f64::MAX).plus(w(half_a_place / 2.0))), f64::MAX);
    assert_eq!(f(w(-1e200).times(w(1e200))), f64::NEG_INFINITY);
}

#[test]
fn terms_and_factors_commute() {
    for (a, b) in [(0.1, 0.7), (-0.0, 0.0), (f64::INFINITY, 3.0), (1e308, -1e-308)] {
        assert_eq!(w(a).plus(w(b)), w(b).plus(w(a)));
        assert_eq!(w(a).times(w(b)), w(b).times(w(a)));
    }
}

#[test]
fn zero_and_one_are_neutral() {
    for value in [1.5, -0.0, 0.0, 5e-324, f64::MAX, f64::NEG_INFINITY] {
        assert_eq!(w(-0.0).plus(w(value)), w(value));
        assert_eq!(w(1.0).times(w(value)), w(value));
        assert_eq!(w(value).divided_by(w(1.0)), w(value));
    }
    assert_eq!(w(0.0).plus(w(-0.0)), w(0.0));
}

#[test]
fn not_a_number_is_no_extreme() {
    assert_eq!(w(f64::NAN).larger(w(-3.0)), w(-3.0));
    assert_eq!(w(-3.0).larger(w(f64::NAN)), w(-3.0));
    assert_eq!(w(f64::NAN).smaller(w(-3.0)), w(-3.0));
    assert_eq!(w(2.0).larger(w(-3.0)), w(2.0));
    assert_eq!(w(2.0).smaller(w(-3.0)), w(-3.0));
}
