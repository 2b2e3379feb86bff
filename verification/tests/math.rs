use firmware::math::{
    ClarkeVector, ClarkeVectorExt, PhasePwmVector, PhasePwmVectorExt, HALF_SQRT_3_BITS,
    MINUS_HALF_BITS, SQRT_3_BITS,
};
use firmware::single::Single;

fn s(x: f32) -> Single {
    Single::from_bits(x.to_bits())
}

fn f(x: Single) -> f32 {
    f32::from_bits(x.to_bits())
}

fn phase(a: f32, b: f32, c: f32) -> PhasePwmVector {
    [s(a), s(b), s(c)]
}

fn clarke(alpha: f32, beta: f32) -> ClarkeVector {
    [s(alpha), s(beta)]
}

fn close(x: f32, y: f32, tolerance: f32) -> bool {
    (x - y).abs() <= tolerance
}

#[test]
fn constants_are_the_rounded_values() {
    assert_eq!(SQRT_3_BITS, 3.0f32.sqrt().to_bits());
    assert_eq!(HALF_SQRT_3_BITS, (3.0f32.sqrt() / 2.0).to_bits());
    assert_eq!(MINUS_HALF_BITS, (-0.5f32).to_bits());
    assert_eq!(s(3.0f32.sqrt()).div(s(2.0)).to_bits(), HALF_SQRT_3_BITS);
}

#[test]
fn new_vectors_are_zero() {
    let p: PhasePwmVector = PhasePwmVectorExt::new();
    assert_eq!(p, [s(0.0), s(0.0), s(0.0)]);
    let c: ClarkeVector = ClarkeVectorExt::new();
    assert_eq!(c, [s(0.0), s(0.0)]);
}

#[test]
fn as_clarke_of_unit_a() {
    let c = phase(1.0, 0.0, 0.0).as_clarke();
    assert_eq!(f(c[0]), 1.0);
    assert_eq!(f(c[1]), 0.0);
}

#[test]
fn as_clarke_of_opposed_b_and_c() {
    let c = phase(0.0, 1.0, -1.0).as_clarke();
    assert_eq!(f(c[0]), 0.0);
    assert_eq!(c[1].to_bits(), (2.0f32 / 3.0f32.sqrt()).to_bits());
    assert!(close(f(c[1]), 1.1547, 1e-4));
}

#[test]
fn as_phase_pwm_of_unit_alpha() {
    let p = clarke(1.0, 0.0).as_phase_pwm();
    assert_eq!(f(p[0]), 1.0);
    assert_eq!(f(p[1]), -0.5);
    assert_eq!(f(p[2]), -0.5);
}

#[test]
fn as_phase_pwm_of_unit_beta() {
    let p = clarke(0.0, 1.0).as_phase_pwm();
    assert_eq!(f(p[0]), 0.0);
    assert!(close(f(p[1]), 0.8660, 1e-4));
    assert!(close(f(p[2]), -0.8660, 1e-4));
    assert_eq!(p[1].to_bits(), (3.0f32.sqrt() / 2.0).to_bits());
    assert_eq!(p[2].to_bits(), (-(3.0f32.sqrt() / 2.0)).to_bits());
}

#[test]
fn transforms_match_hardware_arithmetic() {
    let root = 3.0f32.sqrt();
    let mut state: u64 = 99;
    for _ in 0..200000 {
        let mut next = || {
            state = state.wrapping_mul(6364136223846793005).wrapping_add(1442695040888963407);
            ((state >> 40) as f32 / (1u64 << 23) as f32) * 2.0 - 1.0
        };
        let (x, y, z) = (next(), next(), next());
        let c = phase(x, y, z).as_clarke();
        assert_eq!(c[0].to_bits(), x.to_bits());
        assert_eq!(c[1].to_bits(), ((y - z) / root).to_bits());
        let p = clarke(x, y).as_phase_pwm();
        assert_eq!(p[0].to_bits(), x.to_bits());
        assert_eq!(p[1].to_bits(), (-0.5 * x + root / 2.0 * y).to_bits());
        assert_eq!(p[2].to_bits(), (-0.5 * x - root / 2.0 * y).to_bits());
    }
}

#[test]
fn round_trip_stays_within_tolerance() {
    let mut state: u64 = 7;
    for _ in 0..200000 {
        let mut next = || {
            state = state.wrapping_mul(6364136223846793005).wrapping_add(1442695040888963407);
            ((state >> 40) as f32 / (1u64 << 23) as f32) * 2.0 - 1.0
        };
        let (alpha, beta) = (next(), next());
        let back = clarke(alpha, beta).as_phase_pwm().as_clarke();
        assert_eq!(back[0].to_bits(), alpha.to_bits());
        assert!(close(f(back[1]), beta, 1e-5), "{} {} -> {}", alpha, beta, f(back[1]));
    }
    for &(alpha, beta) in [(0.0f32, 0.0f32), (1.0, 1.0), (-1.0, 1.0), (1.0, -1.0), (0.25, -0.75), (1e-30, -1e-30)].iter() {
        let back = clarke(alpha, beta).as_phase_pwm().as_clarke();
        assert!(close(f(back[0]), alpha, 1e-5));
        assert!(close(f(back[1]), beta, 1e-5));
    }
}

#[test]
fn non_finite_inputs_propagate() {
    let c = phase(f32::NAN, 1.0, f32::INFINITY).as_clarke();
    assert!(c[0].is_nan());
    assert_eq!(f(c[1]), f32::NEG_INFINITY);
    let p = clarke(f32::INFINITY, f32::NAN).as_phase_pwm();
    assert_eq!(f(p[0]), f32::INFINITY);
    assert!(p[1].is_nan());
    assert!(p[2].is_nan());
}

#[test]
fn balanced_duties_come_back() {
    let mut state: u64 = 21;
    for _ in 0..200000 {
        let mut next = || {
            state = state.wrapping_mul(6364136223846793005).wrapping_add(1442695040888963407);
            // a multiple of 2^-12 between -0.5 and 0.5, so that sums are exact
            ((state >> 51) as f32 / 8192.0 - 0.5) as f32
        };
        let (b, c) = (next(), next());
        let a = -(b + c);
        assert_eq!(a as f64 + b as f64 + c as f64, 0.0);
        let back = phase(a, b, c).as_clarke().as_phase_pwm();
        assert_eq!(back[0].to_bits(), a.to_bits());
        assert!(close(f(back[1]), b, 1e-5), "{} {} {} -> {}", a, b, c, f(back[1]));
        assert!(close(f(back[2]), c, 1e-5), "{} {} {} -> {}", a, b, c, f(back[2]));
    }
}

#[test]
fn unbalanced_duties_do_not_come_back() {
    let back = phase(1.0, 0.0, 0.0).as_clarke().as_phase_pwm();
    assert_eq!(f(back[0]), 1.0);
    assert_eq!(f(back[1]), -0.5);
    assert_eq!(f(back[2]), -0.5);
}

#[test]
fn round_trip_error_grows_with_the_scale_only() {
    // At any scale the error stays within 125 parts in 2^29 of the scale.
    let mut state: u64 = 31;
    for exp in [-120i32, -60, -10, 0, 5, 20, 60, 110].iter() {
        let scale = 2.0f64.powi(*exp);
        for _ in 0..20000 {
            let mut next = || {
                state = state.wrapping_mul(6364136223846793005).wrapping_add(1442695040888963407);
                ((((state >> 40) as f64 / (1u64 << 24) as f64) * 2.0 - 1.0) * scale) as f32
            };
            let (alpha, beta) = (next(), next());
            let back = clarke(alpha, beta).as_phase_pwm().as_clarke();
            assert_eq!(back[0].to_bits(), alpha.to_bits());
            let err = (f(back[1]) as f64 - beta as f64).abs();
            assert!(err <= scale * 125.0 / (1u64 << 29) as f64, "{} {} -> {}", alpha, beta, f(back[1]));
        }
    }
}

#[test]
fn round_trip_fails_far_from_one() {
    let back = clarke(94.576996, 95.17797).as_phase_pwm().as_clarke();
    assert!((f(back[1]) - 95.17797).abs() > 1e-5);
    let back = clarke(0.0, 3.0e38).as_phase_pwm().as_clarke();
    assert!(back[1].is_infinite());
}
