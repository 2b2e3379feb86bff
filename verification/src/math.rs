//! The transform between the three phase duties and the two-axis (alpha, beta)
//! vector, in single precision.
use vstd::prelude::*;
use crate::single::Single;

verus! {

/// The duties of the three phases, in phase order. The sign of a component is the
/// direction of the current, its magnitude the duty cycle as a fraction of one.
pub type PhasePwmVector = [Single; 3];

/// A vector in the rotating frame.
pub type ParkVector = [Single; 2];

/// A vector in the stationary two-axis frame: alpha, then beta.
pub type ClarkeVector = [Single; 2];

/// The square root of three, rounded to single precision.
pub const SQRT_3_BITS: u32 = 0x3fdd_b3d7;

/// Half the square root of three, rounded to single precision.
pub const HALF_SQRT_3_BITS: u32 = 0x3f5d_b3d7;

/// Minus one half.
pub const MINUS_HALF_BITS: u32 = 0xbf00_0000;

pub open spec fn sqrt_3() -> Single {
    Single { bits: SQRT_3_BITS }
}

pub open spec fn half_sqrt_3() -> Single {
    Single { bits: HALF_SQRT_3_BITS }
}

pub open spec fn minus_half() -> Single {
    Single { bits: MINUS_HALF_BITS }
}

/// The two-axis vector of three phase duties `a`, `b`, `c`: alpha is `a`, and
/// beta is `(b - c) / sqrt(3)`, each operation rounded once.
pub open spec fn clarke_of(phase: Seq<Single>) -> Seq<Single> {
    seq![phase[0], phase[1].sub_spec(phase[2]).div_spec(sqrt_3())]
}

/// The three phase duties of a two-axis vector: `a` is alpha, `b` is
/// `-0.5 * alpha + (sqrt(3) / 2) * beta` and `c` is
/// `-0.5 * alpha - (sqrt(3) / 2) * beta`, each operation rounded once.
pub open spec fn phase_pwm_of(ortho: Seq<Single>) -> Seq<Single> {
    let half_alpha = minus_half().mul_spec(ortho[0]);
    let scaled_beta = half_sqrt_3().mul_spec(ortho[1]);
    seq![ortho[0], half_alpha.add_spec(scaled_beta), half_alpha.sub_spec(scaled_beta)]
}

pub trait PhasePwmVectorExt: Sized {
    /// The vector of three zero duties.
    fn new() -> Self;

    /// The two-axis vector that stands for the same drive.
    fn as_clarke(&self) -> ClarkeVector;
}

impl PhasePwmVectorExt for PhasePwmVector {
    fn new() -> (r: Self)
        ensures
            r@ == seq![Single { bits: 0 }, Single { bits: 0 }, Single { bits: 0 }],
    {
        [Single::from_bits(0), Single::from_bits(0), Single::from_bits(0)]
    }

    fn as_clarke(&self) -> (r: ClarkeVector)
        ensures
            r@ == clarke_of(self@),
    {
        let a = self[0];
        let b = self[1];
        let c = self[2];
        let alpha = a;
        let beta = b.sub(c).div(Single::from_bits(SQRT_3_BITS));
        [alpha, beta]
    }
}

pub trait ClarkeVectorExt: Sized {
    /// The zero vector.
    fn new() -> Self;

    /// The three phase duties that stand for the same drive.
    fn as_phase_pwm(&self) -> PhasePwmVector;
}

impl ClarkeVectorExt for ClarkeVector {
    fn new() -> (r: Self)
        ensures
            r@ == seq![Single { bits: 0 }, Single { bits: 0 }],
    {
        [Single::from_bits(0), Single::from_bits(0)]
    }

    fn as_phase_pwm(&self) -> (r: PhasePwmVector)
        ensures
            r@ == phase_pwm_of(self@),
    {
        let alpha = self[0];
        let beta = self[1];
        let half_alpha = Single::from_bits(MINUS_HALF_BITS).mul(alpha);
        let scaled_beta = Single::from_bits(HALF_SQRT_3_BITS).mul(beta);
        let a = alpha;
        let b = half_alpha.add(scaled_beta);
        let c = half_alpha.sub(scaled_beta);
        [a, b, c]
    }
}

} // verus!
