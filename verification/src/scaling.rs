//! The duty register value as a linear scaling of the magnitude of a duty.
use vstd::prelude::*;
use vstd::arithmetic::div_mod::{
    lemma_div_by_multiple, lemma_div_is_ordered, lemma_fundamental_div_mod,
    lemma_fundamental_div_mod_converse, lemma_mod_multiples_basic,
};
use vstd::arithmetic::power2::{lemma2_to64, lemma_pow2_adds, lemma_pow2_pos, pow2};
use vstd::math::{abs, min};
use crate::accuracy::{lemma_round_exact, lemma_round_is_large, lemma_round_is_near};
use crate::pwm::{duty_of, full_scale};
use crate::round::{binade, round_to_nearest};
use crate::single::{units, Single};

verus! {

/// Between two multiples of `p` that are less than `p` apart there is no room:
/// they are the same.
proof fn lemma_multiples_meet(x: int, y: int, p: int)
    requires
        p > 0,
        x % p == 0,
        y % p == 0,
        x > y - p,
    ensures
        x >= y,
{
    lemma_fundamental_div_mod(x, p);
    lemma_fundamental_div_mod(y, p);
    let a = x / p;
    let b = y / p;
    if a < b {
        assert(p * a <= p * (b - 1)) by (nonlinear_arith)
            requires
                a <= b - 1,
                p > 0,
        ;
        assert(p * (b - 1) == p * b - p) by (nonlinear_arith);
    } else {
        assert(p * a >= p * b) by (nonlinear_arith)
            requires
                a >= b,
                p > 0,
        ;
    }
}

/// The whole part of 65535 times the magnitude of a finite duty.
pub open spec fn scaled_whole(value: Single) -> int {
    ((65535 * value.abs_units()) / pow2(149)) as int
}

/// The duty register value is the linear scaling of the magnitude to the range 0
/// to 65535, to within one count: with `scaled` for 65535 times the magnitude, it
/// is the whole part of `scaled`, or one more, and never beyond 65535. Where
/// `scaled` is a whole number, it is that number, so a magnitude of zero gives 0
/// and a magnitude of one gives 65535. One is two to the power of 149 units.
pub proof fn lemma_duty_is_scaled(value: Single)
    requires
        value.finite(),
    ensures
        duty_of(value) == min(65535, scaled_whole(value)) || duty_of(value) == min(
            65535,
            scaled_whole(value) + 1,
        ),
        (65535 * value.abs_units()) % pow2(149) == 0 ==> duty_of(value) == min(
            65535,
            scaled_whole(value),
        ),
{
    let one = pow2(149);
    let x = value.abs_units();
    let scaled = 65535 * x;
    lemma2_to64();
    lemma_pow2_pos(149);
    lemma_pow2_adds(8, 141);
    lemma_pow2_adds(24, 149);
    assert(units(0x477f_ff00) == 0xff_ff00 * pow2(141));
    assert(full_scale().abs_units() == 65535 * one);
    let product = value.abs_spec().mul_spec(full_scale());
    let n = x * (65535 * one);
    assert(product.magnitude() == round_to_nearest(n, one));
    assert(!product.negative());
    assert(n == scaled * one) by (nonlinear_arith)
        requires
            n == x * (65535 * one),
            scaled == 65535 * x,
    ;
    let mag = round_to_nearest(n, one);
    let whole = (scaled / one) as int;
    lemma_fundamental_div_mod(scaled as int, one as int);
    if scaled >= pow2(173) {
        assert(n >= pow2(24 + 149) * one) by (nonlinear_arith)
            requires
                n == scaled * one,
                scaled >= pow2(173),
        ;
        lemma_round_is_large(n, one, 149);
        lemma_div_is_ordered(pow2(173) as int, scaled as int, one as int);
        assert(pow2(173) == 0x100_0000 * one);
        lemma_div_by_multiple(0x100_0000, one as int);
        if mag < 0x7f80_0000 {
            lemma_div_is_ordered(pow2(173) as int, units(mag) as int, one as int);
        }
    } else {
        assert(n < pow2(24 + 149) * one) by (nonlinear_arith)
            requires
                n == scaled * one,
                scaled < pow2(173),
                one > 0,
        ;
        lemma_round_is_near(n, one, 149);
        let s = binade(n, one, 0);
        let p = pow2(s);
        let r = units(mag);
        lemma_pow2_pos(s);
        lemma_pow2_adds(s, (149 - s) as nat);
        let rest_of_one = pow2((149 - s) as nat);
        // 2 * |r - scaled| <= p
        assert(r * one - n == (r - scaled) * one) by (nonlinear_arith)
            requires
                n == scaled * one,
        ;
        assert(2 * abs(r - scaled) <= p) by (nonlinear_arith)
            requires
                2 * abs((r - scaled) * one) <= one * p,
                one > 0,
        ;
        // whole * one and (whole + 1) * one are multiples of p
        let low = whole * one;
        let high = (whole + 1) * one;
        assert(low == (whole * rest_of_one) * p) by (nonlinear_arith)
            requires
                low == whole * one,
                one == p * rest_of_one,
        ;
        assert(high == ((whole + 1) * rest_of_one) * p) by (nonlinear_arith)
            requires
                high == (whole + 1) * one,
                one == p * rest_of_one,
        ;
        assert(high == low + one) by (nonlinear_arith)
            requires
                low == whole * one,
                high == (whole + 1) * one,
        ;
        assert(one as int * whole == low) by (nonlinear_arith)
            requires
                low == whole * one,
        ;
        lemma_mod_multiples_basic(whole * rest_of_one, p as int);
        lemma_mod_multiples_basic((whole + 1) * rest_of_one, p as int);
        lemma_multiples_meet(r as int, low, p as int);
        lemma_multiples_meet(high, r as int, p as int);
        assert(low <= r <= high);
        if r == high {
            lemma_fundamental_div_mod_converse(r as int, one as int, whole + 1, 0);
        } else {
            lemma_fundamental_div_mod_converse(r as int, one as int, whole, r - low);
        }
        if scaled % one == 0 {
            assert(scaled == low);
            lemma_multiples_meet(low, r as int, p as int);
            assert(r == low);
        }
    }
}

/// Where single precision can hold 65535 times the magnitude, the duty register
/// value is exactly its whole part: so it is for a magnitude of `k` times two to
/// the power of `e` units with 65535 times `k` below two to the power of 24. One
/// half, a quarter and the like are such magnitudes.
pub proof fn lemma_duty_is_exact(value: Single, k: nat, e: nat)
    requires
        value.finite(),
        e <= 252,
        value.abs_units() == k * pow2(e),
        65535 * k < 0x100_0000,
    ensures
        duty_of(value) == min(65535, scaled_whole(value)),
{
    let one = pow2(149);
    let x = value.abs_units();
    lemma2_to64();
    lemma_pow2_pos(149);
    lemma_pow2_adds(8, 141);
    assert(units(0x477f_ff00) == 0xff_ff00 * pow2(141));
    assert(full_scale().abs_units() == 65535 * one);
    let product = value.abs_spec().mul_spec(full_scale());
    let n = x * (65535 * one);
    assert(product.magnitude() == round_to_nearest(n, one));
    assert(!product.negative());
    assert(n == ((65535 * k) * pow2(e)) * one) by (nonlinear_arith)
        requires
            n == x * (65535 * one),
            x == k * pow2(e),
    ;
    lemma_round_exact(n, one, 65535 * k, e);
    assert((65535 * k) * pow2(e) == 65535 * x) by (nonlinear_arith)
        requires
            x == k * pow2(e),
    ;
}

} // verus!
