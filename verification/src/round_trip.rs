//! The two transforms undo each other, to within rounding.
use vstd::prelude::*;
use vstd::arithmetic::power2::{lemma2_to64, lemma_pow2_adds, lemma_pow2_pos, pow2};
use vstd::math::abs;
use crate::accuracy::{lemma_add_is_near, lemma_div_is_near, lemma_mul_is_near, lemma_sub_is_near};
use crate::math::{clarke_of, half_sqrt_3, minus_half, phase_pwm_of, sqrt_3};
use crate::single::{units, Single};

verus! {

/// The powers of two around one, as multiples of two to the power of 125. One is
/// two to the power of 149 units.
proof fn lemma_powers_of_two()
    ensures
        pow2(125) > 0,
        pow2(126) == 2 * pow2(125),
        pow2(127) == 4 * pow2(125),
        pow2(149) == 0x100_0000 * pow2(125),
        pow2(150) == 0x200_0000 * pow2(125),
        pow2(151) == 0x400_0000 * pow2(125),
{
    lemma2_to64();
    lemma_pow2_pos(125);
    lemma_pow2_adds(1, 125);
    lemma_pow2_adds(2, 125);
    lemma_pow2_adds(24, 125);
    lemma_pow2_adds(25, 125);
    lemma_pow2_adds(26, 125);
}

/// The values of the three constants of the transform, in units.
proof fn lemma_constants()
    ensures
        minus_half().finite(),
        half_sqrt_3().finite(),
        sqrt_3().finite(),
        minus_half().value() == -(0x80_0000 * pow2(125)),
        half_sqrt_3().value() == 0xdd_b3d7 * pow2(125),
        sqrt_3().value() == 2 * (0xdd_b3d7 * pow2(125)),
        minus_half().abs_units() == 0x80_0000 * pow2(125),
        half_sqrt_3().abs_units() == 0xdd_b3d7 * pow2(125),
        sqrt_3().abs_units() == 2 * (0xdd_b3d7 * pow2(125)),
{
    lemma_powers_of_two();
    assert(units(0x3f00_0000) == 0x80_0000 * pow2(125));
    assert(units(0x3f5d_b3d7) == 0xdd_b3d7 * pow2(125));
    assert(units(0x3fdd_b3d7) == 0xdd_b3d7 * pow2(126));
}

proof fn lemma_cancel_bound(x: int, y: int, t: int)
    by (nonlinear_arith)
    requires
        t > 0,
        -(y * t) <= x * t <= y * t,
    ensures
        -y <= x <= y,
{
}

/// The arithmetic of the round trip, with every quantity in units and `t` for the
/// scale: `p` is near `beta` times half the root of three, `b` and
/// `c` are near `m + p` and `m - p`, `d` is near `b - c`, and `r` is near `d` over
/// the root of three. Then `r` is near `beta`.
proof fn lemma_round_trip_bound(t: int, beta: int, p: int, m: int, b: int, c: int, d: int, r: int)
    requires
        t > 0,
        -(0x1000_0000 * t) <= 0x100_0000 * p - 0xdd_b3d7 * beta <= 0x1000_0000 * t,
        -(32 * t) <= b - (m + p) <= 32 * t,
        -(32 * t) <= c - (m - p) <= 32 * t,
        -(64 * t) <= d - (b - c) <= 64 * t,
        -(929887680 * t) <= 29058990 * r - 0x100_0000 * d <= 929887680 * t,
    ensures
        -(125 * t) <= r - beta <= 125 * t,
{
    let x = 29058990 * r - 0x100_0000 * d;
    let y = 0x100_0000 * (d - 2 * p);
    let z = 2 * (0x100_0000 * p - 0xdd_b3d7 * beta);
    assert(-(128 * t) <= d - 2 * p <= 128 * t);
    assert(-(2147483648 * t) <= y <= 2147483648 * t);
    assert(-(536870912 * t) <= z <= 536870912 * t);
    assert(29058990 * (r - beta) == x + y + z);
    assert(-(3614242240 * t) <= 29058990 * (r - beta) <= 3614242240 * t);
}

/// The powers of two that the round trip at scale `j` meets, as multiples of two
/// to the power of `j`.
proof fn lemma_scaled_powers(j: nat)
    ensures
        pow2(j) > 0,
        pow2(j + 5) == 32 * pow2(j),
        pow2(j + 6) == 64 * pow2(j),
        pow2(j + 7) == 128 * pow2(j),
        pow2(24 + (j + 5)) == 0x2000_0000 * pow2(j),
        pow2(24 + (j + 6)) == 0x4000_0000 * pow2(j),
        pow2(24 + (j + 7)) == 0x8000_0000 * pow2(j),
{
    lemma2_to64();
    lemma_pow2_pos(j);
    lemma_pow2_adds(5, j);
    lemma_pow2_adds(6, j);
    lemma_pow2_adds(7, j);
    lemma_pow2_adds(29, j);
    lemma_pow2_adds(30, j);
    lemma_pow2_adds(31, j);
}

/// From a two-axis vector to the phase duties and back, at any scale: alpha comes
/// back as it was, and beta to within 125 parts in two to the power of 29 of the
/// scale. The scale is two to the power of `j + 29` units, and both components are
/// at most that in magnitude.
pub proof fn lemma_round_trip_scaled(ortho: Seq<Single>, j: nat)
    requires
        ortho.len() == 2,
        ortho[0].finite(),
        ortho[1].finite(),
        j <= 245,
        ortho[0].abs_units() <= 0x2000_0000 * pow2(j),
        ortho[1].abs_units() <= 0x2000_0000 * pow2(j),
    ensures
        clarke_of(phase_pwm_of(ortho))[0] == ortho[0],
        clarke_of(phase_pwm_of(ortho))[1].finite(),
        abs(clarke_of(phase_pwm_of(ortho))[1].value() - ortho[1].value()) <= 125 * pow2(j),
{
    lemma_powers_of_two();
    lemma_constants();
    lemma_scaled_powers(j);
    let t = pow2(125) as int;
    let s = pow2(j) as int;
    let one = pow2(149) as int;
    let alpha = ortho[0];
    let beta = ortho[1];
    let half_alpha = minus_half().mul_spec(alpha);
    let scaled_beta = half_sqrt_3().mul_spec(beta);
    let b = half_alpha.add_spec(scaled_beta);
    let c = half_alpha.sub_spec(scaled_beta);
    let d = b.sub_spec(c);
    let back = d.div_spec(sqrt_3());
    assert(clarke_of(phase_pwm_of(ortho))[1] == back);
    let av = alpha.value();
    let bv = beta.value();
    let au = alpha.abs_units() as int;
    let bu = beta.abs_units() as int;
    assert(abs(av) == au && abs(bv) == bu);

    // half_alpha is near -alpha / 2
    assert(minus_half().abs_units() * alpha.abs_units() < pow2(24 + (j + 5)) * pow2(149))
        by (nonlinear_arith)
        requires
            minus_half().abs_units() == 0x80_0000 * t,
            0 <= au <= 0x2000_0000 * s,
            pow2(24 + (j + 5)) == 0x2000_0000 * s,
            pow2(149) == 0x100_0000 * t,
            au == alpha.abs_units(),
            t > 0,
            s > 0,
    ;
    lemma_mul_is_near(minus_half(), alpha, j + 5);
    let m = half_alpha.value();
    assert(m * one - minus_half().value() * av == (0x100_0000 * m + 0x80_0000 * av) * t)
        by (nonlinear_arith)
        requires
            one == 0x100_0000 * t,
            minus_half().value() == -(0x80_0000 * t),
    ;
    assert(pow2(149) * pow2(j + 5) == 2 * ((0x1000_0000 * s) * t)) by (nonlinear_arith)
        requires
            pow2(149) == 0x100_0000 * t,
            pow2(j + 5) == 32 * s,
    ;
    lemma_cancel_bound(0x100_0000 * m + 0x80_0000 * av, 0x1000_0000 * s, t);

    // scaled_beta is near beta times half the root of three
    assert(half_sqrt_3().abs_units() * beta.abs_units() < pow2(24 + (j + 5)) * pow2(149))
        by (nonlinear_arith)
        requires
            half_sqrt_3().abs_units() == 0xdd_b3d7 * t,
            0 <= bu <= 0x2000_0000 * s,
            pow2(24 + (j + 5)) == 0x2000_0000 * s,
            pow2(149) == 0x100_0000 * t,
            bu == beta.abs_units(),
            t > 0,
            s > 0,
    ;
    lemma_mul_is_near(half_sqrt_3(), beta, j + 5);
    let p = scaled_beta.value();
    assert(p * one - half_sqrt_3().value() * bv == (0x100_0000 * p - 0xdd_b3d7 * bv) * t)
        by (nonlinear_arith)
        requires
            one == 0x100_0000 * t,
            half_sqrt_3().value() == 0xdd_b3d7 * t,
    ;
    lemma_cancel_bound(0x100_0000 * p - 0xdd_b3d7 * bv, 0x1000_0000 * s, t);

    // b and c are near the sum and the difference
    assert(abs(m + p) < pow2(24 + (j + 6)));
    lemma_add_is_near(half_alpha, scaled_beta, j + 6);
    assert(abs(m - p) < pow2(24 + (j + 6)));
    lemma_sub_is_near(half_alpha, scaled_beta, j + 6);
    assert(abs(b.value() - c.value()) < pow2(24 + (j + 7)));
    lemma_sub_is_near(b, c, j + 7);
    let dv = d.value();
    let du = d.abs_units() as int;
    assert(abs(dv) == du);

    // back is near d over the root of three
    assert(d.abs_units() * pow2(149) < pow2(24 + (j + 6)) * sqrt_3().abs_units())
        by (nonlinear_arith)
        requires
            0 <= du <= 929887840 * s,
            du == d.abs_units(),
            pow2(149) == 0x100_0000 * t,
            pow2(24 + (j + 6)) == 0x4000_0000 * s,
            sqrt_3().abs_units() == 2 * (0xdd_b3d7 * t),
            t > 0,
            s > 0,
    ;
    lemma_div_is_near(d, sqrt_3(), j + 6);
    let r = back.value();
    assert(r * sqrt_3().value() - dv * one == (29058990 * r - 0x100_0000 * dv) * t)
        by (nonlinear_arith)
        requires
            one == 0x100_0000 * t,
            sqrt_3().value() == 2 * (0xdd_b3d7 * t),
    ;
    assert(sqrt_3().abs_units() * pow2(j + 6) == 2 * ((929887680 * s) * t)) by (nonlinear_arith)
        requires
            sqrt_3().abs_units() == 2 * (0xdd_b3d7 * t),
            pow2(j + 6) == 64 * s,
    ;
    lemma_cancel_bound(29058990 * r - 0x100_0000 * dv, 929887680 * s, t);
    lemma_round_trip_bound(s, bv, p, m, b.value(), c.value(), dv, r);
}

/// From a two-axis vector to the phase duties and back: alpha comes back as it
/// was, and beta to within a hundred-thousandth of one, for every vector whose
/// components are at most 32 in magnitude. One is two to the power of 149 units.
/// Beyond that range the bound grows with the scale, and soon the spacing of
/// single-precision numbers alone is wider than a hundred-thousandth.
pub proof fn lemma_round_trip(ortho: Seq<Single>)
    requires
        ortho.len() == 2,
        ortho[0].finite(),
        ortho[1].finite(),
        ortho[0].abs_units() <= 32 * pow2(149),
        ortho[1].abs_units() <= 32 * pow2(149),
    ensures
        clarke_of(phase_pwm_of(ortho))[0] == ortho[0],
        clarke_of(phase_pwm_of(ortho))[1].finite(),
        100_000 * abs(clarke_of(phase_pwm_of(ortho))[1].value() - ortho[1].value()) <= pow2(149),
{
    lemma_powers_of_two();
    lemma_round_trip_scaled(ortho, 125);
}

/// The arithmetic of the round trip of balanced duties, with every quantity in
/// units and `t` for two to the power of 125: `d` is near `b - c`, `r` near `d`
/// over the root of three, `p` near `r` times half the root of three, `m` near
/// `-a / 2`, and `b2` and `c2` are near `m + p` and `m - p`. Then `b2` is near `b`
/// and `c2` near `c`.
proof fn lemma_balanced_bound(
    t: int,
    a: int,
    b: int,
    c: int,
    d: int,
    r: int,
    p: int,
    m: int,
    b2: int,
    c2: int,
)
    requires
        t > 0,
        a + b + c == 0,
        -(2 * t) <= d - (b - c) <= 2 * t,
        -(29058990 * t) <= 29058990 * r - 0x100_0000 * d <= 29058990 * t,
        -(0x100_0000 * t) <= 0x100_0000 * p - 0xdd_b3d7 * r <= 0x100_0000 * t,
        -t <= 2 * m + a <= t,
        -t <= b2 - (m + p) <= t,
        -t <= c2 - (m - p) <= t,
    ensures
        -(5 * t) <= b2 - b <= 5 * t,
        -(5 * t) <= c2 - c <= 5 * t,
{
    let x = 2 * (0x100_0000 * p - 0xdd_b3d7 * r);
    let y = 29058990 * r - 0x100_0000 * d;
    assert(0x100_0000 * (2 * p - d) == x + y);
    assert(-(62613422 * t) <= 0x100_0000 * (2 * p - d) <= 62613422 * t);
    assert(-(4 * t) <= 2 * p - d <= 4 * t);
    assert(2 * (b2 - b) == 2 * (b2 - (m + p)) + (2 * m + a) + (2 * p - d) + (d - (b - c)));
    assert(2 * (c2 - c) == 2 * (c2 - (m - p)) + (2 * m + a) - (2 * p - d) - (d - (b - c)));
}

/// The sizes that the round trip of balanced duties passes through, in units and
/// with `t` for two to the power of 125: the sum and the difference of `m` and `p`
/// stay below two.
proof fn lemma_balanced_sizes(t: int, a: int, d: int, r: int, p: int, m: int)
    requires
        t > 0,
        -(0x100_0000 * t) <= a <= 0x100_0000 * t,
        -(33554434 * t) <= d <= 33554434 * t,
        -(29058990 * t) <= 29058990 * r - 0x100_0000 * d <= 29058990 * t,
        -(0x100_0000 * t) <= 0x100_0000 * p - 0xdd_b3d7 * r <= 0x100_0000 * t,
        -t <= 2 * m + a <= t,
    ensures
        -(0x200_0000 * t) < m + p < 0x200_0000 * t,
        -(0x200_0000 * t) < m - p < 0x200_0000 * t,
{
    assert(-(562950016034734 * t) <= 29058990 * r <= 562950016034734 * t);
    assert(-(19372663 * t) <= r <= 19372663 * t);
    assert(-(281475026972401 * t) <= 0x100_0000 * p <= 281475026972401 * t);
    assert(-(16777219 * t) <= p <= 16777219 * t);
    assert(-(8388609 * t) <= m <= 8388609 * t);
}

/// The first half of the round trip of balanced duties: beta is near the
/// difference of the second and third duty over the root of three. The values are
/// in units, with `t` for two to the power of 125.
proof fn lemma_balanced_forward(b: Single, c: Single)
    requires
        b.finite() && c.finite(),
        b.abs_units() <= pow2(149),
        c.abs_units() <= pow2(149),
    ensures
        b.sub_spec(c).finite(),
        b.sub_spec(c).div_spec(sqrt_3()).finite(),
        b.sub_spec(c).div_spec(sqrt_3()).abs_units() <= 0x200_0000 * pow2(125),
        -(2 * pow2(125)) <= b.sub_spec(c).value() - (b.value() - c.value()) <= 2 * pow2(125),
        -(33554434 * pow2(125)) <= b.sub_spec(c).value() <= 33554434 * pow2(125),
        -(29058990 * pow2(125)) <= 29058990 * b.sub_spec(c).div_spec(sqrt_3()).value() - 0x100_0000
            * b.sub_spec(c).value() <= 29058990 * pow2(125),
{
    lemma_powers_of_two();
    lemma_constants();
    let t = pow2(125) as int;
    let one = pow2(149) as int;
    let d = b.sub_spec(c);
    let beta = d.div_spec(sqrt_3());
    assert(abs(b.value()) == b.abs_units() && abs(c.value()) == c.abs_units());
    assert(abs(b.value() - c.value()) < pow2(24 + 127));
    lemma_sub_is_near(b, c, 127);
    let dv = d.value();
    let du = d.abs_units() as int;
    assert(abs(dv) == du);
    assert(d.abs_units() * pow2(149) < pow2(24 + 126) * sqrt_3().abs_units()) by (nonlinear_arith)
        requires
            0 <= du <= 33554434 * t,
            du == d.abs_units(),
            pow2(149) == 0x100_0000 * t,
            pow2(24 + 126) == 0x200_0000 * t,
            sqrt_3().abs_units() == 2 * (0xdd_b3d7 * t),
            t > 0,
    ;
    lemma_div_is_near(d, sqrt_3(), 126);
    let r = beta.value();
    assert(r * sqrt_3().value() - dv * one == (29058990 * r - 0x100_0000 * dv) * t)
        by (nonlinear_arith)
        requires
            one == 0x100_0000 * t,
            sqrt_3().value() == 2 * (0xdd_b3d7 * t),
    ;
    assert(sqrt_3().abs_units() * pow2(126) == 2 * ((29058990 * t) * t)) by (nonlinear_arith)
        requires
            sqrt_3().abs_units() == 2 * (0xdd_b3d7 * t),
            pow2(126) == 2 * t,
    ;
    lemma_cancel_bound(29058990 * r - 0x100_0000 * dv, 29058990 * t, t);
}

/// The second half of the round trip of balanced duties: the products that the
/// two duties are made of are near `-a / 2` and near beta times half the root of
/// three. The values are in units, with `t` for two to the power of 125.
proof fn lemma_balanced_products(a: Single, beta: Single)
    requires
        a.finite() && beta.finite(),
        a.abs_units() <= pow2(149),
        beta.abs_units() <= 0x200_0000 * pow2(125),
    ensures
        minus_half().mul_spec(a).finite(),
        half_sqrt_3().mul_spec(beta).finite(),
        -pow2(125) <= 2 * minus_half().mul_spec(a).value() + a.value() <= pow2(125),
        -(0x100_0000 * pow2(125)) <= 0x100_0000 * half_sqrt_3().mul_spec(beta).value() - 0xdd_b3d7
            * beta.value() <= 0x100_0000 * pow2(125),
{
    lemma_powers_of_two();
    lemma_constants();
    let t = pow2(125) as int;
    let one = pow2(149) as int;
    let av = a.value();
    let au = a.abs_units() as int;
    let r = beta.value();
    let ru = beta.abs_units() as int;
    assert(half_sqrt_3().abs_units() * beta.abs_units() < pow2(24 + 126) * pow2(149))
        by (nonlinear_arith)
        requires
            half_sqrt_3().abs_units() == 0xdd_b3d7 * t,
            0 <= ru <= 0x200_0000 * t,
            ru == beta.abs_units(),
            pow2(24 + 126) == 0x200_0000 * t,
            pow2(149) == 0x100_0000 * t,
            t > 0,
    ;
    lemma_mul_is_near(half_sqrt_3(), beta, 126);
    let p = half_sqrt_3().mul_spec(beta).value();
    assert(p * one - half_sqrt_3().value() * r == (0x100_0000 * p - 0xdd_b3d7 * r) * t)
        by (nonlinear_arith)
        requires
            one == 0x100_0000 * t,
            half_sqrt_3().value() == 0xdd_b3d7 * t,
    ;
    assert(pow2(149) * pow2(126) == 2 * ((0x100_0000 * t) * t)) by (nonlinear_arith)
        requires
            pow2(149) == 0x100_0000 * t,
            pow2(126) == 2 * t,
    ;
    lemma_cancel_bound(0x100_0000 * p - 0xdd_b3d7 * r, 0x100_0000 * t, t);
    assert(minus_half().abs_units() * a.abs_units() < pow2(24 + 125) * pow2(149))
        by (nonlinear_arith)
        requires
            minus_half().abs_units() == 0x80_0000 * t,
            0 <= au <= 0x100_0000 * t,
            pow2(24 + 125) == 0x100_0000 * t,
            pow2(149) == 0x100_0000 * t,
            au == a.abs_units(),
            t > 0,
    ;
    lemma_mul_is_near(minus_half(), a, 125);
    let m = minus_half().mul_spec(a).value();
    assert(m * one - minus_half().value() * av == (0x100_0000 * m + 0x80_0000 * av) * t)
        by (nonlinear_arith)
        requires
            one == 0x100_0000 * t,
            minus_half().value() == -(0x80_0000 * t),
    ;
    assert(pow2(149) * pow2(125) == 2 * ((0x80_0000 * t) * t)) by (nonlinear_arith)
        requires
            pow2(149) == 0x100_0000 * t,
            pow2(125) == t,
    ;
    lemma_cancel_bound(0x100_0000 * m + 0x80_0000 * av, 0x80_0000 * t, t);
}

/// From three balanced phase duties to the two-axis vector and back: where the
/// three duties add up to zero and none is above one in magnitude, the first comes
/// back as it was and the others to within a hundred-thousandth of one. Duties that
/// do not add up to zero have no two-axis vector that stands for them, and do not
/// come back.
pub proof fn lemma_balanced_round_trip(phase: Seq<Single>)
    requires
        phase.len() == 3,
        phase[0].finite() && phase[1].finite() && phase[2].finite(),
        phase[0].abs_units() <= pow2(149),
        phase[1].abs_units() <= pow2(149),
        phase[2].abs_units() <= pow2(149),
        phase[0].value() + phase[1].value() + phase[2].value() == 0,
    ensures
        phase_pwm_of(clarke_of(phase))[0] == phase[0],
        phase_pwm_of(clarke_of(phase))[1].finite(),
        phase_pwm_of(clarke_of(phase))[2].finite(),
        100_000 * abs(phase_pwm_of(clarke_of(phase))[1].value() - phase[1].value()) <= pow2(149),
        100_000 * abs(phase_pwm_of(clarke_of(phase))[2].value() - phase[2].value()) <= pow2(149),
{
    lemma_powers_of_two();
    let t = pow2(125) as int;
    let a = phase[0];
    let b = phase[1];
    let c = phase[2];
    let d = b.sub_spec(c);
    let beta = d.div_spec(sqrt_3());
    let half_alpha = minus_half().mul_spec(a);
    let scaled_beta = half_sqrt_3().mul_spec(beta);
    let b2 = half_alpha.add_spec(scaled_beta);
    let c2 = half_alpha.sub_spec(scaled_beta);
    assert(phase_pwm_of(clarke_of(phase))[1] == b2);
    assert(phase_pwm_of(clarke_of(phase))[2] == c2);
    lemma_balanced_forward(b, c);
    lemma_balanced_products(a, beta);
    let m = half_alpha.value();
    let p = scaled_beta.value();
    assert(abs(a.value()) == a.abs_units());
    lemma_balanced_sizes(t, a.value(), d.value(), beta.value(), p, m);
    assert(abs(m + p) < pow2(24 + 126));
    lemma_add_is_near(half_alpha, scaled_beta, 126);
    assert(abs(m - p) < pow2(24 + 126));
    lemma_sub_is_near(half_alpha, scaled_beta, 126);
    lemma_balanced_bound(
        t,
        a.value(),
        b.value(),
        c.value(),
        d.value(),
        beta.value(),
        p,
        m,
        b2.value(),
        c2.value(),
    );
}

} // verus!
