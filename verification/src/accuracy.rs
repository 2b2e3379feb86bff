//! How far a rounded result lies from the exact one.
use vstd::prelude::*;
use vstd::arithmetic::div_mod::{lemma_fundamental_div_mod, lemma_fundamental_div_mod_converse};
use vstd::arithmetic::power2::{lemma2_to64, lemma_pow2_adds, lemma_pow2_pos, lemma_pow2_unfold, pow2};
use crate::round::{binade, lemma_binade_is, lemma_pow2_le, round_to_nearest};
use vstd::arithmetic::div_mod::lemma_mod_multiples_basic;
use vstd::math::abs;
use crate::single::{scale, significand, units, Single};

verus! {

/// The binade that the search for the binade of `n / d` ends in holds the ratio:
/// the ratio lies below the upper end of the binade, unless that is the last one,
/// and at or above its lower end, unless the search began there.
pub proof fn lemma_binade_bounds(n: nat, d: nat, e: nat)
    requires
        d > 0,
        e <= 253,
        e == 0 || n >= pow2(23 + e) * d,
    ensures
        e <= binade(n, d, e) <= 253,
        binade(n, d, e) == 253 || n < pow2(24 + binade(n, d, e)) * d,
        binade(n, d, e) == 0 || n >= pow2(23 + binade(n, d, e)) * d,
    decreases 253 - e,
{
    if e >= 253 || n < pow2(24 + e) * d {
    } else {
        lemma_binade_bounds(n, d, e + 1);
    }
}

/// A ratio below the upper end of binade `e` has a binade of at most `e`.
pub proof fn lemma_binade_at_most(n: nat, d: nat, e: nat)
    requires
        d > 0,
        e <= 253,
        n < pow2(24 + e) * d,
    ensures
        binade(n, d, 0) <= e,
{
    lemma_binade_bounds(n, d, 0);
    let s = binade(n, d, 0);
    if s > e {
        lemma_pow2_le(24 + e, 23 + s);
        assert(pow2(24 + e) * d <= pow2(23 + s) * d) by (nonlinear_arith)
            requires
                pow2(24 + e) <= pow2(23 + s),
        ;
    }
}

/// The units of the pattern made of binade `s` and `j` spacings, where `j` may be
/// the full two to the power of 24 that carries into the next binade.
pub proof fn lemma_units_of_pattern(s: nat, j: nat)
    requires
        s <= 253,
        j <= 0x100_0000,
        s == 0 || j >= 0x80_0000,
    ensures
        units(s * 0x80_0000 + j) == j * pow2(s),
{
    let mag = s * 0x80_0000 + j;
    lemma2_to64();
    if j < 0x80_0000 {
        assert(units(mag) == j * pow2(0));
    } else if j < 0x100_0000 {
        assert(mag / 0x80_0000 == s + 1);
        assert(mag % 0x80_0000 == j - 0x80_0000);
        if s == 0 {
            assert(units(mag) == j * pow2(0));
        } else {
            assert(units(mag) == j * pow2(s));
        }
    } else {
        assert(mag / 0x80_0000 == s + 2);
        assert(mag % 0x80_0000 == 0);
        lemma_pow2_unfold(s + 1);
        assert(units(mag) == 0x80_0000 * pow2(s + 1));
        assert(0x80_0000 * (2 * pow2(s)) == 0x100_0000 * pow2(s)) by (nonlinear_arith);
    }
}

/// Rounding moves a ratio by at most half the spacing of its binade. For a ratio
/// `n / d` below the upper end of binade `e`, the result is finite, is a whole
/// number of spacings of some binade up to `e`, and lies within half of the spacing
/// of `e` from the ratio.
pub proof fn lemma_round_is_near(n: nat, d: nat, e: nat)
    requires
        d > 0,
        e <= 252,
        n < pow2(24 + e) * d,
    ensures
        round_to_nearest(n, d) < 0x7f80_0000,
        2 * abs(units(round_to_nearest(n, d)) * d - n) <= d * pow2(binade(n, d, 0)),
        2 * abs(units(round_to_nearest(n, d)) * d - n) <= d * pow2(e),
        units(round_to_nearest(n, d)) <= pow2(24 + e),
        units(round_to_nearest(n, d)) % pow2(binade(n, d, 0)) == 0,
        binade(n, d, 0) <= e,
{
    let s = binade(n, d, 0);
    lemma_binade_at_most(n, d, e);
    lemma_binade_bounds(n, d, 0);
    let q = d * pow2(s);
    lemma_pow2_pos(s);
    assert(q > 0) by (nonlinear_arith)
        requires
            q == d * pow2(s),
            pow2(s) > 0,
            d > 0,
    ;
    let below = n / q;
    let rest = n % q;
    lemma_fundamental_div_mod(n as int, q as int);
    lemma_pow2_adds(24, s);
    lemma_pow2_adds(23, s);
    lemma2_to64();
    if below >= 0x100_0000 {
        assert(q * below >= pow2(24 + s) * d) by (nonlinear_arith)
            requires
                below >= 0x100_0000,
                q == d * pow2(s),
                pow2(24 + s) == 0x100_0000 * pow2(s),
                q > 0,
        ;
    }
    if s > 0 && below < 0x80_0000 {
        assert(q * below + rest < pow2(23 + s) * d) by (nonlinear_arith)
            requires
                below < 0x80_0000,
                rest < q,
                q == d * pow2(s),
                pow2(23 + s) == 0x80_0000 * pow2(s),
        ;
    }
    let up: nat = if 2 * rest > q || (2 * rest == q && below % 2 == 1) {
        1
    } else {
        0
    };
    let j = below + up;
    let pattern = s * 0x80_0000 + j;
    assert(pattern <= 252 * 0x80_0000 + 0x100_0000);
    assert(round_to_nearest(n, d) == pattern);
    lemma_units_of_pattern(s, j);
    assert(units(pattern) * d == j * q) by (nonlinear_arith)
        requires
            units(pattern) == j * pow2(s),
            q == d * pow2(s),
    ;
    assert(j * q == below * q + up * q) by (nonlinear_arith)
        requires
            j == below + up,
    ;
    assert(q * below == below * q) by (nonlinear_arith);
    lemma_pow2_le(s, e);
    assert(q <= d * pow2(e)) by (nonlinear_arith)
        requires
            q == d * pow2(s),
            pow2(s) <= pow2(e),
    ;
    lemma_pow2_adds(24, e);
    assert(j * pow2(s) <= 0x100_0000 * pow2(e)) by (nonlinear_arith)
        requires
            j <= 0x100_0000,
            pow2(s) <= pow2(e),
    ;
    lemma_mod_multiples_basic(j as int, pow2(s) as int);
}

/// A magnitude other than zero stands for at least one unit.
pub proof fn lemma_units_positive(mag: nat)
    requires
        mag > 0,
    ensures
        units(mag) > 0,
{
    lemma_pow2_pos(scale(mag));
    assert(units(mag) > 0) by (nonlinear_arith)
        requires
            units(mag) == significand(mag) * pow2(scale(mag)),
            significand(mag) > 0,
            pow2(scale(mag)) > 0,
    ;
}

proof fn lemma_signed_product(x: int, y: int, ax: nat, ay: nat, nx: bool, ny: bool)
    by (nonlinear_arith)
    requires
        x == (if nx {
            -(ax as int)
        } else {
            ax as int
        }),
        y == (if ny {
            -(ay as int)
        } else {
            ay as int
        }),
    ensures
        x * y == (if nx != ny {
            -((ax * ay) as int)
        } else {
            (ax * ay) as int
        }),
{
}

/// A product is within half a spacing of the exact product. Here and below the
/// bound `e` names a binade that the exact result lies under.
pub proof fn lemma_mul_is_near(a: Single, b: Single, e: nat)
    requires
        a.finite(),
        b.finite(),
        e <= 252,
        a.abs_units() * b.abs_units() < pow2(24 + e) * pow2(149),
    ensures
        a.mul_spec(b).finite(),
        2 * abs(a.mul_spec(b).value() * pow2(149) - a.value() * b.value()) <= pow2(149)
            * pow2(e),
        a.mul_spec(b).abs_units() <= pow2(24 + e),
{
    let n = a.abs_units() * b.abs_units();
    let d = pow2(149);
    lemma_pow2_pos(149);
    lemma_round_is_near(n, d, e);
    let r = a.mul_spec(b);
    let mag = round_to_nearest(n, d);
    assert(r.magnitude() == mag);
    assert(r.negative() == (a.negative() != b.negative()));
    lemma_signed_product(
        a.value(),
        b.value(),
        a.abs_units(),
        b.abs_units(),
        a.negative(),
        b.negative(),
    );
    let u = units(mag);
    if r.negative() {
        assert(r.value() * d == -(u * d)) by (nonlinear_arith)
            requires
                r.value() == -(u as int),
        ;
    } else {
        assert(r.value() * d == u * d) by (nonlinear_arith)
            requires
                r.value() == u as int,
        ;
    }
}

/// A sum is within half a spacing of the exact sum.
pub proof fn lemma_add_is_near(a: Single, b: Single, e: nat)
    requires
        a.finite(),
        b.finite(),
        e <= 252,
        abs(a.value() + b.value()) < pow2(24 + e),
    ensures
        a.add_spec(b).finite(),
        2 * abs(a.add_spec(b).value() - (a.value() + b.value())) <= pow2(e),
        a.add_spec(b).abs_units() <= pow2(24 + e),
{
    let v = a.value() + b.value();
    let r = a.add_spec(b);
    lemma_pow2_pos(e);
    lemma_pow2_pos(24 + e);
    if v == 0 {
        assert(r.magnitude() == 0);
        lemma_pow2_pos(0);
        assert(units(0) == 0) by (nonlinear_arith)
            requires
                units(0) == 0 * pow2(0),
        ;
    } else {
        let n = abs(v) as nat;
        assert(pow2(24 + e) * 1 == pow2(24 + e));
        lemma_round_is_near(n, 1, e);
        let mag = round_to_nearest(n, 1);
        assert(r.magnitude() == mag);
        assert(r.negative() == (v < 0));
    }
}

/// Negation changes the sign of the value and nothing else.
pub proof fn lemma_neg_value(a: Single)
    requires
        a.finite(),
    ensures
        a.neg_spec().finite(),
        a.neg_spec().value() == -a.value(),
        a.neg_spec().abs_units() == a.abs_units(),
{
}

/// A difference is within half a spacing of the exact difference.
pub proof fn lemma_sub_is_near(a: Single, b: Single, e: nat)
    requires
        a.finite(),
        b.finite(),
        e <= 252,
        abs(a.value() - b.value()) < pow2(24 + e),
    ensures
        a.sub_spec(b).finite(),
        2 * abs(a.sub_spec(b).value() - (a.value() - b.value())) <= pow2(e),
        a.sub_spec(b).abs_units() <= pow2(24 + e),
{
    lemma_neg_value(b);
    lemma_add_is_near(a, b.neg_spec(), e);
}

/// A quotient is within half a spacing of the exact quotient.
pub proof fn lemma_div_is_near(a: Single, b: Single, e: nat)
    requires
        a.finite(),
        b.finite(),
        !b.zero(),
        e <= 252,
        a.abs_units() * pow2(149) < pow2(24 + e) * b.abs_units(),
    ensures
        a.div_spec(b).finite(),
        2 * abs(a.div_spec(b).value() * b.value() - a.value() * pow2(149))
            <= b.abs_units() * pow2(e),
        a.div_spec(b).abs_units() <= pow2(24 + e),
{
    let n = a.abs_units() * pow2(149);
    let d = b.abs_units();
    lemma_units_positive(b.magnitude());
    lemma_round_is_near(n, d, e);
    let r = a.div_spec(b);
    let mag = round_to_nearest(n, d);
    assert(r.magnitude() == mag);
    assert(r.negative() == (a.negative() != b.negative()));
    let u = units(mag);
    lemma_signed_product(r.value(), b.value(), u, d, r.negative(), b.negative());
    let one = pow2(149);
    if a.negative() {
        assert(a.value() * one == -(n as int)) by (nonlinear_arith)
            requires
                a.value() == -(a.abs_units() as int),
                n == a.abs_units() * one,
        ;
    } else {
        assert(a.value() * one == n as int) by (nonlinear_arith)
            requires
                a.value() == a.abs_units() as int,
                n == a.abs_units() * one,
        ;
    }
}

/// Rounding does not take a ratio below the binade it lies in: a ratio at or above
/// the upper end of binade `e` rounds to infinity or to at least that many units.
pub proof fn lemma_round_is_large(n: nat, d: nat, e: nat)
    requires
        d > 0,
        e <= 252,
        n >= pow2(24 + e) * d,
    ensures
        round_to_nearest(n, d) == 0x7f80_0000 || (round_to_nearest(n, d) < 0x7f80_0000 && units(
            round_to_nearest(n, d),
        ) >= pow2(24 + e)),
{
    let s = binade(n, d, 0);
    lemma_binade_bounds(n, d, 0);
    if s <= e {
        lemma_pow2_le(24 + s, 24 + e);
        assert(pow2(24 + s) * d <= pow2(24 + e) * d) by (nonlinear_arith)
            requires
                pow2(24 + s) <= pow2(24 + e),
        ;
    }
    assert(s > e);
    let q = d * pow2(s);
    lemma_pow2_pos(s);
    assert(q > 0) by (nonlinear_arith)
        requires
            q == d * pow2(s),
            pow2(s) > 0,
            d > 0,
    ;
    let below = n / q;
    let rest = n % q;
    lemma_fundamental_div_mod(n as int, q as int);
    lemma_pow2_adds(24, s);
    lemma_pow2_adds(23, s);
    lemma2_to64();
    if below < 0x80_0000 {
        assert(q * below + rest < pow2(23 + s) * d) by (nonlinear_arith)
            requires
                below < 0x80_0000,
                rest < q,
                q == d * pow2(s),
                pow2(23 + s) == 0x80_0000 * pow2(s),
        ;
    }
    let up: nat = if 2 * rest > q || (2 * rest == q && below % 2 == 1) {
        1
    } else {
        0
    };
    let j = below + up;
    let pattern = s * 0x80_0000 + j;
    if s < 253 && below >= 0x100_0000 {
        assert(q * below >= pow2(24 + s) * d) by (nonlinear_arith)
            requires
                below >= 0x100_0000,
                q == d * pow2(s),
                pow2(24 + s) == 0x100_0000 * pow2(s),
                q > 0,
        ;
    }
    if pattern < 0x7f80_0000 {
        assert(j <= 0x100_0000);
        lemma_units_of_pattern(s, j);
        lemma_pow2_le(24 + e, 23 + s);
        assert(j * pow2(s) >= 0x80_0000 * pow2(s)) by (nonlinear_arith)
            requires
                j >= 0x80_0000,
        ;
    }
}

/// The next pattern stands for more units.
proof fn lemma_units_step(c: nat)
    requires
        c < 0x7f80_0000,
    ensures
        units(c) < units(c + 1),
{
    let e = c / 0x80_0000;
    let f = c % 0x80_0000;
    lemma2_to64();
    if f + 1 < 0x80_0000 {
        assert((c + 1) / 0x80_0000 == e);
        assert((c + 1) % 0x80_0000 == f + 1);
        if e == 0 {
            assert(units(c) == c * pow2(0));
            assert(units(c + 1) == (c + 1) * pow2(0));
        } else {
            let p = pow2((e - 1) as nat);
            lemma_pow2_pos((e - 1) as nat);
            assert(units(c) == (0x80_0000 + f) * p);
            assert(units(c + 1) == (0x80_0000 + f + 1) * p);
            assert((0x80_0000 + f) * p < (0x80_0000 + f + 1) * p) by (nonlinear_arith)
                requires
                    p > 0,
            ;
        }
    } else {
        assert((c + 1) / 0x80_0000 == e + 1);
        assert((c + 1) % 0x80_0000 == 0);
        assert(units(c + 1) == 0x80_0000 * pow2(e));
        if e == 0 {
            assert(units(c) == c * pow2(0));
        } else {
            let p = pow2((e - 1) as nat);
            lemma_pow2_pos((e - 1) as nat);
            lemma_pow2_unfold(e);
            assert(units(c) == (0x80_0000 + f) * p);
            assert((0x80_0000 + f) * p < 0x80_0000 * (2 * p)) by (nonlinear_arith)
                requires
                    f < 0x80_0000,
                    p > 0,
            ;
        }
    }
}

/// A greater pattern stands for more units. The pattern of infinity counts here as
/// the number one step beyond the largest finite one.
pub proof fn lemma_units_increase(c1: nat, c2: nat)
    requires
        c1 < c2 <= 0x7f80_0000,
    ensures
        units(c1) < units(c2),
    decreases c2 - c1,
{
    lemma_units_step(c1);
    if c1 + 1 < c2 {
        lemma_units_increase(c1 + 1, c2);
    }
}

/// Rounding gives the nearest pattern, and of two nearest the even one. Where the
/// result is finite, no pattern `c`, finite or that of infinity, stands for a
/// number nearer to the ratio `n / d`; and one that is as near and not the result
/// itself shows that the result is even.
pub proof fn lemma_round_is_nearest(n: nat, d: nat, c: nat)
    requires
        d > 0,
        c <= 0x7f80_0000,
        round_to_nearest(n, d) < 0x7f80_0000,
    ensures
        abs(units(round_to_nearest(n, d)) * d - n) <= abs(
            units(c) * d - n,
        ),
        c != round_to_nearest(n, d) && abs(units(round_to_nearest(n, d)) * d - n)
            == abs(units(c) * d - n) ==> round_to_nearest(n, d) % 2 == 0,
{
    let s = binade(n, d, 0);
    lemma_binade_bounds(n, d, 0);
    let q = d * pow2(s);
    lemma_pow2_pos(s);
    assert(q > 0) by (nonlinear_arith)
        requires
            q == d * pow2(s),
            pow2(s) > 0,
            d > 0,
    ;
    let below = n / q;
    let rest = n % q;
    lemma_fundamental_div_mod(n as int, q as int);
    assert(q * below == below * q) by (nonlinear_arith);
    lemma_pow2_adds(24, s);
    lemma_pow2_adds(23, s);
    lemma2_to64();
    if s < 253 && below >= 0x100_0000 {
        assert(q * below >= pow2(24 + s) * d) by (nonlinear_arith)
            requires
                below >= 0x100_0000,
                q == d * pow2(s),
                pow2(24 + s) == 0x100_0000 * pow2(s),
                q > 0,
        ;
    }
    if s > 0 && below < 0x80_0000 {
        assert(q * below + rest < pow2(23 + s) * d) by (nonlinear_arith)
            requires
                below < 0x80_0000,
                rest < q,
                q == d * pow2(s),
                pow2(23 + s) == 0x80_0000 * pow2(s),
        ;
    }
    let up: nat = if 2 * rest > q || (2 * rest == q && below % 2 == 1) {
        1
    } else {
        0
    };
    let lo = s * 0x80_0000 + below;
    let hi = lo + 1;
    let r = round_to_nearest(n, d);
    assert(r == lo + up);
    assert(below < 0x100_0000);
    lemma_units_of_pattern(s, below);
    lemma_units_of_pattern(s, below + 1);
    assert(units(lo) * d == below * q) by (nonlinear_arith)
        requires
            units(lo) == below * pow2(s),
            q == d * pow2(s),
    ;
    assert(units(hi) * d == below * q + q) by (nonlinear_arith)
        requires
            units(hi) == (below + 1) * pow2(s),
            q == d * pow2(s),
    ;
    if c < lo {
        lemma_units_increase(c, lo);
        assert(units(c) * d < units(lo) * d) by (nonlinear_arith)
            requires
                units(c) < units(lo),
                d > 0,
        ;
    } else if c > hi {
        lemma_units_increase(hi, c);
        assert(units(hi) * d < units(c) * d) by (nonlinear_arith)
            requires
                units(hi) < units(c),
                d > 0,
        ;
    }
}

/// Rounding gives infinity exactly where the ratio lies at or beyond the middle
/// between the largest finite number and the number one step beyond it.
pub proof fn lemma_round_overflows(n: nat, d: nat)
    requires
        d > 0,
    ensures
        round_to_nearest(n, d) == 0x7f80_0000 <==> 2 * n >= (units(0x7f7f_ffff) + units(
            0x7f80_0000,
        )) * d,
{
    let s = binade(n, d, 0);
    lemma_binade_bounds(n, d, 0);
    let top = pow2(253);
    lemma_pow2_pos(253);
    lemma_pow2_adds(23, 253);
    lemma_pow2_unfold(254);
    lemma2_to64();
    assert(units(0x7f7f_ffff) == 0xff_ffff * top);
    assert(units(0x7f80_0000) == 0x80_0000 * pow2(254));
    let middle = (units(0x7f7f_ffff) + units(0x7f80_0000)) * d;
    assert(middle == 0x1ff_ffff * (d * top)) by (nonlinear_arith)
        requires
            middle == (0xff_ffff * top + 0x80_0000 * (2 * top)) * d,
    ;
    let q = d * pow2(s);
    lemma_pow2_pos(s);
    assert(q > 0) by (nonlinear_arith)
        requires
            q == d * pow2(s),
            pow2(s) > 0,
            d > 0,
    ;
    let below = n / q;
    let rest = n % q;
    lemma_fundamental_div_mod(n as int, q as int);
    assert(q * below == below * q) by (nonlinear_arith);
    lemma_pow2_adds(24, s);
    if s < 253 {
        // the ratio lies under the last binade, far from the middle
        lemma_pow2_le(24 + s, 276);
        assert(2 * n < middle) by (nonlinear_arith)
            requires
                n < pow2(24 + s) * d,
                pow2(24 + s) <= 0x80_0000 * top,
                middle == 0x1ff_ffff * (d * top),
                d > 0,
                top > 0,
        ;
        if below >= 0x100_0000 {
            assert(q * below >= pow2(24 + s) * d) by (nonlinear_arith)
                requires
                    below >= 0x100_0000,
                    q == d * pow2(s),
                    pow2(24 + s) == 0x100_0000 * pow2(s),
                    q > 0,
            ;
        }
    } else {
        assert(q == d * top);
        if below >= 0x100_0000 {
            assert(2 * (below * q) >= 0x1ff_ffff * q) by (nonlinear_arith)
                requires
                    below >= 0x100_0000,
                    q > 0,
            ;
        } else if below == 0xff_ffff {
            assert(2 * (below * q) == 0x1ff_ffff * q - q) by (nonlinear_arith)
                requires
                    below == 0xff_ffff,
            ;
        } else {
            assert(2 * (below * q + rest) < 0x1ff_ffff * q) by (nonlinear_arith)
                requires
                    below <= 0xff_fffe,
                    rest < q,
            ;
        }
    }
}

/// A ratio that single precision can hold is left as it is: where `n / d` is `k`
/// times two to the power of `e`, with `k` below two to the power of 24, rounding
/// gives the pattern that stands for exactly that many units.
pub proof fn lemma_round_exact(n: nat, d: nat, k: nat, e: nat)
    requires
        d > 0,
        e <= 252,
        k < 0x100_0000,
        n == (k * pow2(e)) * d,
    ensures
        round_to_nearest(n, d) < 0x7f80_0000,
        units(round_to_nearest(n, d)) == k * pow2(e),
{
    lemma_pow2_pos(e);
    lemma_pow2_adds(24, e);
    lemma2_to64();
    assert(n < pow2(24 + e) * d) by (nonlinear_arith)
        requires
            n == (k * pow2(e)) * d,
            k < 0x100_0000,
            pow2(24 + e) == 0x100_0000 * pow2(e),
            pow2(e) > 0,
            d > 0,
    ;
    lemma_round_is_near(n, d, e);
    let s = binade(n, d, 0);
    let p = pow2(s);
    let r = units(round_to_nearest(n, d));
    let exact = k * pow2(e);
    lemma_pow2_pos(s);
    lemma_pow2_adds(s, (e - s) as nat);
    assert(exact == (k * pow2((e - s) as nat)) * p) by (nonlinear_arith)
        requires
            exact == k * pow2(e),
            pow2(e) == p * pow2((e - s) as nat),
    ;
    lemma_mod_multiples_basic(
        (k * pow2((e - s) as nat)) as int,
        p as int,
    );
    assert(r * d - n == (r - exact) * d) by (nonlinear_arith)
        requires
            n == exact * d,
    ;
    assert(2 * abs(r - exact) <= p) by (nonlinear_arith)
        requires
            2 * abs((r - exact) * d) <= d * p,
            d > 0,
    ;
    // two multiples of the spacing, less than one spacing apart
    lemma_fundamental_div_mod(r as int, p as int);
    lemma_fundamental_div_mod(exact as int, p as int);
    let a = r as int / p as int;
    let b = exact as int / p as int;
    if a < b {
        assert(p * b - p * a >= p) by (nonlinear_arith)
            requires
                a + 1 <= b,
                p > 0,
        ;
    } else if a > b {
        assert(p * a - p * b >= p) by (nonlinear_arith)
            requires
                b + 1 <= a,
                p > 0,
        ;
    }
}

/// Rounding, worked out by hand. Where the ratio `n / d` holds `k` whole spacings
/// of binade `s`, and `k` is a significand of that binade, the result is the
/// pattern made of `s` and `k`, or the next one: the next one where the rest is
/// more than half a spacing, or is half a spacing and `k` is odd.
pub proof fn lemma_round_from_floor(n: nat, d: nat, s: nat, k: nat)
    requires
        d > 0,
        s <= 252,
        k < 0x100_0000,
        s == 0 || k >= 0x80_0000,
        k * (d * pow2(s)) <= n < (k + 1) * (d * pow2(s)),
    ensures
        round_to_nearest(n, d) == s * 0x80_0000 + k + (if 2 * (n - k * (d * pow2(s))) > d * pow2(s)
            || (2 * (n - k * (d * pow2(s))) == d * pow2(s) && k % 2 == 1) {
            1nat
        } else {
            0nat
        }),
{
    let q = d * pow2(s);
    lemma_pow2_pos(s);
    assert(q > 0) by (nonlinear_arith)
        requires
            q == d * pow2(s),
            pow2(s) > 0,
            d > 0,
    ;
    let rest = (n - k * q) as nat;
    assert((k + 1) * q == k * q + q) by (nonlinear_arith);
    lemma_fundamental_div_mod_converse(n as int, q as int, k as int, rest as int);
    lemma_pow2_adds(23, s);
    lemma_pow2_adds(24, s);
    lemma2_to64();
    if k >= 0x80_0000 {
        assert(k * q >= pow2(23 + s) * d) by (nonlinear_arith)
            requires
                k >= 0x80_0000,
                q == d * pow2(s),
                pow2(23 + s) == 0x80_0000 * pow2(s),
                d > 0,
                pow2(s) > 0,
        ;
    }
    assert(k * q + q <= pow2(24 + s) * d) by (nonlinear_arith)
        requires
            k < 0x100_0000,
            q == d * pow2(s),
            pow2(24 + s) == 0x100_0000 * pow2(s),
            q > 0,
    ;
    lemma_binade_is(n, d, s, 0);
}

} // verus!
