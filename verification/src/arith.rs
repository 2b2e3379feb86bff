//! Single-precision arithmetic on bit patterns: each result is the exact result
//! rounded to nearest, ties to even.
use vstd::prelude::*;
use vstd::arithmetic::div_mod::{
    lemma_basic_div, lemma_div_by_multiple, lemma_div_denominator, lemma_fundamental_div_mod,
};
use vstd::arithmetic::power2::{
    lemma2_to64, lemma2_to64_rest, lemma_pow2_adds, lemma_pow2_pos, lemma_pow2_unfold, pow2,
};
use vstd::math::abs;
use crate::round::{
    bit_length, lemma_pow2_le, lemma_round_zero, low_bits, round_pack, round_to_nearest, shl, shr,
    stands_exactly_for, stands_for, EXTRA, INFINITY,
};
use crate::single::{scale, significand, units, Single, NAN_BITS};

verus! {

/// Splits the magnitude of a finite number into its significand and the power of
/// two, in units, that scales it.
pub fn split(mag: u32) -> (r: (u64, u64))
    requires
        mag < 0x7f80_0000,
    ensures
        r.0 == significand(mag as nat),
        r.1 == scale(mag as nat),
        r.0 < 0x100_0000,
        r.1 <= 253,
        r.0 == 0 <==> mag == 0,
        r.1 > 0 ==> r.0 >= 0x80_0000,
        mag >= 0x80_0000 ==> r.0 >= 0x80_0000,
{
    if mag < 0x80_0000 {
        (mag as u64, 0)
    } else {
        ((0x80_0000 + mag % 0x80_0000) as u64, (mag / 0x80_0000 - 1) as u64)
    }
}

proof fn lemma_product_exact(sa: nat, ea: nat, sb: nat, eb: nat)
    ensures
        stands_exactly_for(
            (sa * pow2(ea)) * (sb * pow2(eb)),
            pow2(149),
            sa * sb,
            ea + eb + 107,
        ),
{
    lemma_pow2_adds(ea + eb + 107, 149);
    lemma_pow2_adds(ea + eb, EXTRA as nat);
    lemma_pow2_adds(ea, eb);
    let w = pow2(EXTRA as nat);
    let pa = pow2(ea);
    let pb = pow2(eb);
    let pt = pow2(ea + eb + 107);
    let d = pow2(149);
    assert(((sa * pa) * (sb * pb)) * w == (sa * sb) * (pt * d)) by (nonlinear_arith)
        requires
            pt * d == (pa * pb) * w,
    ;
}

impl Single {
    /// The product: NaN for a NaN operand and for zero times infinity; else the sign
    /// is the exclusive or of the signs, and the magnitude that of the exact
    /// product rounded to nearest, ties to even.
    pub open spec fn mul_spec(self, rhs: Single) -> Single {
        let negative = self.negative() != rhs.negative();
        if self.nan() || rhs.nan() {
            Single { bits: NAN_BITS }
        } else if self.infinite() || rhs.infinite() {
            if self.zero() || rhs.zero() {
                Single { bits: NAN_BITS }
            } else {
                Single::compose(negative, 0x7f80_0000)
            }
        } else {
            Single::compose(
                negative,
                round_to_nearest(self.abs_units() * rhs.abs_units(), pow2(149)),
            )
        }
    }

    /// Multiplies two numbers.
    pub fn mul(self, rhs: Single) -> (r: Single)
        ensures
            r == self.mul_spec(rhs),
    {
        let negative = self.is_sign_negative() != rhs.is_sign_negative();
        let ma = self.mag();
        let mb = rhs.mag();
        if ma > INFINITY || mb > INFINITY {
            return Single { bits: NAN_BITS };
        }
        if ma == INFINITY || mb == INFINITY {
            if ma == 0 || mb == 0 {
                return Single { bits: NAN_BITS };
            }
            return Single::with_sign(negative, INFINITY);
        }
        let (sa, ea) = split(ma);
        let (sb, eb) = split(mb);
        assert(sa * sb < 0x1_0000_0000_0000) by (nonlinear_arith)
            requires
                sa < 0x100_0000,
                sb < 0x100_0000,
        ;
        let m = sa * sb;
        let t = ea + eb + 107;
        proof {
            lemma_product_exact(sa as nat, ea as nat, sb as nat, eb as nat);
            lemma_pow2_pos(149);
        }
        let mag = round_pack(m, t, Ghost(units(ma as nat) * units(mb as nat)), Ghost(pow2(149)));
        Single::with_sign(negative, mag)
    }
}

/// Whether `r` is `x` divided by two to the power of `k`: exactly, or as an odd
/// number less than one away from the quotient.
pub open spec fn close_to_quotient(r: nat, k: nat, x: nat) -> bool {
    r * pow2(k) == x || (r % 2 == 1 && (r - 1) * pow2(k) < x < (r + 1) * pow2(k))
}

/// `x` shifted right by `k` places; where a set bit is shifted out, the result is
/// made odd, so that it still tells on which side of each even number `x` lay.
pub fn shr_sticky(x: u64, k: u64) -> (r: u64)
    ensures
        r <= x,
        close_to_quotient(r as nat, k as nat, x as nat),
{
    if k >= 64 {
        proof {
            lemma_pow2_le(64, k as nat);
            lemma2_to64_rest();
            assert(0 * pow2(k as nat) == 0);
            assert(2 * pow2(k as nat) > x);
        }
        if x == 0 {
            0
        } else {
            1
        }
    } else {
        let q = shr(x, k);
        let rem = low_bits(x, k);
        proof {
            let p = pow2(k as nat);
            lemma_pow2_pos(k as nat);
            lemma_fundamental_div_mod(x as int, p as int);
            assert(p * (q as int) == q * p) by (nonlinear_arith);
            assert((q + 1) * p == q * p + p) by (nonlinear_arith);
            assert((q - 1) * p == q * p - p) by (nonlinear_arith);
            assert((q + 2) * p == q * p + 2 * p) by (nonlinear_arith);
            if rem != 0 {
                lemma2_to64();
                if k == 0 {
                    assert(false);
                }
                lemma_pow2_unfold(k as nat);
                lemma_pow2_pos((k - 1) as nat);
                assert(q * p >= 2 * q) by (nonlinear_arith)
                    requires
                        p >= 2,
                        q >= 0,
                ;
            }
        }
        if rem != 0 && q % 2 == 0 {
            q + 1
        } else {
            q
        }
    }
}

/// The number that a sum of units stands for: the exact sum rounded to nearest.
/// An exact sum of zero is `-0.0` when both operands are negative, else `0.0`.
pub open spec fn sum_spec(v: int, both_negative: bool) -> Single {
    if v == 0 {
        Single::compose(both_negative, 0)
    } else {
        Single::compose(v < 0, round_to_nearest(abs(v) as nat, 1))
    }
}

/// The value, in units, of a significand with its scale and sign.
pub open spec fn signed_units(negative: bool, sig: nat, e: nat) -> int {
    if negative {
        -((sig * pow2(e)) as int)
    } else {
        (sig * pow2(e)) as int
    }
}

proof fn lemma_sum_near(a: nat, b: nat, sy: nat, p: nat, q: nat, r: nat)
    requires
        p == q * r,
        q > 0,
        r > 0,
        a % 2 == 0,
        a > b + 1,
        b * q == sy || (b % 2 == 1 && (b - 1) * q < sy < (b + 1) * q),
    ensures
        (a + b) * p == a * p + sy * r || ((a + b) % 2 == 1 && (a + b - 1) * p < a * p + sy * r < (a
            + b + 1) * p),
        (a - b) * p == a * p - sy * r || ((a - b) % 2 == 1 && (a - b - 1) * p < a * p - sy * r < (a
            - b + 1) * p),
{
    assert((a + b) * p == a * p + b * p) by (nonlinear_arith);
    assert((a - b) * p == a * p - b * p) by (nonlinear_arith);
    assert((a + b - 1) * p == a * p + b * p - p) by (nonlinear_arith);
    assert((a + b + 1) * p == a * p + b * p + p) by (nonlinear_arith);
    assert((a - b - 1) * p == a * p - b * p - p) by (nonlinear_arith);
    assert((a - b + 1) * p == a * p - b * p + p) by (nonlinear_arith);
    assert(b * p == (b * q) * r) by (nonlinear_arith)
        requires
            p == q * r,
    ;
    if b * q != sy {
        assert(b * p - p == ((b - 1) * q) * r) by (nonlinear_arith)
            requires
                p == q * r,
        ;
        assert(b * p + p == ((b + 1) * q) * r) by (nonlinear_arith)
            requires
                p == q * r,
        ;
        assert(((b - 1) * q) * r < sy * r) by (nonlinear_arith)
            requires
                (b - 1) * q < sy,
                r > 0,
        ;
        assert(sy * r < ((b + 1) * q) * r) by (nonlinear_arith)
            requires
                sy < (b + 1) * q,
                r > 0,
        ;
    }
}

proof fn lemma_scaled_stands(n: nat, m: nat, e: nat)
    requires
        m * pow2(e) == n || (m % 2 == 1 && (m - 1) * pow2(e) < n < (m + 1) * pow2(e)),
    ensures
        stands_for(n, 1, m, e + EXTRA as nat),
        m * pow2(e) == n ==> stands_exactly_for(n, 1, m, e + EXTRA as nat),
{
    let w = pow2(EXTRA as nat);
    let p = pow2(e);
    lemma_pow2_adds(e, EXTRA as nat);
    lemma_pow2_pos(EXTRA as nat);
    assert(pow2(e + EXTRA as nat) * 1 == p * w);
    assert(m * (p * w) == (m * p) * w) by (nonlinear_arith);
    assert((m - 1) * (p * w) == ((m - 1) * p) * w) by (nonlinear_arith);
    assert((m + 1) * (p * w) == ((m + 1) * p) * w) by (nonlinear_arith);
    if m * p != n {
        assert(((m - 1) * p) * w < n * w) by (nonlinear_arith)
            requires
                (m - 1) * p < n,
                w > 0,
        ;
        assert(n * w < ((m + 1) * p) * w) by (nonlinear_arith)
            requires
                n < (m + 1) * p,
                w > 0,
        ;
    }
}

/// Adds two finite numbers, the first of which has the greater or an equal scale.
fn add_aligned(xn: bool, sx: u64, ex: u64, yn: bool, sy: u64, ey: u64) -> (r: Single)
    requires
        sx < 0x100_0000,
        sy < 0x100_0000,
        ey <= ex <= 253,
        ex > 0 ==> sx >= 0x80_0000,
    ensures
        r == sum_spec(
            signed_units(xn, sx as nat, ex as nat) + signed_units(yn, sy as nat, ey as nat),
            xn && yn,
        ),
{
    let diff = ex - ey;
    let ghost ux = sx as nat * pow2(ex as nat);
    let ghost uy = sy as nat * pow2(ey as nat);
    let ghost v = signed_units(xn, sx as nat, ex as nat) + signed_units(
        yn,
        sy as nat,
        ey as nat,
    );
    proof {
        lemma2_to64();
        lemma2_to64_rest();
        lemma_pow2_pos(ey as nat);
    }
    if diff <= 38 {
        proof {
            lemma_pow2_le(diff as nat, 38);
            assert(pow2(38) == 0x40_0000_0000) by {
                lemma_pow2_adds(32, 6);
            }
            assert(sx * pow2(diff as nat) < 0x100_0000 * 0x40_0000_0000) by (nonlinear_arith)
                requires
                    sx < 0x100_0000,
                    pow2(diff as nat) <= 0x40_0000_0000,
            ;
            lemma_pow2_adds(diff as nat, ey as nat);
            assert((sx * pow2(diff as nat)) * pow2(ey as nat) == sx * pow2(ex as nat))
                by (nonlinear_arith)
                requires
                    pow2(ex as nat) == pow2(diff as nat) * pow2(ey as nat),
            ;
        }
        let a = shl(sx, diff);
        let b = sy;
        let negative: bool;
        let m: u64;
        if xn == yn {
            negative = xn;
            m = a + b;
        } else if a >= b {
            negative = xn;
            m = a - b;
        } else {
            negative = yn;
            m = b - a;
        }
        proof {
            let p = pow2(ey as nat);
            assert((a + b) * p == a * p + b * p) by (nonlinear_arith);
            assert((a - b) * p == a * p - b * p) by (nonlinear_arith);
            assert((b - a) * p == b * p - a * p) by (nonlinear_arith);
            assert(abs(v) == m * p);
            if m == 0 {
                assert(0 * p == 0);
            } else {
                assert(m * p > 0) by (nonlinear_arith)
                    requires
                        m > 0,
                        p > 0,
                ;
                if v < 0 {
                    assert(negative);
                } else {
                    assert(!negative);
                }
            }
            lemma_scaled_stands((m * p) as nat, m as nat, ey as nat);
        }
        if m == 0 {
            return Single::with_sign(xn && yn, 0);
        }
        let mag = round_pack(m, ey + 256, Ghost((m * pow2(ey as nat)) as nat), Ghost(1));
        Single::with_sign(negative, mag)
    } else {
        proof {
            assert(pow2(39) == 0x80_0000_0000) by {
                lemma_pow2_adds(32, 7);
            }
            assert(sx * pow2(39) < 0x100_0000 * 0x80_0000_0000) by (nonlinear_arith)
                requires
                    sx < 0x100_0000,
                    pow2(39) == 0x80_0000_0000,
            ;
            assert(sx * pow2(39) >= 0x80_0000 * 0x80_0000_0000) by (nonlinear_arith)
                requires
                    sx >= 0x80_0000,
                    pow2(39) == 0x80_0000_0000,
            ;
        }
        let a = shl(sx, 39);
        let b = shr_sticky(sy, diff - 39);
        let m: u64 = if xn == yn {
            a + b
        } else {
            a - b
        };
        proof {
            let p = pow2((ex - 39) as nat);
            let q = pow2((diff - 39) as nat);
            let r = pow2(ey as nat);
            lemma_pow2_adds((diff - 39) as nat, ey as nat);
            lemma_pow2_adds(39, (ex - 39) as nat);
            lemma_pow2_pos((diff - 39) as nat);
            lemma_pow2_pos((ex - 39) as nat);
            assert(a * p == ux) by (nonlinear_arith)
                requires
                    a == sx * pow2(39),
                    pow2(ex as nat) == pow2(39) * p,
                    ux == sx * pow2(ex as nat),
            ;
            assert(a % 2 == 0) by (nonlinear_arith)
                requires
                    a == sx * 0x80_0000_0000,
            ;
            lemma_sum_near(a as nat, b as nat, sy as nat, p, q, r);
            // the greater operand decides the sign
            assert(uy < ux) by {
                assert((b + 1) * p <= a * p) by (nonlinear_arith)
                    requires
                        b + 1 <= a,
                        p > 0,
                ;
                assert((b + 1) * p == b * p + p) by (nonlinear_arith);
                assert(b * p == (b * q) * r) by (nonlinear_arith)
                    requires
                        p == q * r,
                ;
                assert(((b + 1) * q) * r == b * p + p) by (nonlinear_arith)
                    requires
                        p == q * r,
                ;
                if b * q != sy {
                    assert(sy * r < ((b + 1) * q) * r) by (nonlinear_arith)
                        requires
                            sy < (b + 1) * q,
                            r > 0,
                    ;
                }
            }
            let n: nat = if xn == yn {
                ux + uy
            } else {
                (ux - uy) as nat
            };
            assert(abs(v) == n);
            assert(v != 0);
            assert((v < 0) == xn);
            lemma_scaled_stands(n, m as nat, (ex - 39) as nat);
        }
        let mag = round_pack(
            m,
            ex - 39 + 256,
            Ghost(abs(v) as nat),
            Ghost(1),
        );
        Single::with_sign(xn, mag)
    }
}

impl Single {
    /// The sum: NaN for a NaN operand and for infinities of opposite signs; an
    /// infinite operand otherwise; else the exact sum rounded to nearest, ties to
    /// even.
    pub open spec fn add_spec(self, rhs: Single) -> Single {
        if self.nan() || rhs.nan() {
            Single { bits: NAN_BITS }
        } else if self.infinite() {
            if rhs.infinite() && self.negative() != rhs.negative() {
                Single { bits: NAN_BITS }
            } else {
                self
            }
        } else if rhs.infinite() {
            rhs
        } else {
            sum_spec(self.value() + rhs.value(), self.negative() && rhs.negative())
        }
    }

    /// The difference: the sum of the first operand and the negated second.
    pub open spec fn sub_spec(self, rhs: Single) -> Single {
        self.add_spec(rhs.neg_spec())
    }

    /// Adds two numbers.
    pub fn add(self, rhs: Single) -> (r: Single)
        ensures
            r == self.add_spec(rhs),
    {
        let ma = self.mag();
        let mb = rhs.mag();
        if ma > INFINITY || mb > INFINITY {
            return Single { bits: NAN_BITS };
        }
        if ma == INFINITY {
            if mb == INFINITY && self.is_sign_negative() != rhs.is_sign_negative() {
                return Single { bits: NAN_BITS };
            }
            return self;
        }
        if mb == INFINITY {
            return rhs;
        }
        let (sa, ea) = split(ma);
        let (sb, eb) = split(mb);
        if ea >= eb {
            add_aligned(self.is_sign_negative(), sa, ea, rhs.is_sign_negative(), sb, eb)
        } else {
            add_aligned(rhs.is_sign_negative(), sb, eb, self.is_sign_negative(), sa, ea)
        }
    }

    /// Subtracts the second number from the first.
    pub fn sub(self, rhs: Single) -> (r: Single)
        ensures
            r == self.sub_spec(rhs),
    {
        self.add(rhs.neg())
    }
}

/// Shifts a significand left until its leading bit is the hidden bit.
pub fn normalize(sig: u64) -> (r: (u64, u64))
    requires
        0 < sig < 0x100_0000,
    ensures
        r.0 == sig * pow2(r.1 as nat),
        0x80_0000 <= r.0 < 0x100_0000,
        r.1 <= 23,
{
    let len = bit_length(sig);
    proof {
        lemma2_to64();
        if len > 24 {
            lemma_pow2_le(24, (len - 1) as nat);
        }
        lemma_pow2_adds((len - 1) as nat, (24 - len) as nat);
        lemma_pow2_adds(len as nat, (24 - len) as nat);
        let p = pow2((24 - len) as nat);
        lemma_pow2_pos((24 - len) as nat);
        assert(sig * p >= pow2((len - 1) as nat) * p) by (nonlinear_arith)
            requires
                sig >= pow2((len - 1) as nat),
                p > 0,
        ;
        assert(sig * p < pow2(len as nat) * p) by (nonlinear_arith)
            requires
                sig < pow2(len as nat),
                p > 0,
        ;
    }
    let k = 24 - len;
    (shl(sig, k), k)
}

proof fn lemma_quotient_stands(
    sa: nat,
    ea: nat,
    ka: nat,
    sb: nat,
    eb: nat,
    kb: nat,
    num: nat,
    nb: nat,
    m: nat,
)
    requires
        ka <= 23,
        eb <= 253,
        nb > 0,
        sb > 0,
        num == sa * pow2(ka) * pow2(39),
        nb == sb * pow2(kb),
        m * nb == num || (m % 2 == 1 && (m - 1) * nb < num < (m + 1) * nb),
    ensures
        stands_for(
            (sa * pow2(ea)) * pow2(149),
            sb * pow2(eb),
            m,
            (ea + kb + 366 - ka - eb) as nat,
        ),
        m * nb == num ==> stands_exactly_for(
            (sa * pow2(ea)) * pow2(149),
            sb * pow2(eb),
            m,
            (ea + kb + 366 - ka - eb) as nat,
        ),
{
    let t = (ea + kb + 366 - ka - eb) as nat;
    let w = pow2(EXTRA as nat);
    let z = pow2((ea + 366 - ka) as nat);
    let n = (sa * pow2(ea)) * pow2(149);
    let d = sb * pow2(eb);
    lemma_pow2_pos((ea + 366 - ka) as nat);
    // n * w == num * z
    lemma_pow2_adds(ka, 39);
    lemma_pow2_adds(ka + 39, (ea + 366 - ka) as nat);
    lemma_pow2_adds(ea, 149);
    lemma_pow2_adds(ea + 149, EXTRA as nat);
    assert(n * w == num * z) by (nonlinear_arith)
        requires
            n == (sa * pow2(ea)) * pow2(149),
            num == sa * pow2(ka) * pow2(39),
            pow2(ea + 149 + EXTRA as nat) == pow2(ea) * pow2(149) * w,
            pow2(ea + 149 + EXTRA as nat) == pow2(ka) * pow2(39) * z,
    ;
    // pow2(t) * d == nb * z
    lemma_pow2_adds(t, eb);
    lemma_pow2_adds(kb, (ea + 366 - ka) as nat);
    assert(pow2(t) * d == nb * z) by (nonlinear_arith)
        requires
            d == sb * pow2(eb),
            nb == sb * pow2(kb),
            pow2(t) * pow2(eb) == pow2(kb) * z,
    ;
    let a = pow2(t) * d;
    assert(m * a == (m * nb) * z) by (nonlinear_arith)
        requires
            a == nb * z,
    ;
    assert((m - 1) * a == ((m - 1) * nb) * z) by (nonlinear_arith)
        requires
            a == nb * z,
    ;
    assert((m + 1) * a == ((m + 1) * nb) * z) by (nonlinear_arith)
        requires
            a == nb * z,
    ;
    if m * nb != num {
        assert(((m - 1) * nb) * z < num * z) by (nonlinear_arith)
            requires
                (m - 1) * nb < num,
                z > 0,
        ;
        assert(num * z < ((m + 1) * nb) * z) by (nonlinear_arith)
            requires
                num < (m + 1) * nb,
                z > 0,
        ;
    }
}

impl Single {
    /// The quotient: NaN for a NaN operand, for zero by zero and for infinity by
    /// infinity; else the sign is the exclusive or of the signs; infinity for an
    /// infinite dividend or a zero divisor, zero for an infinite divisor; else the
    /// exact quotient rounded to nearest, ties to even.
    pub open spec fn div_spec(self, rhs: Single) -> Single {
        let negative = self.negative() != rhs.negative();
        if self.nan() || rhs.nan() {
            Single { bits: NAN_BITS }
        } else if self.infinite() {
            if rhs.infinite() {
                Single { bits: NAN_BITS }
            } else {
                Single::compose(negative, 0x7f80_0000)
            }
        } else if rhs.infinite() {
            Single::compose(negative, 0)
        } else if rhs.zero() {
            if self.zero() {
                Single { bits: NAN_BITS }
            } else {
                Single::compose(negative, 0x7f80_0000)
            }
        } else {
            Single::compose(
                negative,
                round_to_nearest(self.abs_units() * pow2(149), rhs.abs_units()),
            )
        }
    }

    /// Divides the first number by the second.
    pub fn div(self, rhs: Single) -> (r: Single)
        ensures
            r == self.div_spec(rhs),
    {
        let negative = self.is_sign_negative() != rhs.is_sign_negative();
        let ma = self.mag();
        let mb = rhs.mag();
        if ma > INFINITY || mb > INFINITY {
            return Single { bits: NAN_BITS };
        }
        if ma == INFINITY {
            if mb == INFINITY {
                return Single { bits: NAN_BITS };
            }
            return Single::with_sign(negative, INFINITY);
        }
        if mb == INFINITY {
            return Single::with_sign(negative, 0);
        }
        if mb == 0 {
            if ma == 0 {
                return Single { bits: NAN_BITS };
            }
            return Single::with_sign(negative, INFINITY);
        }
        let (sa, ea) = split(ma);
        let (sb, eb) = split(mb);
        proof {
            lemma_pow2_pos(eb as nat);
            assert(sb * pow2(eb as nat) > 0) by (nonlinear_arith)
                requires
                    sb > 0,
                    pow2(eb as nat) > 0,
            ;
        }
        if sa == 0 {
            proof {
                assert((0 * pow2(ea as nat)) * pow2(149) == 0) by (nonlinear_arith);
                lemma_round_zero(units(mb as nat));
            }
            return Single::with_sign(negative, 0);
        }
        let (na, ka) = normalize(sa);
        let (nb, kb) = normalize(sb);
        proof {
            lemma2_to64();
            assert(pow2(39) == 0x80_0000_0000) by {
                lemma_pow2_adds(32, 7);
            }
        }
        let num = shl(na, 39);
        let q0 = num / nb;
        let rem = num % nb;
        proof {
            lemma_fundamental_div_mod(num as int, nb as int);
            assert(nb * (q0 as int) == q0 * nb) by (nonlinear_arith);
            assert((q0 + 1) * nb == q0 * nb + nb) by (nonlinear_arith);
            assert((q0 - 1) * nb == q0 * nb - nb) by (nonlinear_arith);
            assert((q0 + 2) * nb == q0 * nb + 2 * nb) by (nonlinear_arith);
            if q0 < 0x40_0000_0000 {
                assert(q0 * nb + rem < 0x40_0000_0000 * 0x100_0000) by (nonlinear_arith)
                    requires
                        q0 < 0x40_0000_0000,
                        rem < nb,
                        nb <= 0x100_0000,
                ;
            }
            if q0 >= 0x100_0000_0000 {
                assert(q0 * nb >= 0x100_0000_0000 * 0x80_0000) by (nonlinear_arith)
                    requires
                        q0 >= 0x100_0000_0000,
                        nb >= 0x80_0000,
                ;
            }
        }
        let m = if rem != 0 && q0 % 2 == 0 {
            q0 + 1
        } else {
            q0
        };
        let t = ea + kb + 366 - ka - eb;
        proof {
            lemma_quotient_stands(
                sa as nat,
                ea as nat,
                ka as nat,
                sb as nat,
                eb as nat,
                kb as nat,
                num as nat,
                nb as nat,
                m as nat,
            );
        }
        let mag = round_pack(
            m,
            t,
            Ghost(units(ma as nat) * pow2(149)),
            Ghost(units(mb as nat)),
        );
        Single::with_sign(negative, mag)
    }

    /// The number as a 16-bit unsigned integer: the fraction is dropped, and what
    /// lies beyond the range goes to its nearer end. A NaN gives 0.
    pub open spec fn to_u16_spec(self) -> u16 {
        if self.nan() || self.negative() {
            0
        } else if self.infinite() {
            65535
        } else {
            let whole = self.abs_units() / pow2(149);
            if whole >= 65535 {
                65535
            } else {
                whole as u16
            }
        }
    }

    /// Converts to a 16-bit unsigned integer, saturating.
    pub fn to_u16(self) -> (r: u16)
        ensures
            r == self.to_u16_spec(),
    {
        let mag = self.mag();
        if mag > INFINITY || self.is_sign_negative() {
            return 0;
        }
        if mag == INFINITY {
            return 65535;
        }
        let (sig, e) = split(mag);
        proof {
            lemma2_to64();
            lemma_pow2_pos(e as nat);
            lemma_pow2_pos(149);
        }
        if e >= 149 {
            proof {
                let p = pow2((e - 149) as nat);
                lemma_pow2_pos((e - 149) as nat);
                lemma_pow2_adds((e - 149) as nat, 149);
                assert(sig * pow2(e as nat) == (sig * p) * pow2(149)) by (nonlinear_arith)
                    requires
                        pow2(e as nat) == p * pow2(149),
                ;
                lemma_div_by_multiple(
                    (sig * p) as int,
                    pow2(149) as int,
                );
                assert(sig * p >= 0x80_0000) by (nonlinear_arith)
                    requires
                        sig >= 0x80_0000,
                        p >= 1,
                ;
            }
            65535
        } else {
            let sh = 149 - e;
            proof {
                let pe = pow2(e as nat);
                let ps = pow2(sh as nat);
                lemma_pow2_pos(sh as nat);
                lemma_pow2_adds(e as nat, sh as nat);
                lemma_div_denominator(
                    (sig * pe) as int,
                    pe as int,
                    ps as int,
                );
                lemma_div_by_multiple(sig as int, pe as int);
                assert(units(mag as nat) / pow2(149) == sig as nat / ps);
                if sh >= 64 {
                    lemma_pow2_le(24, sh as nat);
                    lemma_basic_div(sig as int, ps as int);
                }
            }
            if sh >= 64 {
                0
            } else {
                let whole = shr(sig, sh);
                if whole >= 65535 {
                    65535
                } else {
                    whole as u16
                }
            }
        }
    }
}

} // verus!
