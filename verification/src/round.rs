//! Rounding of an exact ratio to the nearest single-precision magnitude, ties to
//! even.
use vstd::prelude::*;
use vstd::arithmetic::div_mod::{
    lemma_basic_div, lemma_div_denominator, lemma_fundamental_div_mod,
    lemma_fundamental_div_mod_converse,
};
use vstd::arithmetic::power2::{
    lemma2_to64, lemma2_to64_rest, lemma_pow2_adds, lemma_pow2_pos, lemma_pow2_strictly_increases,
    lemma_pow2_unfold, pow2,
};
use vstd::bits::{lemma_u64_shl_is_mul, lemma_u64_shr_is_div};

verus! {

/// The exponent of the fixed factor, a power of two, by which the working value
/// of an operation is scaled so that its own exponent is never negative.
pub const EXTRA: u64 = 256;

/// The magnitude pattern of infinity.
pub const INFINITY: u32 = 0x7f80_0000;

/// The binade of the ratio `n / d` (in units): the least `e`, from the given start
/// up to 253, with `n / d` below two to the power of `24 + e`. Binade 0 holds the
/// subnormals and the smallest normals, whose spacing is one unit; in binade `e` the
/// spacing is two to the power of `e`.
pub open spec fn binade(n: nat, d: nat, e: nat) -> nat
    decreases 253 - e,
{
    if e >= 253 || n < pow2(24 + e) * d {
        e
    } else {
        binade(n, d, e + 1)
    }
}

/// The magnitude pattern nearest to the ratio `n / d` of units, ties going to the
/// even pattern, and the pattern of infinity where the ratio rounds beyond the
/// largest finite number.
pub open spec fn round_to_nearest(n: nat, d: nat) -> nat {
    let e = binade(n, d, 0);
    let spacing = d * pow2(e);
    let below = n / spacing;
    let rest = n % spacing;
    let up: nat = if 2 * rest > spacing || (2 * rest == spacing && below % 2 == 1) {
        1
    } else {
        0
    };
    let pattern = e * 0x80_0000 + below + up;
    if pattern < 0x7f80_0000 {
        pattern
    } else {
        0x7f80_0000
    }
}

/// Whether `m`, scaled by two to the power of `t`, stands for the ratio `n / d`
/// scaled by two to the power of `EXTRA`: either exactly, or as an odd `m` less
/// than one away from the scaled ratio.
pub open spec fn stands_for(n: nat, d: nat, m: nat, t: nat) -> bool {
    let lhs = n * pow2(EXTRA as nat);
    let a = pow2(t) * d;
    lhs == m * a || (m % 2 == 1 && (m - 1) * a < lhs < (m + 1) * a)
}

/// Whether `m`, scaled by two to the power of `t`, is exactly the ratio `n / d`
/// scaled by two to the power of `EXTRA`.
pub open spec fn stands_exactly_for(n: nat, d: nat, m: nat, t: nat) -> bool {
    n * pow2(EXTRA as nat) == m * (pow2(t) * d)
}

/// Powers of two grow with their exponent, and none is zero.
pub proof fn lemma_pow2_le(a: nat, b: nat)
    requires
        a <= b,
    ensures
        pow2(a) <= pow2(b),
        pow2(a) > 0,
{
    lemma_pow2_pos(a);
    if a < b {
        lemma_pow2_strictly_increases(a, b);
    }
}

proof fn lemma_cancel_le(x: int, y: int, w: int)
    by (nonlinear_arith)
    requires
        w > 0,
        x * w <= y * w,
    ensures
        x <= y,
{
}

proof fn lemma_cancel_lt(x: int, y: int, w: int)
    by (nonlinear_arith)
    requires
        w > 0,
        x * w < y * w,
    ensures
        x < y,
{
}

proof fn lemma_scale_le(x: int, y: int, a: int)
    by (nonlinear_arith)
    requires
        a >= 0,
        x <= y,
    ensures
        x * a <= y * a,
{
}

/// The binade of `n / d` is `s` when the ratio lies between the bounds of `s`.
pub proof fn lemma_binade_is(n: nat, d: nat, s: nat, e: nat)
    requires
        d > 0,
        s <= 253,
        e <= s,
        s == 0 || n >= pow2(23 + s) * d,
        s == 253 || n < pow2(24 + s) * d,
    ensures
        binade(n, d, e) == s,
    decreases s - e,
{
    if e < s {
        lemma_pow2_le(24 + e, 23 + s);
        lemma_scale_le(pow2(24 + e) as int, pow2(23 + s) as int, d as int);
        lemma_binade_is(n, d, s, e + 1);
    }
}

/// The heart of rounding. `m` splits into `k` whole spacings and `rem`; `hs` is
/// half a spacing. If `m` stands for `n / q` spacings, exactly or as an odd number
/// less than one away, then `k` is the whole part of `n / q`, and the rest of
/// `n / q` compares with half of `q` as `rem` compares with `hs`.
proof fn lemma_quotient_from_parts(n: int, q: int, w: int, a: int, m: int, k: int, rem: int, hs: int)
    requires
        n >= 0,
        q > 0,
        w > 0,
        a > 0,
        k >= 0,
        hs >= 2,
        hs % 2 == 0,
        q * w == 2 * hs * a,
        m == k * (2 * hs) + rem,
        0 <= rem < 2 * hs,
        n * w == m * a || (m % 2 == 1 && (m - 1) * a < n * w < (m + 1) * a),
    ensures
        n / q == k,
        2 * (n % q) > q <==> rem > hs,
        2 * (n % q) == q <==> (rem == hs && n * w == m * a),
        rem == hs ==> n * w == m * a,
{
    let r = n - k * q;
    assert(k * q * w == k * (2 * hs) * a) by (nonlinear_arith)
        requires
            q * w == 2 * hs * a,
    ;
    assert(m * a == k * (2 * hs) * a + rem * a) by (nonlinear_arith)
        requires
            m == k * (2 * hs) + rem,
    ;
    assert((m - 1) * a == m * a - a) by (nonlinear_arith);
    assert((m + 1) * a == m * a + a) by (nonlinear_arith);
    assert(r * w == n * w - k * q * w) by (nonlinear_arith)
        requires
            r == n - k * q,
    ;
    assert(2 * hs * a == hs * a + hs * a) by (nonlinear_arith);
    assert(0 <= rem * a) by (nonlinear_arith)
        requires
            rem >= 0,
            a > 0,
    ;
    if rem < hs {
        lemma_scale_le(rem + 1, hs, a);
        assert((rem + 1) * a == rem * a + a) by (nonlinear_arith);
    } else if rem > hs {
        lemma_scale_le(hs, rem - 1, a);
        assert((rem - 1) * a == rem * a - a) by (nonlinear_arith);
    }
    lemma_scale_le(rem + 1, 2 * hs, a);
    assert((rem + 1) * a == rem * a + a) by (nonlinear_arith);
    if n * w != m * a {
        // m is odd and two half-spacings are even, so rem is odd; hs is even.
        assert(k * (2 * hs) == 2 * (k * hs)) by (nonlinear_arith);
        assert(rem % 2 == 1);
        assert(rem != hs);
        assert(rem >= 1);
        lemma_scale_le(1, rem, a);
    }
    // 0 <= r * w < q * w
    assert(0 <= r * w);
    assert(r * w < q * w);
    assert(0 * w == 0);
    lemma_cancel_le(0, r, w);
    lemma_cancel_lt(r, q, w);
    assert(n == k * q + r);
    lemma_fundamental_div_mod_converse(n, q, k, r);
    assert((2 * r) * w == 2 * (r * w)) by (nonlinear_arith);
    if rem < hs {
        assert((2 * r) * w < q * w);
        lemma_cancel_lt(2 * r, q, w);
    } else if rem > hs {
        assert(q * w < (2 * r) * w);
        lemma_cancel_lt(q, 2 * r, w);
    } else {
        assert((2 * r) * w == q * w);
        lemma_cancel_le(2 * r, q, w);
        lemma_cancel_le(q, 2 * r, w);
    }
}

/// `x` shifted right by `k` places.
pub fn shr(x: u64, k: u64) -> (r: u64)
    requires
        k < 64,
    ensures
        r == x as nat / pow2(k as nat),
{
    proof {
        lemma_u64_shr_is_div(x, k);
    }
    x >> k
}

/// `x` shifted left by `k` places, where nothing is shifted out.
pub fn shl(x: u64, k: u64) -> (r: u64)
    requires
        k < 64,
        x * pow2(k as nat) <= u64::MAX,
    ensures
        r == x * pow2(k as nat),
{
    proof {
        lemma_u64_shl_is_mul(x, k);
    }
    x << k
}

/// The lowest `k` bits of `x`.
pub fn low_bits(x: u64, k: u64) -> (r: u64)
    requires
        k < 64,
    ensures
        r == x as nat % pow2(k as nat),
{
    let q = shr(x, k);
    proof {
        lemma_pow2_pos(k as nat);
        lemma_fundamental_div_mod(x as int, pow2(k as nat) as int);
        assert(q * pow2(k as nat) == pow2(k as nat) * q) by (nonlinear_arith);
    }
    x - shl(q, k)
}

/// The number of bits of `m`: 0 for 0, else the `len` with `m` from two to the
/// power of `len - 1` up to, but not reaching, two to the power of `len`.
pub fn bit_length(m: u64) -> (len: u64)
    ensures
        len <= 64,
        m == 0 <==> len == 0,
        m > 0 ==> pow2((len - 1) as nat) <= m < pow2(len as nat),
{
    let mut len: u64 = 0;
    let mut x: u64 = m;
    proof {
        lemma2_to64();
    }
    while x > 0
        invariant
            len <= 64,
            x == m as nat / pow2(len as nat),
            len > 0 ==> m as nat / pow2((len - 1) as nat) > 0,
            m == 0 <==> (len == 0 && x == 0),
        decreases x,
    {
        proof {
            if len >= 64 {
                lemma_pow2_le(64, len as nat);
                lemma2_to64_rest();
                lemma_basic_div(m as int, pow2(len as nat) as int);
            }
            lemma2_to64();
            lemma_pow2_pos(len as nat);
            lemma_pow2_adds(len as nat, 1);
            lemma_div_denominator(m as int, pow2(len as nat) as int, 2);
            assert(pow2((len + 1) as nat) == pow2(len as nat) * 2);
        }
        x = x / 2;
        len = len + 1;
    }
    proof {
        if m > 0 {
            let hi = pow2(len as nat);
            let lo = pow2((len - 1) as nat);
            lemma_pow2_pos(len as nat);
            lemma_pow2_pos((len - 1) as nat);
            lemma_fundamental_div_mod(m as int, hi as int);
            lemma_fundamental_div_mod(m as int, lo as int);
            assert(hi * (m as nat / hi) == 0) by (nonlinear_arith)
                requires
                    m as nat / hi == 0,
            ;
            let c = m as nat / lo;
            assert(lo * c >= lo) by (nonlinear_arith)
                requires
                    c >= 1,
                    lo > 0,
            ;
        }
    }
    len
}

/// Rounding a ratio of zero gives the pattern of zero.
pub proof fn lemma_round_zero(d: nat)
    requires
        d > 0,
    ensures
        round_to_nearest(0, d) == 0,
{
    lemma_pow2_pos(24);
    lemma_pow2_pos(0);
    assert(pow2(24) * d > 0) by (nonlinear_arith)
        requires
            pow2(24) > 0,
            d > 0,
    ;
    assert(d * pow2(0) > 0) by (nonlinear_arith)
        requires
            pow2(0) > 0,
            d > 0,
    ;
    assert(binade(0, d, 0) == 0);
    lemma_fundamental_div_mod_converse(0, (d * pow2(0)) as int, 0, 0);
}

/// What rounding gives, from the split of a working value at the spacing of its
/// binade `s`: `k` whole spacings, and a rest `rem` out of two to the power of `sh`.
proof fn lemma_round_parts(n: nat, d: nat, m: nat, t: nat, s: nat, sh: nat, k: nat, rem: nat)
    requires
        d > 0,
        stands_for(n, d, m, t),
        s <= 253,
        sh >= 3,
        s + EXTRA == sh + t,
        m == k * pow2(sh) + rem,
        rem < pow2(sh),
        s == 0 || k >= 0x80_0000,
        k < 0x100_0000,
    ensures
        round_to_nearest(n, d) == s * 0x80_0000 + k + (if rem > pow2((sh - 1) as nat) || (rem
            == pow2((sh - 1) as nat) && k % 2 == 1) {
            1nat
        } else {
            0nat
        }),
{
    let w = pow2(EXTRA as nat);
    let a = pow2(t) * d;
    let hs = pow2((sh - 1) as nat);
    let q = d * pow2(s);
    lemma_pow2_pos(EXTRA as nat);
    lemma_pow2_pos(t);
    lemma_pow2_pos(s);
    lemma_pow2_unfold(sh);
    lemma_pow2_unfold((sh - 1) as nat);
    lemma_pow2_pos((sh - 2) as nat);
    assert(hs % 2 == 0);
    assert(a > 0) by (nonlinear_arith)
        requires
            a == pow2(t) * d,
            pow2(t) > 0,
            d > 0,
    ;
    assert(q > 0) by (nonlinear_arith)
        requires
            q == d * pow2(s),
            pow2(s) > 0,
            d > 0,
    ;
    assert(q * w == 2 * hs * a) by {
        lemma_pow2_adds(s, EXTRA as nat);
        lemma_pow2_adds(sh, t);
        assert(pow2(s) * pow2(EXTRA as nat) == pow2(sh) * pow2(t));
        assert(d * pow2(s) * pow2(EXTRA as nat) == pow2(sh) * (pow2(t) * d)) by (nonlinear_arith)
            requires
                pow2(s) * pow2(EXTRA as nat) == pow2(sh) * pow2(t),
        ;
    }
    assert(m == k * (2 * hs) + rem);
    lemma_quotient_from_parts(
        n as int,
        q as int,
        w as int,
        a as int,
        m as int,
        k as int,
        rem as int,
        hs as int,
    );
    lemma_fundamental_div_mod(n as int, q as int);
    let r = n % q;
    assert(n == q * k + r);
    lemma_pow2_adds(23, s);
    lemma_pow2_adds(24, s);
    lemma2_to64();
    if k >= 0x80_0000 {
        assert(q * k >= pow2(23 + s) * d) by (nonlinear_arith)
            requires
                k >= 0x80_0000,
                q == d * pow2(s),
                pow2(23 + s) == 0x80_0000 * pow2(s),
                d > 0,
                pow2(s) > 0,
        ;
    }
    assert(q * k + r < pow2(24 + s) * d) by (nonlinear_arith)
        requires
            k < 0x100_0000,
            r < q,
            q == d * pow2(s),
            pow2(24 + s) == 0x100_0000 * pow2(s),
    ;
    lemma_binade_is(n, d, s, 0);
}

/// A working value whose leading bit lies beyond the largest finite number rounds
/// to infinity.
proof fn lemma_round_overflow(n: nat, d: nat, m: nat, t: nat, len: nat)
    requires
        d > 0,
        stands_for(n, d, m, t),
        len >= 2,
        pow2((len - 1) as nat) <= m,
        len + t > EXTRA + 277,
    ensures
        round_to_nearest(n, d) == 0x7f80_0000,
{
    let w = pow2(EXTRA as nat);
    let a = pow2(t) * d;
    let lo = pow2((len - 1) as nat);
    lemma_pow2_pos(EXTRA as nat);
    lemma_pow2_pos(t);
    lemma_pow2_unfold((len - 1) as nat);
    assert(lo % 2 == 0);
    assert(a > 0) by (nonlinear_arith)
        requires
            a == pow2(t) * d,
            pow2(t) > 0,
            d > 0,
    ;
    // n * w >= lo * a
    if n * w == m * a {
        lemma_scale_le(lo as int, m as int, a as int);
    } else {
        lemma_scale_le(lo as int, m - 1, a as int);
    }
    assert(lo * a <= n * w);
    // lo * a >= pow2(277) * d * w
    lemma_pow2_adds((len - 1) as nat, t);
    lemma_pow2_le(277 + EXTRA as nat, (len - 1 + t) as nat);
    lemma_pow2_adds(277, EXTRA as nat);
    assert(lo * a >= (pow2(277) * d) * w) by (nonlinear_arith)
        requires
            a == pow2(t) * d,
            lo * pow2(t) >= pow2(277) * w,
            d > 0,
    ;
    lemma_cancel_le((pow2(277) * d) as int, n as int, w as int);
    // binade 253
    lemma_pow2_le(276, 277);
    lemma_scale_le(pow2(276) as int, pow2(277) as int, d as int);
    lemma_binade_is(n, d, 253, 0);
    let q = d * pow2(253);
    lemma_pow2_pos(253);
    assert(q > 0) by (nonlinear_arith)
        requires
            q == d * pow2(253),
            pow2(253) > 0,
            d > 0,
    ;
    lemma_pow2_adds(24, 253);
    lemma2_to64();
    lemma_fundamental_div_mod(n as int, q as int);
    let below = n / q;
    let rest = n % q;
    if below < 0x100_0000 {
        assert(q * below + rest < pow2(277) * d) by (nonlinear_arith)
            requires
                below < 0x100_0000,
                rest < q,
                q == d * pow2(253),
                pow2(277) == 0x100_0000 * pow2(253),
        ;
    }
}

/// An exact working value stays exact when 32 places move from its exponent into
/// its digits.
proof fn lemma_exact_shift(n: nat, d: nat, m: nat, t: nat)
    requires
        t >= 32,
        stands_exactly_for(n, d, m, t),
    ensures
        stands_exactly_for(n, d, m * pow2(32), (t - 32) as nat),
{
    lemma_pow2_adds(32, (t - 32) as nat);
    assert((m * pow2(32)) * (pow2((t - 32) as nat) * d) == m * (pow2(t) * d)) by (nonlinear_arith)
        requires
            pow2(t) == pow2(32) * pow2((t - 32) as nat),
    ;
}

/// Rounds a working value to the nearest magnitude pattern, ties to even. The
/// working value is `m` scaled by two to the power of `t`; it stands for the ratio
/// `n / d` of units, scaled by two to the power of `EXTRA`.
pub fn round_pack(m: u64, t: u64, Ghost(n): Ghost<nat>, Ghost(d): Ghost<nat>) -> (r: u32)
    requires
        d > 0,
        m < 0x8000_0000_0000_0000,
        64 <= t <= 1024,
        stands_for(n, d, m as nat, t as nat),
        m < 0x400_0000 ==> stands_exactly_for(n, d, m as nat, t as nat),
    ensures
        r == round_to_nearest(n, d),
        r <= 0x7f80_0000,
{
    if m == 0 {
        proof {
            lemma_pow2_pos(EXTRA as nat);
            assert(n == 0) by (nonlinear_arith)
                requires
                    n * pow2(EXTRA as nat) == 0,
                    pow2(EXTRA as nat) > 0,
            ;
            lemma_round_zero(d);
        }
        return 0;
    }
    let mut m = m;
    let mut t = t;
    if m < 0x400_0000 {
        proof {
            lemma2_to64();
            lemma_exact_shift(n, d, m as nat, t as nat);
        }
        m = shl(m, 32);
        t = t - 32;
    }
    assert(m >= 0x400_0000) by {
        lemma2_to64();
    }
    let len = bit_length(m);
    proof {
        lemma2_to64();
        lemma2_to64_rest();
        if len < 27 {
            lemma_pow2_le(len as nat, 26);
        }
        if len > 63 {
            lemma_pow2_le(63, (len - 1) as nat);
        }
    }
    let top = len + t;
    if top > 533 {
        proof {
            lemma_round_overflow(n, d, m as nat, t as nat, len as nat);
        }
        return INFINITY;
    }
    let s: u64 = if top > 280 {
        top - 280
    } else {
        0
    };
    let sh: u64 = if top > 280 {
        len - 24
    } else {
        256 - t
    };
    let k: u64;
    let above: bool;
    let tie: bool;
    if sh >= 64 {
        k = 0;
        above = false;
        tie = false;
        proof {
            lemma_pow2_le(63, (sh - 1) as nat);
            lemma_pow2_unfold(sh as nat);
            lemma_round_parts(n, d, m as nat, t as nat, s as nat, sh as nat, 0, m as nat);
        }
    } else {
        k = shr(m, sh);
        let rem = low_bits(m, sh);
        proof {
            lemma_pow2_le((sh - 1) as nat, 62);
        }
        let half = shl(1, sh - 1);
        above = rem > half;
        tie = rem == half;
        proof {
            let p = pow2(sh as nat);
            lemma_pow2_pos(sh as nat);
            lemma_fundamental_div_mod(m as int, p as int);
            assert(p * (k as int) == k * p) by (nonlinear_arith);
            // the range of k
            if top > 280 {
                lemma_pow2_adds(23, sh as nat);
                lemma_pow2_adds(24, sh as nat);
                if k < 0x80_0000 {
                    assert(k * p + rem < 0x80_0000 * p) by (nonlinear_arith)
                        requires
                            k < 0x80_0000,
                            rem < p,
                    ;
                }
                if k >= 0x100_0000 {
                    assert(k * p + rem >= 0x100_0000 * p) by (nonlinear_arith)
                        requires
                            k >= 0x100_0000,
                            rem >= 0,
                            p > 0,
                    ;
                }
            } else {
                lemma_pow2_le(len as nat, (24 + sh) as nat);
                lemma_pow2_adds(24, sh as nat);
                if k >= 0x100_0000 {
                    assert(k * p + rem >= 0x100_0000 * p) by (nonlinear_arith)
                        requires
                            k >= 0x100_0000,
                            rem >= 0,
                            p > 0,
                    ;
                }
            }
            lemma_round_parts(n, d, m as nat, t as nat, s as nat, sh as nat, k as nat, rem as nat);
        }
    }
    let up: u64 = if above || (tie && k % 2 == 1) {
        1
    } else {
        0
    };
    let pattern = s * 0x80_0000 + k + up;
    pattern as u32
}

} // verus!
