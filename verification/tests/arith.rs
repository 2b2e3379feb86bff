use firmware::arith::{normalize, shr_sticky, split};
use firmware::round::{bit_length, low_bits, shl, shr};
use firmware::single::Single;

fn s(x: f32) -> Single {
    Single::from_bits(x.to_bits())
}

fn same(soft: Single, hard: f32) -> bool {
    if hard.is_nan() {
        soft.is_nan()
    } else {
        soft.to_bits() == hard.to_bits()
    }
}

/// A fixed sequence of patterns that visits every binade and both signs.
fn patterns(count: usize, seed: u64) -> Vec<u32> {
    let mut state = seed;
    let mut out = vec![
        0x0000_0000, 0x8000_0000, 0x0000_0001, 0x8000_0001, 0x007f_ffff, 0x0080_0000,
        0x0080_0001, 0x00ff_ffff, 0x3f80_0000, 0xbf80_0000, 0x3f00_0000, 0x3fdd_b3d7,
        0x3f5d_b3d7, 0x477f_ff00, 0x7f7f_ffff, 0xff7f_ffff, 0x7f80_0000, 0xff80_0000,
        0x7fc0_0000, 0xffc0_0001, 0x7f80_0001, 0x3400_0000, 0x3380_0000, 0x4b00_0000,
        0x4b80_0000, 0x3f7f_ffff, 0x3f80_0001, 0x0040_0000, 0x0000_0002, 0x0000_0003,
    ];
    while out.len() < count {
        state = state.wrapping_mul(6364136223846793005).wrapping_add(1442695040888963407);
        out.push((state >> 32) as u32);
    }
    out
}

#[test]
fn mul_matches_hardware_on_pairs() {
    let xs = patterns(1200, 1);
    for &a in xs.iter() {
        for &b in xs.iter() {
            let soft = Single::from_bits(a).mul(Single::from_bits(b));
            let hard = f32::from_bits(a) * f32::from_bits(b);
            assert!(same(soft, hard), "{:08x} * {:08x}: {:08x} vs {:08x}", a, b, soft.to_bits(), hard.to_bits());
        }
    }
}

#[test]
fn mul_exact_values() {
    assert_eq!(s(1.5).mul(s(2.0)).to_bits(), 3.0f32.to_bits());
    assert_eq!(s(-0.5).mul(s(0.0)).to_bits(), (-0.0f32).to_bits());
    assert_eq!(s(0.5).mul(s(65535.0)).to_bits(), 32767.5f32.to_bits());
    assert!(s(f32::INFINITY).mul(s(0.0)).is_nan());
    assert_eq!(s(f32::MAX).mul(s(2.0)).to_bits(), f32::INFINITY.to_bits());
}

#[test]
fn add_matches_hardware_on_pairs() {
    let xs = patterns(1200, 2);
    for &a in xs.iter() {
        for &b in xs.iter() {
            let soft = Single::from_bits(a).add(Single::from_bits(b));
            let hard = f32::from_bits(a) + f32::from_bits(b);
            assert!(same(soft, hard), "{:08x} + {:08x}: {:08x} vs {:08x}", a, b, soft.to_bits(), hard.to_bits());
        }
    }
}

#[test]
fn add_matches_hardware_on_close_exponents() {
    // Operands up to 70 binades apart, where alignment and the sticky bit decide.
    let xs = patterns(3000, 3);
    for (i, &a) in xs.iter().enumerate() {
        let fa = f32::from_bits(a);
        if !fa.is_finite() {
            continue;
        }
        let ea = (a >> 23) & 0xff;
        for gap in 0..70u32 {
            if ea < gap {
                continue;
            }
            let frac = xs[(i + gap as usize + 1) % xs.len()] & 0x807f_ffff;
            let b = frac | ((ea - gap) << 23);
            let soft = Single::from_bits(a).add(Single::from_bits(b));
            let hard = fa + f32::from_bits(b);
            assert!(same(soft, hard), "{:08x} + {:08x}: {:08x} vs {:08x}", a, b, soft.to_bits(), hard.to_bits());
            let soft = Single::from_bits(b).sub(Single::from_bits(a));
            let hard = f32::from_bits(b) - fa;
            assert!(same(soft, hard), "{:08x} - {:08x}: {:08x} vs {:08x}", b, a, soft.to_bits(), hard.to_bits());
        }
    }
}

#[test]
fn sub_matches_hardware_on_pairs() {
    let xs = patterns(1200, 4);
    for &a in xs.iter() {
        for &b in xs.iter() {
            let soft = Single::from_bits(a).sub(Single::from_bits(b));
            let hard = f32::from_bits(a) - f32::from_bits(b);
            assert!(same(soft, hard), "{:08x} - {:08x}: {:08x} vs {:08x}", a, b, soft.to_bits(), hard.to_bits());
        }
    }
}

#[test]
fn div_matches_hardware_on_pairs() {
    let xs = patterns(1200, 5);
    for &a in xs.iter() {
        for &b in xs.iter() {
            let soft = Single::from_bits(a).div(Single::from_bits(b));
            let hard = f32::from_bits(a) / f32::from_bits(b);
            assert!(same(soft, hard), "{:08x} / {:08x}: {:08x} vs {:08x}", a, b, soft.to_bits(), hard.to_bits());
        }
    }
}

#[test]
fn mul_matches_hardware_near_underflow() {
    // Products that land among the subnormals, where rounding works at one unit.
    let xs = patterns(2000, 6);
    for (i, &a) in xs.iter().enumerate() {
        let ea = (a >> 23) & 0xff;
        if ea == 255 {
            continue;
        }
        for shift in 0..40u32 {
            // choose b so that the exponents add up to about shift binades above the least
            let want = 127 + 127 - 149 + shift;
            if want < ea + 1 || want - ea > 254 {
                continue;
            }
            let b = (xs[(i + 7) % xs.len()] & 0x807f_ffff) | ((want - ea) << 23);
            let soft = Single::from_bits(a).mul(Single::from_bits(b));
            let hard = f32::from_bits(a) * f32::from_bits(b);
            assert!(same(soft, hard), "{:08x} * {:08x}: {:08x} vs {:08x}", a, b, soft.to_bits(), hard.to_bits());
            let c = b ^ 0x3f00_0000;
            let soft = Single::from_bits(a).div(Single::from_bits(c));
            let hard = f32::from_bits(a) / f32::from_bits(c);
            assert!(same(soft, hard), "{:08x} / {:08x}: {:08x} vs {:08x}", a, c, soft.to_bits(), hard.to_bits());
        }
    }
}

#[test]
fn to_u16_matches_hardware() {
    let xs = patterns(200000, 7);
    for &a in xs.iter() {
        assert_eq!(Single::from_bits(a).to_u16(), f32::from_bits(a) as u16, "{:08x}", a);
    }
    for i in 0..=70000u32 {
        let x = i as f32 + 0.75;
        assert_eq!(s(x).to_u16(), x as u16);
        assert_eq!(s(i as f32).to_u16(), i as f32 as u16);
    }
    assert_eq!(s(f32::NAN).to_u16(), 0);
    assert_eq!(s(f32::INFINITY).to_u16(), 65535);
    assert_eq!(s(f32::NEG_INFINITY).to_u16(), 0);
    assert_eq!(s(-3.5).to_u16(), 0);
    assert_eq!(s(65534.99).to_u16(), 65534);
}

#[test]
fn sign_and_magnitude_match_hardware() {
    let xs = patterns(200000, 8);
    for &a in xs.iter() {
        let x = f32::from_bits(a);
        let v = Single::from_bits(a);
        assert_eq!(v.ge_zero(), x >= 0.0, "{:08x}", a);
        assert_eq!(v.abs().to_bits(), x.abs().to_bits());
        assert_eq!(v.neg().to_bits(), (-x).to_bits());
        assert_eq!(v.is_nan(), x.is_nan());
        assert_eq!(v.is_infinite(), x.is_infinite());
        assert_eq!(v.is_finite(), x.is_finite());
        assert_eq!(v.is_sign_negative(), x.is_sign_negative());
    }
    assert!(s(0.0).ge_zero());
    assert!(s(-0.0).ge_zero());
    assert!(!s(f32::NAN).ge_zero());
    assert!(!s(-1.0e-45).ge_zero());
}

#[test]
fn signed_zero_rules() {
    assert_eq!(s(0.0).add(s(-0.0)).to_bits(), 0);
    assert_eq!(s(-0.0).add(s(-0.0)).to_bits(), 0x8000_0000);
    assert_eq!(s(1.5).add(s(-1.5)).to_bits(), 0);
    assert_eq!(s(-0.0).sub(s(0.0)).to_bits(), 0x8000_0000);
    assert_eq!(s(0.0).sub(s(0.0)).to_bits(), 0);
    assert_eq!(s(0.0).div(s(-3.0)).to_bits(), 0x8000_0000);
    assert_eq!(s(1.0).div(s(-0.0)).to_bits(), f32::NEG_INFINITY.to_bits());
    assert!(s(0.0).div(s(0.0)).is_nan());
    assert!(s(f32::INFINITY).sub(s(f32::INFINITY)).is_nan());
    assert!(s(f32::INFINITY).div(s(f32::NEG_INFINITY)).is_nan());
}

#[test]
fn bit_helpers() {
    assert_eq!(bit_length(0), 0);
    assert_eq!(bit_length(1), 1);
    assert_eq!(bit_length(2), 2);
    assert_eq!(bit_length(0xff), 8);
    assert_eq!(bit_length(0x100), 9);
    assert_eq!(bit_length(u64::MAX), 64);
    for k in 0..64u64 {
        assert_eq!(bit_length(1u64 << k), k + 1);
        assert_eq!(shl(1, k), 1u64 << k);
        assert_eq!(shr(u64::MAX, k), u64::MAX >> k);
        assert_eq!(low_bits(u64::MAX, k), (1u64 << k) - 1);
    }
    assert_eq!(shr(0b1011_0100, 4), 0b1011);
    assert_eq!(low_bits(0b1011_0100, 4), 0b0100);
}

#[test]
fn sticky_shift_keeps_the_side() {
    // exact
    assert_eq!(shr_sticky(0b1100, 2), 0b11);
    assert_eq!(shr_sticky(0b1000, 3), 0b1);
    // a bit is lost: the result is made odd
    assert_eq!(shr_sticky(0b1001, 2), 0b11);
    assert_eq!(shr_sticky(0b1101, 2), 0b11);
    assert_eq!(shr_sticky(0b0001, 2), 0b1);
    assert_eq!(shr_sticky(5, 64), 1);
    assert_eq!(shr_sticky(5, 200), 1);
    assert_eq!(shr_sticky(0, 200), 0);
    assert_eq!(shr_sticky(7, 0), 7);
}

#[test]
fn split_and_normalize() {
    assert_eq!(split(0), (0, 0));
    assert_eq!(split(1), (1, 0));
    assert_eq!(split(0x007f_ffff), (0x7f_ffff, 0));
    assert_eq!(split(0x0080_0000), (0x80_0000, 0));
    assert_eq!(split(0x0100_0000), (0x80_0000, 1));
    assert_eq!(split(0x3f80_0000), (0x80_0000, 126));
    assert_eq!(split(0x7f7f_ffff), (0xff_ffff, 253));
    assert_eq!(normalize(1), (0x80_0000, 23));
    assert_eq!(normalize(3), (0xc0_0000, 22));
    assert_eq!(normalize(0x80_0000), (0x80_0000, 0));
    assert_eq!(normalize(0xff_ffff), (0xff_ffff, 0));
}

/// Fraction fields with at most two bits set: their products and sums meet the
/// exact middle between two patterns far more often than chance values do.
fn sparse_fractions() -> Vec<u32> {
    let mut out = vec![0u32, 0x7f_ffff, 0x7f_fffe, 0x40_0001];
    for i in 0..23 {
        out.push(1 << i);
        for j in 0..i {
            out.push((1 << i) | (1 << j));
        }
    }
    out
}

#[test]
fn ties_match_hardware() {
    let fractions = sparse_fractions();
    // pairs of exponents: ordinary, product among the subnormals, product at the top
    let exponents = [(127u32, 127u32), (127, 126), (100, 3), (64, 40), (1, 126), (0, 127), (0, 150), (200, 181), (254, 127), (127, 2)];
    for &(ea, eb) in exponents.iter() {
        for &fa in fractions.iter() {
            for &fb in fractions.iter() {
                let a = (ea << 23) | fa;
                let b = (eb << 23) | fb | 0x8000_0000;
                let (x, y) = (f32::from_bits(a), f32::from_bits(b));
                let (sx, sy) = (Single::from_bits(a), Single::from_bits(b));
                assert!(same(sx.mul(sy), x * y), "{:08x} * {:08x}", a, b);
                assert!(same(sx.div(sy), x / y), "{:08x} / {:08x}", a, b);
                assert!(same(sx.add(sy), x + y), "{:08x} + {:08x}", a, b);
                assert!(same(sx.sub(sy), x - y), "{:08x} - {:08x}", a, b);
            }
        }
    }
}

#[test]
fn sums_across_every_gap_match_hardware() {
    // One operand fixed, the other at every distance below it, with fractions that
    // put the lost bits exactly at, just under and just over one half.
    let fractions = [0u32, 1, 2, 3, 0x40_0000, 0x40_0001, 0x3f_ffff, 0x7f_ffff, 0x7f_fffe, 0x20_0000, 0x60_0000];
    for ea in [1u32, 2, 24, 25, 26, 64, 65, 127, 150, 253, 254].iter() {
        for gap in 0..=*ea {
            let eb = ea - gap;
            for &fa in fractions.iter() {
                for &fb in fractions.iter() {
                    for sign in [0u32, 0x8000_0000].iter() {
                        let a = (ea << 23) | fa;
                        let b = (eb << 23) | fb | sign;
                        let (x, y) = (f32::from_bits(a), f32::from_bits(b));
                        let (sx, sy) = (Single::from_bits(a), Single::from_bits(b));
                        assert!(same(sx.add(sy), x + y), "{:08x} + {:08x}", a, b);
                        assert!(same(sy.add(sx), y + x), "{:08x} + {:08x}", b, a);
                        assert!(same(sy.sub(sx), y - x), "{:08x} - {:08x}", b, a);
                    }
                }
            }
        }
    }
}
