//! Bit-exact arithmetic on samples, held against native binary32 arithmetic.

use pocket_voice::binary32;

fn specials() -> Vec<u32> {
    let mut values = vec![
        0, 1, 2, 3, 0x007f_ffff, 0x0080_0000, 0x0080_0001, 0x00ff_ffff, 0x0100_0000, 0x3380_0000,
        0x337f_ffff, 0x3400_0000, 0x3f00_0000, 0x3f7f_ffff, 0x3f80_0000, 0x3f80_0001, 0x3fc0_0000,
        0x4000_0000, 0x4b7f_ffff, 0x4b80_0000, 0x4b80_0001, 0x5f80_0000, 0x7f7f_ffff, 0x7f80_0000,
        0x7fc0_0000, 0x7f80_0001,
    ];
    let negatives: Vec<u32> = values.iter().map(|x| x | 0x8000_0000).collect();
    values.extend(negatives);
    values
}

fn next(seed: &mut u64) -> u32 {
    *seed = seed.wrapping_mul(6364136223846793005).wrapping_add(1442695040888963407);
    (*seed >> 32) as u32
}

/// Pairs of every kind: specials, random patterns, and patterns of similar exponents.
fn pairs() -> Vec<(u32, u32)> {
    let mut pairs = Vec::new();
    for a in specials() {
        for b in specials() {
            pairs.push((a, b));
        }
    }
    let mut seed = 7;
    for _ in 0..20_000 {
        pairs.push((next(&mut seed), next(&mut seed)));
        let a = next(&mut seed);
        let b = (a & 0x7f00_0000) ^ (next(&mut seed) & 0x80ff_ffff);
        pairs.push((a, b));
        let c = 0x3f00_0000 | (next(&mut seed) & 0x80ff_ffff);
        let d = 0x3e00_0000 | (next(&mut seed) & 0x81ff_ffff);
        pairs.push((c, d));
        pairs.push((next(&mut seed) & 0x81ff_ffff, next(&mut seed) & 0x81ff_ffff));
    }
    pairs
}

/// Equal bit for bit, any NaN for a NaN.
fn same(result: u32, native: f32) -> bool {
    if native.is_nan() {
        result == binary32::NOT_A_NUMBER
    } else {
        result == native.to_bits()
    }
}

#[test]
fn sums_are_native_sums() {
    for (a, b) in pairs() {
        assert!(same(binary32::sum(a, b), f32::from_bits(a) + f32::from_bits(b)), "{a:x} {b:x}");
    }
    assert_eq!(binary32::sum(0x3f80_0000, 0x3f80_0000), 0x4000_0000);
}

#[test]
fn differences_are_native_differences() {
    for (a, b) in pairs() {
        let native = f32::from_bits(a) - f32::from_bits(b);
        assert!(same(binary32::difference(a, b), native), "{a:x} {b:x}");
    }
    assert_eq!(binary32::difference(0x3f80_0000, 0x3f80_0000), 0);
}

#[test]
fn products_are_native_products() {
    for (a, b) in pairs() {
        let native = f32::from_bits(a) * f32::from_bits(b);
        assert!(same(binary32::product(a, b), native), "{a:x} {b:x}");
    }
    assert_eq!(binary32::product(0x3fc0_0000, 0x4000_0000), 0x4040_0000);
}

#[test]
fn quotients_are_native_quotients() {
    for (a, b) in pairs() {
        let native = f32::from_bits(a) / f32::from_bits(b);
        assert!(same(binary32::quotient(a, b), native), "{a:x} {b:x}");
    }
    assert_eq!(binary32::quotient(0x3f80_0000, 0x4040_0000), 0x3eaa_aaab);
}

#[test]
fn roots_are_native_roots() {
    for (a, _) in pairs() {
        assert!(same(binary32::root(a), f32::from_bits(a).sqrt()), "{a:x}");
    }
    assert_eq!(binary32::root(0x4000_0000), 0x3fb5_04f3);
}

#[test]
fn integers_convert_as_native_ones_do() {
    let mut seed = 99;
    let mut values: Vec<u32> = vec![0, 1, 0xff_ffff, 0x100_0000, 0x100_0001, 0x100_0003];
    values.extend([0x7fff_ffff, 0x8000_0000, 0xffff_ff7f, 0xffff_ff80, 0xffff_ffff]);
    for _ in 0..20_000 {
        let v = next(&mut seed);
        values.push(v);
        values.push(v >> (v % 32));
    }
    for v in values {
        assert_eq!(binary32::from_unsigned(v), (v as f32).to_bits());
        assert_eq!(binary32::from_signed(v as i32), (v as i32 as f32).to_bits());
    }
}

#[test]
fn rounding_to_integers_is_native_rounding() {
    let mut seed = 5;
    let mut values = vec![0x3eff_ffff, 0x3f00_0000, 0x3fc0_0000, 0x4020_0000, 0x4b7f_ffff];
    for _ in 0..20_000 {
        values.push(0x3e00_0000 + next(&mut seed) % 0x0d80_0000);
    }
    for x in values {
        for bits in [x, x | 0x8000_0000] {
            assert_eq!(binary32::to_integer(bits), f32::from_bits(bits).round() as i32, "{bits:x}");
        }
    }
}

#[test]
fn comparisons_and_limits_are_native_ones() {
    for (a, b) in pairs() {
        let (x, y) = (f32::from_bits(a), f32::from_bits(b));
        assert_eq!(binary32::is_less(a, b), x < y);
        assert_eq!(binary32::is_at_least(a, b), x >= y);
        assert_eq!(binary32::is_finite(a), x.is_finite());
        assert_eq!(binary32::absolute(a), x.abs().to_bits());
        if !x.is_nan() {
            assert_eq!(binary32::limit(a), x.clamp(-1.0, 1.0).to_bits());
        } else {
            assert_eq!(binary32::limit(a), a);
        }
    }
}
