//! Where converted samples lie: on the line between their neighbours in the source.

use vstd::prelude::*;
use vstd::arithmetic::power2::*;

use crate::accuracy;
use crate::binary32;
use crate::fidelity;
use crate::resample;
use crate::rounding;
use crate::wav;

verus! {

/// The magnitude of a number.
pub open spec fn size_of(v: int) -> int {
    if v < 0 {
        -v
    } else {
        v
    }
}

/// The sample nearest to an exact value lies on the same side of any other sample.
proof fn lemma_nearest_keeps_side(exact: int, zero_sign: bool, x: u32)
    requires
        binary32::finite(x),
        size_of(exact) <= 4 * binary32::one_units(),
    ensures
        ({
            let y = binary32::nearest_units(exact, zero_sign);
            &&& binary32::finite(y)
            &&& exact >= binary32::signed_units(x) ==> binary32::signed_units(y)
                >= binary32::signed_units(x)
            &&& exact <= binary32::signed_units(x) ==> binary32::signed_units(y)
                <= binary32::signed_units(x)
            &&& exact > 0 ==> binary32::signed_units(y) >= 0 && !binary32::negative(y)
            &&& exact < 0 ==> binary32::signed_units(y) <= 0
            &&& 0x100_0000 * size_of(exact - binary32::signed_units(y)) <= size_of(
                binary32::signed_units(y),
            )
        }),
{
    let one = binary32::one_units();
    let n = size_of(exact) as nat;
    let u = binary32::absolute_units(x);
    let y = binary32::nearest_units(exact, zero_sign);
    fidelity::lemma_one();
    lemma2_to64();
    lemma_pow2_adds(23, 128);
    lemma_pow2_adds(2, 149);
    assert(rounding::units(0x4080_0000) == 4 * one);
    rounding::lemma_nearest_on_grid(0x4080_0000, 1);
    rounding::lemma_nearest_is_monotone(n, rounding::units(0x4080_0000) * 1, 1);
    rounding::lemma_nearest_whole_is_close(n);
    rounding::lemma_nearest_on_grid(binary32::magnitude(x) as nat, 1);
    rounding::lemma_nearest_on_grid(0, 1);
    let m = rounding::nearest(n, 1);
    if n >= u {
        rounding::lemma_nearest_is_monotone(u * 1, n, 1);
        rounding::lemma_units_are_monotone(binary32::magnitude(x) as nat, m);
    }
    if n <= u {
        rounding::lemma_nearest_is_monotone(n, u * 1, 1);
        rounding::lemma_units_are_monotone(m, binary32::magnitude(x) as nat);
    }
    assert(binary32::absolute_units(y) == rounding::units(m));
}

/// Where a position lies behind its left neighbour: `r` 32000ths, up to a 2^23-th.
proof fn lemma_fraction(index: nat, source_rate: u32) -> (phi: nat)
    requires
        index * source_rate < 0x20_0000_0000,
    ensures
        ({
            let position = resample::source_position(index, source_rate);
            let f = resample::fraction_of(position);
            let one = binary32::one_units();
            let r = (index * source_rate) % 32_000;
            &&& !binary32::negative(f)
            &&& binary32::finite(f)
            &&& phi == binary32::absolute_units(f)
            &&& phi <= one
            &&& 33_000 * phi <= 32_999 * one
            &&& r == 0 ==> phi == 0
            &&& 0x80_0000 * (32_000 * phi) <= 0x80_0000 * (r * one) + 32_000 * one
            &&& 0x80_0000 * (r * one) <= 0x80_0000 * (32_000 * phi) + 32_000 * one
        }),
{
    let n = index * source_rate as nat;
    let one = binary32::one_units();
    let wide = rounding::double_one();
    let narrow = pow2(925);
    let position = resample::source_position(index, source_rate);
    let l = n / 32_000;
    let r = n % 32_000;
    resample::law_neighbours_surround_the_exact_position(index, source_rate);
    let k = resample::lemma_position_error(index, source_rate);
    let place = pow2(k);
    lemma2_to64();
    fidelity::lemma_one();
    lemma_pow2_pos(925);
    lemma_pow2_pos(1074);
    lemma_pow2_pos(k);
    lemma_pow2_adds(149, 925);
    assert(wide == one * narrow);
    let ratio = pow2((1074 - k) as nat);
    lemma_pow2_adds((1074 - k) as nat, k);
    if 1074 - k > 30 {
        lemma_pow2_strictly_increases(30, (1074 - k) as nat);
    }
    let part = position % wide;
    vstd::arithmetic::div_mod::lemma_fundamental_div_mod(position as int, wide as int);
    assert(position == l * wide + part) by (nonlinear_arith)
        requires
            position == wide * (position as int / wide as int) + part,
            l == position as int / wide as int,
    ;
    // How far the part is off, in 32000ths.
    let off = 32_000 * part - r * wide;
    assert(0x8000_0000 * off <= 32_000 * wide && -(32_000 * wide) <= 0x8000_0000 * off)
        by (nonlinear_arith)
        requires
            off == 32_000 * part - r * wide,
            position == l * wide + part,
            n == l * 32_000 + r,
            wide == ratio * place,
            ratio >= 0x4000_0000,
            2 * (position * 32_000) <= 2 * (n * wide) + 32_000 * place,
            2 * (n * wide) <= 2 * (position * 32_000) + 32_000 * place,
    {
        assert(n * wide == (l * wide) * 32_000 + r * wide);
        assert(position * 32_000 == (l * wide) * 32_000 + part * 32_000);
        assert(2 * off <= 32_000 * place && -(32_000 * place) <= 2 * off);
        assert(0x4000_0000 * place <= wide);
    }
    assert(r == 0 ==> part == 0) by (nonlinear_arith)
        requires
            r == 0 ==> position * 32_000 == n * wide,
            n == l * 32_000 + r,
            position == l * wide + part,
    {
        if r == 0 {
            assert(n * wide == (l * wide) * 32_000);
        }
    }
    let f = resample::fraction_of(position);
    let m = rounding::nearest(part, narrow);
    assert(part <= one * narrow);
    rounding::lemma_nearest_is_monotone(part, one * narrow, narrow);
    rounding::lemma_nearest_on_grid(binary32::ONE as nat, narrow);
    rounding::lemma_nearest_is_close(part, narrow);
    rounding::lemma_units_are_monotone(m, binary32::ONE as nat);
    let phi = rounding::units(m);
    assert(binary32::magnitude(f) == m);
    if r == 0 {
        rounding::lemma_nearest_on_grid(0, narrow);
        assert(0 * narrow == 0) by (nonlinear_arith);
    }
    lemma2_to64_rest();
    lemma_pow2_strictly_increases(64, 149);
    lemma_fraction_numbers(part as int, off, r as int, phi as int, one as int, narrow as int);
    phi
}

/// The error of a fraction, in numbers.
proof fn lemma_fraction_numbers(part: int, off: int, r: int, phi: int, one: int, narrow: int)
    by (nonlinear_arith)
    requires
        narrow > 0,
        0 <= phi <= one,
        0 <= r < 32_000,
        one >= 0x1_0000_0000_0000_0000,
        off == 32_000 * part - r * (one * narrow),
        0x8000_0000 * off <= 32_000 * (one * narrow),
        -(32_000 * (one * narrow)) <= 0x8000_0000 * off,
        0x100_0000 * (phi * narrow) <= 0x100_0000 * part + phi * narrow + 0x80_0000 * narrow,
        0x100_0000 * part <= 0x100_0000 * (phi * narrow) + phi * narrow + 0x80_0000 * narrow,
    ensures
        0x80_0000 * (32_000 * phi) <= 0x80_0000 * (r * one) + 32_000 * one,
        0x80_0000 * (r * one) <= 0x80_0000 * (32_000 * phi) + 32_000 * one,
        33_000 * phi <= 32_999 * one,
{
    let gap = 32_000 * phi - r * one;
    assert(gap * narrow == 32_000 * (phi * narrow) - r * (one * narrow));
    assert(0x100_0000 * (gap * narrow) <= 0x100_0000 * off + 32_000 * (phi * narrow) + 32_000
        * (0x80_0000 * narrow));
    assert(-(0x100_0000 * (gap * narrow)) <= -(0x100_0000 * off) + 32_000 * (phi * narrow) + 32_000
        * (0x80_0000 * narrow));
    assert(phi * narrow <= one * narrow);
    assert(0x1_0000_0000_0000_0000 * narrow <= one * narrow);
    assert(0x80_0000 * (gap * narrow) <= 32_000 * (one * narrow));
    assert(-(0x80_0000 * (gap * narrow)) <= 32_000 * (one * narrow));
    assert((0x80_0000 * gap) * narrow <= (32_000 * one) * narrow);
    assert((-(0x80_0000 * gap)) * narrow <= (32_000 * one) * narrow);
    assert(0x80_0000 * gap <= 32_000 * one);
    assert(-(0x80_0000 * gap) <= 32_000 * one);
    assert(r * one <= 31_999 * one);
}

/// A scaled difference: its size, and how far it is off.
proof fn lemma_scaled_difference(a: u32, b: u32, f: u32, phi: nat) -> (r: (int, int))
    requires
        binary32::magnitude(a) <= binary32::ONE,
        binary32::magnitude(b) <= binary32::ONE,
        !binary32::negative(f),
        binary32::finite(f),
        phi == binary32::absolute_units(f),
        phi <= binary32::one_units(),
    ensures
        ({
            let (wide, scaled) = r;
            let one = binary32::one_units() as int;
            let gap = binary32::signed_units(b) - binary32::signed_units(a);
            let p = binary32::product_of(binary32::difference_of(b, a), f);
            &&& size_of(gap) <= 2 * one
            &&& binary32::finite(p)
            &&& scaled == binary32::signed_units(p)
            &&& size_of(scaled) <= size_of(wide)
            &&& gap >= 0 ==> wide >= 0 && scaled >= 0
            &&& gap <= 0 ==> wide <= 0 && scaled <= 0
            &&& 0x100_0000 * size_of(gap - wide) <= size_of(wide)
            &&& phi == 0 ==> scaled == 0
            &&& 0x100_0000 * (size_of(scaled) * one) <= 0x100_0000 * (size_of(wide) * phi)
                + size_of(scaled) * one + 0x80_0000 * one
            &&& 0x100_0000 * (size_of(wide) * phi) <= 0x100_0000 * (size_of(scaled) * one)
                + size_of(scaled) * one + 0x80_0000 * one
        }),
{
    let one = binary32::one_units();
    let sa = binary32::signed_units(a);
    let sb = binary32::signed_units(b);
    fidelity::lemma_one();
    rounding::lemma_units_are_monotone(binary32::magnitude(a) as nat, binary32::ONE as nat);
    rounding::lemma_units_are_monotone(binary32::magnitude(b) as nat, binary32::ONE as nat);
    let opposite = binary32::negated(a);
    assert(binary32::signed_units(opposite) == -sa);
    let gap = sb - sa;
    let zero_sign = binary32::negative(b) && binary32::negative(opposite);
    let difference = binary32::difference_of(b, a);
    assert(difference == binary32::nearest_units(gap, zero_sign));
    lemma_nearest_keeps_side(gap, zero_sign, 0);
    assert(binary32::signed_units(0) == 0);
    let wide = binary32::signed_units(difference);
    let w = binary32::absolute_units(difference);
    assert(size_of(wide) == w);
    let p = binary32::product_of(difference, f);
    let n = w * phi;
    assert(n <= w * one) by (nonlinear_arith)
        requires
            n == w * phi,
            phi <= one,
    ;
    rounding::lemma_nearest_is_monotone(n, w * one, one);
    rounding::lemma_nearest_on_grid(binary32::magnitude(difference) as nat, one);
    assert(binary32::magnitude(p) == rounding::nearest(n, one));
    rounding::lemma_nearest_is_close(n, one);
    rounding::lemma_units_are_monotone(
        binary32::magnitude(p) as nat,
        binary32::magnitude(difference) as nat,
    );
    let scaled = binary32::signed_units(p);
    assert(size_of(scaled) == binary32::absolute_units(p));
    if phi == 0 {
        assert(n == 0) by (nonlinear_arith)
            requires
                n == w * phi,
                phi == 0,
        ;
        assert(0 * one == 0) by (nonlinear_arith);
        rounding::lemma_nearest_on_grid(0, one);
    }
    (wide, scaled)
}

/// A scaled difference stays within the difference, in numbers.
proof fn lemma_within_difference(gap: int, wide: int, scaled: int, phi: int, one: int)
    by (nonlinear_arith)
    requires
        0 <= gap,
        0 <= wide,
        0 <= scaled <= wide,
        0 <= phi,
        33_000 * phi <= 32_999 * one,
        one >= 0x1_0000_0000_0000_0000,
        0x100_0000 * (wide - gap) <= wide,
        0x100_0000 * (scaled * one) <= 0x100_0000 * (wide * phi) + scaled * one + 0x80_0000 * one,
    ensures
        scaled <= gap,
{
    if wide > gap {
        assert(wide >= 0x100_0000);
        assert(wide * (33_000 * phi) <= wide * (32_999 * one));
        assert(33_000 * (wide * phi) <= (32_999 * wide) * one);
        assert((33_000 * (0x100_0000 * scaled)) * one <= (0x100_0000 * (32_999 * wide) + 33_000
            * scaled + 33_000 * 0x80_0000) * one);
        assert(33_000 * (0x100_0000 * scaled) <= 0x100_0000 * (32_999 * wide) + 33_000 * scaled
            + 33_000 * 0x80_0000);
    }
}

/// How far a sample on a line is off, in numbers.
proof fn lemma_line_numbers(
    sa: int,
    gap: int,
    wide: int,
    scaled: int,
    out: int,
    phi: int,
    r: int,
    one: int,
)
    requires
        one >= 0x1_0000_0000_0000_0000,
        0 <= gap <= 2 * one,
        0 <= wide,
        0 <= scaled <= wide,
        0 <= phi <= one,
        0 <= r < 32_000,
        0x100_0000 * (wide - gap) <= wide,
        0x100_0000 * (gap - wide) <= wide,
        0x100_0000 * (scaled * one) <= 0x100_0000 * (wide * phi) + scaled * one + 0x80_0000 * one,
        0x100_0000 * (wide * phi) <= 0x100_0000 * (scaled * one) + scaled * one + 0x80_0000 * one,
        0x80_0000 * (32_000 * phi) <= 0x80_0000 * (r * one) + 32_000 * one,
        0x80_0000 * (r * one) <= 0x80_0000 * (32_000 * phi) + 32_000 * one,
        0x100_0000 * (sa + scaled - out) <= one,
        0x100_0000 * (out - sa - scaled) <= one,
    ensures
        0x10_0000 * (32_000 * out - ((32_000 - r) * sa + r * (sa + gap))) <= 32_000 * one,
        0x10_0000 * (((32_000 - r) * sa + r * (sa + gap)) - 32_000 * out) <= 32_000 * one,
{
    assert(wide <= 3 * one);
    let wp = wide * phi;
    let gp = gap * phi;
    let so = scaled * one;
    let oo = one * one;
    let go = gap * one;
    let rg = r * go;
    assert(0x100_0000 * (wp - gp) <= wp) by (nonlinear_arith)
        requires
            wp == wide * phi,
            gp == gap * phi,
            phi >= 0,
            0x100_0000 * (wide - gap) <= wide,
    ;
    assert(0x100_0000 * (gp - wp) <= wp) by (nonlinear_arith)
        requires
            wp == wide * phi,
            gp == gap * phi,
            phi >= 0,
            0x100_0000 * (gap - wide) <= wide,
    ;
    assert(wp <= 3 * oo) by (nonlinear_arith)
        requires
            wp == wide * phi,
            oo == one * one,
            0 <= wide <= 3 * one,
            0 <= phi <= one,
    ;
    assert(so <= 3 * oo && go <= 2 * oo && 0x80_0000 * one <= oo) by (nonlinear_arith)
        requires
            so == scaled * one,
            go == gap * one,
            oo == one * one,
            scaled <= 3 * one,
            gap <= 2 * one,
            one >= 0x80_0000,
    ;
    let t = 32_000 * phi - r * one;
    let gt = gap * t;
    assert(0x80_0000 * t <= 32_000 * one && -(0x80_0000 * t) <= 32_000 * one);
    assert(0x80_0000 * gt <= 32_000 * go) by (nonlinear_arith)
        requires
            gt == gap * t,
            go == gap * one,
            gap >= 0,
            0x80_0000 * t <= 32_000 * one,
    ;
    assert(-(0x80_0000 * gt) <= 32_000 * go) by (nonlinear_arith)
        requires
            gt == gap * t,
            go == gap * one,
            gap >= 0,
            -(0x80_0000 * t) <= 32_000 * one,
    ;
    assert(gt == 32_000 * gp - rg) by (nonlinear_arith)
        requires
            gt == gap * t,
            t == 32_000 * phi - r * one,
            gp == gap * phi,
            rg == r * go,
            go == gap * one,
    ;
    let e = 32_000 * scaled - r * gap;
    let eo = e * one;
    assert(eo == 32_000 * so - rg) by (nonlinear_arith)
        requires
            eo == e * one,
            e == 32_000 * scaled - r * gap,
            so == scaled * one,
            rg == r * go,
            go == gap * one,
    ;
    assert(0x100_0000 * eo <= 384_000 * oo);
    assert(-(0x100_0000 * eo) <= 384_000 * oo);
    assert((0x100_0000 * e) * one == 0x100_0000 * eo && (-(0x100_0000 * e)) * one == -(0x100_0000
        * eo) && (384_000 * one) * one == 384_000 * oo) by (nonlinear_arith)
        requires
            eo == e * one,
            oo == one * one,
    ;
    lemma_divided(0x100_0000 * e, 384_000 * one, one);
    lemma_divided(-(0x100_0000 * e), 384_000 * one, one);
    assert((32_000 - r) * sa + r * (sa + gap) == 32_000 * sa + r * gap) by (nonlinear_arith);
}

/// Both sides of an inequality divided by a positive number.
proof fn lemma_divided(a: int, b: int, one: int)
    by (nonlinear_arith)
    requires
        one > 0,
        a * one <= b * one,
    ensures
        a <= b,
{
}

/// A sample between two others: on the line between them, `r` 32000ths of the way.
proof fn lemma_line(a: u32, b: u32, f: u32, phi: nat, r: int)
    requires
        binary32::magnitude(a) <= binary32::ONE,
        binary32::magnitude(b) <= binary32::ONE,
        !binary32::negative(f),
        binary32::finite(f),
        phi == binary32::absolute_units(f),
        phi <= binary32::one_units(),
        33_000 * phi <= 32_999 * binary32::one_units(),
        0 <= r < 32_000,
        r == 0 ==> phi == 0,
        0x80_0000 * (32_000 * phi) <= 0x80_0000 * (r * binary32::one_units()) + 32_000
            * binary32::one_units(),
        0x80_0000 * (r * binary32::one_units()) <= 0x80_0000 * (32_000 * phi) + 32_000
            * binary32::one_units(),
    ensures
        ({
            let x = binary32::sum_of(
                a,
                binary32::product_of(binary32::difference_of(b, a), f),
            );
            let one = binary32::one_units() as int;
            let sa = binary32::signed_units(a);
            let sb = binary32::signed_units(b);
            let out = binary32::signed_units(x);
            &&& binary32::finite(x)
            &&& sa <= sb ==> sa <= out <= sb
            &&& sb <= sa ==> sb <= out <= sa
            &&& r == 0 ==> out == sa
            &&& 0x10_0000 * size_of(32_000 * out - ((32_000 - r) * sa + r * sb)) <= 32_000 * one
        }),
{
    let one = binary32::one_units() as int;
    let sa = binary32::signed_units(a);
    let sb = binary32::signed_units(b);
    let gap = sb - sa;
    let (wide, scaled) = lemma_scaled_difference(a, b, f, phi);
    let p = binary32::product_of(binary32::difference_of(b, a), f);
    let x = binary32::sum_of(a, p);
    fidelity::lemma_one();
    lemma2_to64();
    lemma2_to64_rest();
    lemma_pow2_strictly_increases(64, 149);
    rounding::lemma_units_are_monotone(binary32::magnitude(a) as nat, binary32::ONE as nat);
    rounding::lemma_units_are_monotone(binary32::magnitude(b) as nat, binary32::ONE as nat);
    lemma_within_difference(size_of(gap), size_of(wide), size_of(scaled), phi as int, one);
    let exact = sa + scaled;
    let zero_sign = binary32::negative(a) && binary32::negative(p);
    assert(x == binary32::nearest_units(exact, zero_sign));
    lemma_nearest_keeps_side(exact, zero_sign, a);
    lemma_nearest_keeps_side(exact, zero_sign, b);
    let out = binary32::signed_units(x);
    if gap >= 0 {
        lemma_line_numbers(sa, gap, wide, scaled, out, phi as int, r, one);
    } else {
        lemma_line_numbers(-sa, -gap, -wide, -scaled, -out, phi as int, r, one);
        assert((32_000 - r) * -sa + r * (-sa + -gap) == -((32_000 - r) * sa + r * sb))
            by (nonlinear_arith)
            requires
                gap == sb - sa,
        ;
    }
    assert(r * (sa + gap) == r * sb);
}

/// A converted recording lies on the lines between the samples of its source: with the
/// exact place `l` and `r` 32000ths of output sample `index`, that sample lies between
/// source samples `l` and `l + 1`, is the former where `r` is zero, and is off the point
/// `r` 32000ths of the way by a 2^20-th of full scale at most.  Behind the last source
/// sample, that one is held.
pub proof fn law_converted_samples_lie_on_the_lines(
    samples: Seq<u32>,
    source_rate: u32,
    index: int,
)
    requires
        source_rate > 0,
        samples.len() > 0,
        fidelity::full_scale(samples),
        0 <= index < resample::resampled(samples, source_rate).len(),
        index * source_rate < 0x20_0000_0000,
    ensures
        ({
            let x = resample::resampled(samples, source_rate)[index];
            let n = index * source_rate;
            let l = n / 32_000;
            let r = n % 32_000;
            let out = binary32::signed_units(x);
            &&& binary32::finite(x)
            &&& 0 <= l
            &&& l + 1 >= samples.len() ==> out == binary32::signed_units(samples.last())
            &&& l + 1 < samples.len() ==> {
                let sa = binary32::signed_units(samples[l]);
                let sb = binary32::signed_units(samples[l + 1]);
                &&& sa <= sb ==> sa <= out <= sb
                &&& sb <= sa ==> sb <= out <= sa
                &&& r == 0 ==> out == sa
                &&& 0x10_0000 * size_of(32_000 * out - ((32_000 - r) * sa + r * sb)) <= 32_000
                    * binary32::one_units()
            }
        }),
{
    let n = index * source_rate;
    let l = n / 32_000;
    let r = n % 32_000;
    assert(n >= 0) by (nonlinear_arith)
        requires
            n == index * source_rate,
            index >= 0,
    ;
    if source_rate == 32_000 {
        assert(l == index && r == 0);
        let sa = binary32::signed_units(samples[index]);
        if l + 1 < samples.len() {
            let sb = binary32::signed_units(samples[index + 1]);
            assert(32_000 * sa - ((32_000 - r) * sa + r * sb) == 0) by (nonlinear_arith)
                requires
                    r == 0,
            ;
        }
        assert(binary32::magnitude(samples[index]) <= binary32::ONE);
    } else {
        let position = resample::source_position(index as nat, source_rate);
        resample::law_neighbours_surround_the_exact_position(index as nat, source_rate);
        let phi = lemma_fraction(index as nat, source_rate);
        let a = resample::held(samples, l as nat);
        let b = resample::held(samples, (l + 1) as nat);
        assert(resample::left_of(position) == l);
        lemma_line(a, b, resample::fraction_of(position), phi, r);
        assert(resample::resampled(samples, source_rate)[index] == resample::interpolated(
            samples,
            source_rate,
            index as nat,
        ));
    }
}

/// A converted recording lasts as long as its source: its length at 32 kHz differs from
/// the length of the source at its own rate by half a sample at most, and by half a sample
/// upwards only.
pub proof fn law_converted_recording_lasts_as_long(samples: Seq<u32>, source_rate: u32)
    requires
        source_rate > 0,
    ensures
        ({
            let len = resample::resampled(samples, source_rate).len();
            &&& 2 * (len * source_rate) <= 2 * (samples.len() * 32_000) + source_rate
            &&& 2 * (samples.len() * 32_000) < 2 * (len * source_rate) + source_rate
        }),
{
    let n = samples.len();
    let rate = source_rate as nat;
    let len = resample::resampled(samples, source_rate).len();
    if rate != 32_000 {
        let whole = n * 32_000 + rate / 2;
        assert(len * rate <= whole < len * rate + rate) by (nonlinear_arith)
            requires
                len == whole / rate,
                rate > 0,
        ;
    }
}

/// A converted recording stays within full scale.
pub proof fn lemma_converted_recording_is_within_full_scale(samples: Seq<u32>, source_rate: u32)
    requires
        wav::MIN_SAMPLE_RATE <= source_rate <= wav::MAX_SAMPLE_RATE,
        wav::MIN_DURATION_SECONDS * source_rate <= samples.len(),
        samples.len() <= wav::MAX_DURATION_SECONDS * source_rate,
        fidelity::full_scale(samples),
    ensures
        fidelity::full_scale(resample::resampled(samples, source_rate)),
        forall|i: int|
            0 <= i < resample::resampled(samples, source_rate).len() ==> #[trigger] (i
                * source_rate) < 0x20_0000_0000,
{
    let out = resample::resampled(samples, source_rate);
    let one = binary32::one_units();
    resample::law_resampled_duration_is_kept(samples, source_rate);
    fidelity::lemma_one();
    assert forall|i: int| 0 <= i < out.len() implies #[trigger] (i * source_rate)
        < 0x20_0000_0000 by {
        assert(i * source_rate <= 960_000 * 96_000) by (nonlinear_arith)
            requires
                0 <= i <= 960_000,
                source_rate <= 96_000,
        ;
    }
    assert forall|i: int| 0 <= i < out.len() implies binary32::magnitude(#[trigger] out[i])
        <= binary32::ONE by {
        assert(i * source_rate < 0x20_0000_0000);
        law_converted_samples_lie_on_the_lines(samples, source_rate, i);
        let n = i * source_rate;
        let l = n / 32_000;
        let last = samples.len() - 1;
        let j = if l + 1 < samples.len() {
            l
        } else {
            last
        };
        let k = if l + 1 < samples.len() {
            l + 1
        } else {
            last
        };
        assert(samples[last] == samples.last());
        assert(binary32::magnitude(samples[j]) <= binary32::ONE);
        assert(binary32::magnitude(samples[k]) <= binary32::ONE);
        rounding::lemma_units_are_monotone(
            binary32::magnitude(samples[j]) as nat,
            binary32::ONE as nat,
        );
        rounding::lemma_units_are_monotone(
            binary32::magnitude(samples[k]) as nat,
            binary32::ONE as nat,
        );
        if binary32::magnitude(out[i]) > binary32::ONE {
            rounding::lemma_units_are_monotone(
                0x3f80_0001,
                binary32::magnitude(out[i]) as nat,
            );
            lemma2_to64();
            lemma_pow2_pos(126);
            assert(rounding::units(0x3f80_0001) == 0x80_0001 * pow2(126));
            assert(rounding::units(0x3f80_0000) == 0x80_0000 * pow2(126));
        }
    }
}

/// Every converted sample is reached from the source sample at or before its time, by a
/// fraction of the way to the next one that is within 2^-23 of how far the time lies
/// behind it, whatever the samples are; behind the last sample the way leads nowhere.
pub proof fn law_converted_samples_go_part_of_the_way(
    samples: Seq<u32>,
    source_rate: u32,
    index: int,
) -> (fraction: u32)
    requires
        source_rate > 0,
        source_rate != 32_000,
        samples.len() > 0,
        0 <= index < resample::resampled(samples, source_rate).len(),
        index * source_rate < 0x20_0000_0000,
    ensures
        ({
            let n = index * source_rate;
            let l = n / 32_000;
            let r = n % 32_000;
            let last = samples.len() - 1;
            let a = samples[if l < last {
                l
            } else {
                last
            }];
            let b = samples[if l + 1 < last {
                l + 1
            } else {
                last
            }];
            let phi = binary32::signed_units(fraction);
            let one = binary32::one_units() as int;
            &&& 0 <= phi <= one
            &&& 0x80_0000 * size_of(32_000 * phi - r * one) <= 32_000 * one
            &&& resample::resampled(samples, source_rate)[index] == binary32::sum_of(
                a,
                binary32::product_of(binary32::difference_of(b, a), fraction),
            )
        }),
{
    assert(index * source_rate >= 0) by (nonlinear_arith)
        requires
            index >= 0,
    ;
    let phi = lemma_fraction(index as nat, source_rate);
    resample::law_neighbours_surround_the_exact_position(index as nat, source_rate);
    resample::fraction_of(resample::source_position(index as nat, source_rate))
}

/// The same holds of any converted sample, however far on it is: of its position, the
/// integer tells the source sample that it is reached from, and the binary32 value nearest
/// to the rest how much of the way is gone.
pub proof fn law_any_converted_sample_goes_part_of_the_way(
    samples: Seq<u32>,
    source_rate: u32,
    index: int,
) -> (fraction: u32)
    requires
        source_rate > 0,
        source_rate != 32_000,
        samples.len() > 0,
        0 <= index < resample::resampled(samples, source_rate).len(),
    ensures
        ({
            let p = resample::source_position(index as nat, source_rate);
            let l = (p / pow2(1074)) as int;
            let last = samples.len() - 1;
            let a = samples[if l < last {
                l
            } else {
                last
            }];
            let b = samples[if l + 1 < last {
                l + 1
            } else {
                last
            }];
            &&& accuracy::rounds_to((p % pow2(1074)) as int, pow2(925) as int, fraction)
            &&& resample::resampled(samples, source_rate)[index] == binary32::sum_of(
                a,
                binary32::product_of(binary32::difference_of(b, a), fraction),
            )
        }),
{
    let p = resample::source_position(index as nat, source_rate);
    lemma_pow2_pos(925);
    accuracy::lemma_rounds_to(p % pow2(1074), pow2(925), false);
    resample::fraction_of(p)
}

} // verus!
