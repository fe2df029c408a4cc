//! Audio samples in the IEEE 754 binary32 format, held as their 32 bits.
//!
//! The arithmetic is exact to the bit: every operation rounds the exact result to
//! the nearest representable value, ties to even, as the format prescribes.  An
//! operation without a defined result gives the one NaN `NOT_A_NUMBER`.

use vstd::prelude::*;
use vstd::arithmetic::power2::*;

use crate::rounding;
use crate::rounding::INFINITE;

verus! {

/// The sign bit, which is also the encoding of negative zero.
pub const SIGN: u32 = 0x8000_0000;

/// The NaN that undefined operations give.
pub const NOT_A_NUMBER: u32 = 0x7fc0_0000;

/// One.
pub const ONE: u32 = 0x3f80_0000;

/// Minus one.
pub const MINUS_ONE: u32 = 0xbf80_0000;

pub open spec fn negative(x: u32) -> bool {
    x >= SIGN
}

/// The bits below the sign.
pub open spec fn magnitude(x: u32) -> u32 {
    if negative(x) {
        (x - SIGN) as u32
    } else {
        x
    }
}

pub open spec fn is_nan(x: u32) -> bool {
    magnitude(x) > INFINITE
}

pub open spec fn infinite(x: u32) -> bool {
    magnitude(x) == INFINITE
}

pub open spec fn finite(x: u32) -> bool {
    magnitude(x) < INFINITE
}

pub open spec fn zero(x: u32) -> bool {
    magnitude(x) == 0
}

/// Absolute value of a finite sample, as a multiple of 2^-149.
pub open spec fn absolute_units(x: u32) -> nat {
    rounding::units(magnitude(x) as nat)
}

/// Value of a finite sample, as a multiple of 2^-149.
pub open spec fn signed_units(x: u32) -> int {
    if negative(x) {
        -(absolute_units(x) as int)
    } else {
        absolute_units(x) as int
    }
}

/// One, as a multiple of 2^-149.
pub open spec fn one_units() -> nat {
    pow2(149)
}

pub open spec fn signed(sign: bool, magnitude: nat) -> u32 {
    if sign {
        (SIGN + magnitude) as u32
    } else {
        magnitude as u32
    }
}

pub open spec fn negated(x: u32) -> u32 {
    signed(!negative(x), magnitude(x) as nat)
}

/// The sample nearest to an exact multiple of 2^-149; `zero_sign` is the sign of an
/// exact zero.
pub open spec fn nearest_units(exact: int, zero_sign: bool) -> u32 {
    if exact > 0 {
        signed(false, rounding::nearest(exact as nat, 1))
    } else if exact < 0 {
        signed(true, rounding::nearest((-exact) as nat, 1))
    } else {
        signed(zero_sign, 0)
    }
}

/// The binary32 sum of two samples.
pub open spec fn sum_of(a: u32, b: u32) -> u32 {
    if is_nan(a) || is_nan(b) {
        NOT_A_NUMBER
    } else if infinite(a) {
        if infinite(b) && negative(a) != negative(b) {
            NOT_A_NUMBER
        } else {
            a
        }
    } else if infinite(b) {
        b
    } else {
        nearest_units(signed_units(a) + signed_units(b), negative(a) && negative(b))
    }
}

/// The binary32 difference of two samples.
pub open spec fn difference_of(a: u32, b: u32) -> u32 {
    sum_of(a, if is_nan(b) { b } else { negated(b) })
}

/// The binary32 product of two samples.
pub open spec fn product_of(a: u32, b: u32) -> u32 {
    let sign = negative(a) != negative(b);
    if is_nan(a) || is_nan(b) {
        NOT_A_NUMBER
    } else if infinite(a) || infinite(b) {
        if zero(a) || zero(b) {
            NOT_A_NUMBER
        } else {
            signed(sign, INFINITE as nat)
        }
    } else {
        signed(sign, rounding::nearest(absolute_units(a) * absolute_units(b), one_units()))
    }
}

/// The binary32 quotient of two samples.
pub open spec fn quotient_of(a: u32, b: u32) -> u32 {
    let sign = negative(a) != negative(b);
    if is_nan(a) || is_nan(b) {
        NOT_A_NUMBER
    } else if infinite(a) {
        if infinite(b) {
            NOT_A_NUMBER
        } else {
            signed(sign, INFINITE as nat)
        }
    } else if infinite(b) {
        signed(sign, 0)
    } else if zero(b) {
        if zero(a) {
            NOT_A_NUMBER
        } else {
            signed(sign, INFINITE as nat)
        }
    } else {
        signed(sign, rounding::nearest(absolute_units(a) * one_units(), absolute_units(b)))
    }
}

/// A natural number whose square is the last one not above `n`.
pub open spec fn root_floor(n: nat) -> nat {
    choose|r: nat| #[trigger] (r * r) <= n < (r + 1) * (r + 1)
}

/// Magnitude of the binary32 value nearest to the square root of `n`, in units; ties
/// go to the even significand.
pub open spec fn nearest_root(n: nat) -> nat {
    let r = root_floor(n);
    let k = rounding::excess_bits(r, 24);
    let m = r / pow2(k);
    let twice_middle = (2 * m + 1) * pow2(k);
    let up = twice_middle * twice_middle < 4 * n || (twice_middle * twice_middle == 4 * n && m % 2
        == 1);
    rounding::encoded(if up { m + 1 } else { m }, k)
}

/// The binary32 square root of a sample.
pub open spec fn root_of(x: u32) -> u32 {
    if is_nan(x) {
        NOT_A_NUMBER
    } else if zero(x) {
        x
    } else if negative(x) {
        NOT_A_NUMBER
    } else if infinite(x) {
        x
    } else {
        signed(false, nearest_root(absolute_units(x) * one_units()))
    }
}

/// The binary32 value nearest to an integer.
pub open spec fn integer(v: int) -> u32 {
    if v < 0 {
        signed(true, rounding::nearest(((-v) * one_units()) as nat, 1))
    } else {
        signed(false, rounding::nearest((v * one_units()) as nat, 1))
    }
}

/// The integer nearest to a finite sample; of two equally near ones the one farther
/// from zero.
pub open spec fn nearest_integer(x: u32) -> int {
    let m = (2 * absolute_units(x) + one_units()) / (2 * one_units());
    if negative(x) {
        -(m as int)
    } else {
        m as int
    }
}

/// Position of a non-NaN sample in the numeric order; both zeros are at 0.
pub open spec fn rank(x: u32) -> int {
    if negative(x) {
        -(magnitude(x) as int)
    } else {
        magnitude(x) as int
    }
}

/// `a < b`, which holds of no NaN.
pub open spec fn less(a: u32, b: u32) -> bool {
    !is_nan(a) && !is_nan(b) && rank(a) < rank(b)
}

/// `a >= b`, which holds of no NaN.
pub open spec fn at_least(a: u32, b: u32) -> bool {
    !is_nan(a) && !is_nan(b) && rank(a) >= rank(b)
}

/// A sample limited to full scale, `[-1, 1]`; a NaN stays as it is.
pub open spec fn limited(x: u32) -> u32 {
    if less(x, MINUS_ONE) {
        MINUS_ONE
    } else if less(ONE, x) {
        ONE
    } else {
        x
    }
}

/// Every sample limited to full scale.
pub open spec fn all_limited(samples: Seq<u32>) -> Seq<u32> {
    samples.map_values(|x: u32| limited(x))
}

fn sign_of(x: u32) -> (s: bool)
    ensures
        s == negative(x),
{
    x >= SIGN
}

fn magnitude_of(x: u32) -> (m: u32)
    ensures
        m == magnitude(x),
        m < SIGN,
{
    if x >= SIGN {
        x - SIGN
    } else {
        x
    }
}

fn attach_sign(sign: bool, magnitude: u32) -> (x: u32)
    requires
        magnitude < SIGN,
    ensures
        x == signed(sign, magnitude as nat),
{
    if sign {
        SIGN + magnitude
    } else {
        magnitude
    }
}

/// Significand and exponent of a finite magnitude.
fn significand(magnitude: u32) -> (r: (u64, i32))
    requires
        magnitude < INFINITE,
    ensures
        r.0 < 0x100_0000,
        0 <= r.1 <= 253,
        r.1 > 0 ==> r.1 + 1 == magnitude / 0x80_0000,
        r.1 > 0 ==> r.0 >= 0x80_0000,
        r.0 == 0 <==> magnitude == 0,
        rounding::units(magnitude as nat) == r.0 * pow2(r.1 as nat),
{
    let exponent: u32 = magnitude / 0x80_0000;
    let fraction: u32 = magnitude % 0x80_0000;
    proof {
        lemma2_to64();
    }
    if exponent == 0 {
        assert(fraction * pow2(0) == fraction) by (nonlinear_arith)
            requires
                pow2(0) == 1,
        ;
        (fraction as u64, 0)
    } else {
        (0x80_0000 + fraction as u64, exponent as i32 - 1)
    }
}

/// Whether a sample is neither infinite nor NaN.
pub fn is_finite(x: u32) -> (r: bool)
    ensures
        r == finite(x),
{
    magnitude_of(x) < INFINITE
}

/// Whether `a < b`.
pub fn is_less(a: u32, b: u32) -> (r: bool)
    ensures
        r == less(a, b),
{
    let ma: u32 = magnitude_of(a);
    let mb: u32 = magnitude_of(b);
    if ma > INFINITE || mb > INFINITE {
        return false;
    }
    let ra: i64 = if sign_of(a) { 0 - ma as i64 } else { ma as i64 };
    let rb: i64 = if sign_of(b) { 0 - mb as i64 } else { mb as i64 };
    ra < rb
}

/// Whether `a >= b`.
pub fn is_at_least(a: u32, b: u32) -> (r: bool)
    ensures
        r == at_least(a, b),
{
    let ma: u32 = magnitude_of(a);
    let mb: u32 = magnitude_of(b);
    ma <= INFINITE && mb <= INFINITE && !is_less(a, b)
}

/// A sample limited to full scale.
pub fn limit(x: u32) -> (r: u32)
    ensures
        r == limited(x),
{
    if is_less(x, MINUS_ONE) {
        MINUS_ONE
    } else if is_less(ONE, x) {
        ONE
    } else {
        x
    }
}

/// The absolute value of a sample.
pub fn absolute(x: u32) -> (r: u32)
    ensures
        r == magnitude(x),
{
    magnitude_of(x)
}

/// The sample nearest to an unsigned integer.
pub fn from_unsigned(v: u32) -> (x: u32)
    ensures
        x == integer(v as int),
{
    let ghost n = (v * one_units()) as nat;
    proof {
        lemma2_to64();
        lemma_pow2_pos(149);
        let one = one_units();
        assert(v * one >= 0) by (nonlinear_arith)
            requires
                one > 0,
        ;
        let up = pow2(149) * 1;
        assert(n * pow2(0) == v * up && n * pow2(0) < (v + 1) * up) by (nonlinear_arith)
            requires
                n == v * one,
                one > 0,
                up == one * 1,
                pow2(0) == 1,
        ;
    }
    rounding::round_significand(v as u64, 149, false, Ghost(n), Ghost(1))
}

/// The sample nearest to a signed integer.
pub fn from_signed(v: i32) -> (x: u32)
    ensures
        x == integer(v as int),
{
    if v < 0 {
        let m: u32 = (0 - v as i64) as u32;
        let x: u32 = from_unsigned(m);
        attach_sign(true, x)
    } else {
        from_unsigned(v as u32)
    }
}

spec fn with_sign(sign: bool, u: nat) -> int {
    if sign {
        -(u as int)
    } else {
        u as int
    }
}

/// Rounds the exact sum of two finite magnitudes of the given signs.
fn sum_finite(sa: bool, ma: u32, sb: bool, mb: u32) -> (x: u32)
    requires
        ma < INFINITE,
        mb < INFINITE,
    ensures
        x == nearest_units(
            with_sign(sa, rounding::units(ma as nat)) + with_sign(sb, rounding::units(mb as nat)),
            sa && sb,
        ),
{
    let (fa, ea) = significand(ma);
    let (fb, eb) = significand(mb);
    if ea < eb {
        if eb - ea <= 38 {
            sum_near(sb, fb, eb, sa, fa, ea)
        } else {
            sum_far(sb, fb, eb, sa, fa, ea)
        }
    } else if ea - eb <= 38 {
        sum_near(sa, fa, ea, sb, fb, eb)
    } else {
        sum_far(sa, fa, ea, sb, fb, eb)
    }
}

/// The sum of two quantities whose exponents are at most 38 apart.
fn sum_near(sa: bool, fa: u64, ea: i32, sb: bool, fb: u64, eb: i32) -> (x: u32)
    requires
        0 <= eb <= ea <= 253,
        ea - eb <= 38,
        fa < 0x100_0000,
        fb < 0x100_0000,
    ensures
        x == nearest_units(
            with_sign(sa, fa as nat * pow2(ea as nat)) + with_sign(sb, fb as nat * pow2(eb as nat)),
            sa && sb,
        ),
{
    let gap: i32 = ea - eb;
    let ghost g = pow2(gap as nat);
    let ghost low = pow2(eb as nat);
    let ghost ua = fa as nat * pow2(ea as nat);
    let ghost ub = fb as nat * low;
    proof {
        lemma2_to64();
        lemma2_to64_rest();
        lemma_pow2_adds(gap as nat, eb as nat);
        lemma_pow2_pos(eb as nat);
        if gap < 38 {
            lemma_pow2_strictly_increases(gap as nat, 38);
        }
        assert(fa * g < 0x4000_0000_0000_0000) by (nonlinear_arith)
            requires
                fa < 0x100_0000,
                g <= 0x40_0000_0000,
        ;
        vstd::bits::lemma_u64_shl_is_mul(fa, gap as u64);
        assert(ua == (fa * g) * low) by (nonlinear_arith)
            requires
                ua == fa * (g * low),
        ;
    }
    let big: u64 = fa << (gap as u64);
    let sig: u64;
    let sign: bool;
    if sa == sb {
        sig = big + fb;
        sign = sa;
    } else if big >= fb {
        sig = big - fb;
        sign = sa;
    } else {
        sig = fb - big;
        sign = sb;
    }
    let ghost exact = sig as nat * low;
    proof {
        assert((big + fb) * low == ua + ub && (big - fb) * low == ua - ub && (fb - big) * low == ub
            - ua) by (nonlinear_arith)
            requires
                ua == big * low,
                ub == fb * low,
        ;
        assert(with_sign(sa, ua) + with_sign(sb, ub) == with_sign(sign, exact));
        assert((exact == 0) == (sig == 0)) by (nonlinear_arith)
            requires
                exact == sig * low,
                low > 0,
        ;
        let up = low * 1;
        assert(exact * pow2(0) == sig * up && sig * up < (sig + 1) * up) by (nonlinear_arith)
            requires
                exact == sig * low,
                up == low * 1,
                low > 0,
                pow2(0) == 1,
        ;
    }
    if sig == 0 {
        return attach_sign(sa && sb, 0);
    }
    let m: u32 = rounding::round_significand(sig, eb, false, Ghost(exact), Ghost(1));
    attach_sign(sign, m)
}

/// The sum of two quantities whose exponents are more than 38 apart: the second one
/// only nudges the result off the grid.
fn sum_far(sa: bool, fa: u64, ea: i32, sb: bool, fb: u64, eb: i32) -> (x: u32)
    requires
        0 <= eb,
        eb + 38 < ea <= 253,
        0x80_0000 <= fa < 0x100_0000,
        fb < 0x100_0000,
    ensures
        x == nearest_units(
            with_sign(sa, fa as nat * pow2(ea as nat)) + with_sign(sb, fb as nat * pow2(eb as nat)),
            sa && sb,
        ),
{
    let ghost low = pow2(eb as nat);
    let ghost ua = fa as nat * pow2(ea as nat);
    let ghost ub = fb as nat * low;
    let ghost top = pow2((ea - 15) as nat);
    proof {
        lemma2_to64();
        lemma_pow2_pos(eb as nat);
        lemma_pow2_adds(15, (ea - 15) as nat);
        lemma_pow2_adds(24, eb as nat);
        if eb + 24 < ea - 15 {
            lemma_pow2_strictly_increases((eb + 24) as nat, (ea - 15) as nat);
        }
        lemma_pow2_pos((ea - 15) as nat);
        assert(ub < top) by (nonlinear_arith)
            requires
                ub == fb * low,
                fb < 0x100_0000,
                0x100_0000 * low <= top,
                low > 0,
        ;
        assert(ua == (fa * 0x8000) * top) by (nonlinear_arith)
            requires
                ua == fa * (0x8000 * top),
        ;
    }
    let base: u64 = fa * 0x8000;
    let sig: u64;
    let inexact: bool;
    if fb == 0 {
        sig = base;
        inexact = false;
        assert(0 * low == 0) by (nonlinear_arith);
    } else {
        inexact = true;
        sig = if sa == sb { base } else { base - 1 };
        assert(ub > 0) by (nonlinear_arith)
            requires
                ub == fb * low,
                fb > 0,
                low > 0,
        ;
    }
    let ghost exact = if sa == sb { ua + ub } else { (ua - ub) as nat };
    proof {
        assert(ua >= 2 * top) by (nonlinear_arith)
            requires
                ua == base * top,
                base >= 2,
        ;
        let up = top * 1;
        assert(exact * pow2(0) == exact && up == top) by (nonlinear_arith)
            requires
                up == top * 1,
                pow2(0) == 1,
        ;
        assert((base + 1) * top == ua + top && (base - 1) * top == ua - top) by (nonlinear_arith)
            requires
                ua == base * top,
        ;
        assert(with_sign(sa, ua) + with_sign(sb, ub) == with_sign(sa, exact));
        assert(rounding::brackets(exact, 1, sig as nat, ea - 15, inexact));
    }
    let m: u32 = rounding::round_significand(sig, ea - 15, inexact, Ghost(exact), Ghost(1));
    attach_sign(sa, m)
}

/// The sum of two samples.
pub fn sum(a: u32, b: u32) -> (x: u32)
    ensures
        x == sum_of(a, b),
{
    let sa: bool = sign_of(a);
    let sb: bool = sign_of(b);
    let ma: u32 = magnitude_of(a);
    let mb: u32 = magnitude_of(b);
    if ma > INFINITE || mb > INFINITE {
        NOT_A_NUMBER
    } else if ma == INFINITE {
        if mb == INFINITE && sa != sb {
            NOT_A_NUMBER
        } else {
            a
        }
    } else if mb == INFINITE {
        b
    } else {
        sum_finite(sa, ma, sb, mb)
    }
}

/// The difference of two samples.
pub fn difference(a: u32, b: u32) -> (x: u32)
    ensures
        x == difference_of(a, b),
{
    let mb: u32 = magnitude_of(b);
    if mb > INFINITE {
        sum(a, b)
    } else {
        sum(a, attach_sign(!sign_of(b), mb))
    }
}

/// The product of two samples.
pub fn product(a: u32, b: u32) -> (x: u32)
    ensures
        x == product_of(a, b),
{
    let sign: bool = sign_of(a) != sign_of(b);
    let ma: u32 = magnitude_of(a);
    let mb: u32 = magnitude_of(b);
    if ma > INFINITE || mb > INFINITE {
        return NOT_A_NUMBER;
    }
    if ma == INFINITE || mb == INFINITE {
        return if ma == 0 || mb == 0 { NOT_A_NUMBER } else { attach_sign(sign, INFINITE) };
    }
    let (fa, ea) = significand(ma);
    let (fb, eb) = significand(mb);
    let ghost ua = rounding::units(ma as nat);
    let ghost ub = rounding::units(mb as nat);
    let ghost n = ua * ub;
    let exp: i32 = ea + eb - 149;
    assert(fa * fb < 0x1_0000_0000_0000) by (nonlinear_arith)
        requires
            fa < 0x100_0000,
            fb < 0x100_0000,
    ;
    let sig: u64 = fa * fb;
    proof {
        lemma2_to64();
        let pa = pow2(ea as nat);
        let pb = pow2(eb as nat);
        let one = one_units();
        lemma_pow2_adds(ea as nat, eb as nat);
        lemma_pow2_pos(149);
        let pab = pow2((ea + eb) as nat);
        assert(n == sig * pab) by (nonlinear_arith)
            requires
                n == (fa * pa) * (fb * pb),
                sig == fa * fb,
                pab == pa * pb,
        ;
        let up = pow2(if exp > 0 { exp as nat } else { 0 });
        let down = pow2(if exp > 0 { 0 } else { (-exp) as nat });
        if exp > 0 {
            lemma_pow2_adds(exp as nat, 149);
        } else {
            lemma_pow2_adds((ea + eb) as nat, (-exp) as nat);
        }
        lemma_pow2_pos(if exp > 0 { exp as nat } else { 0 });
        assert(pab * down == up * one) by (nonlinear_arith)
            requires
                exp > 0 ==> pab == up * one && down == 1,
                exp <= 0 ==> one == pab * down && up == 1,
        ;
        assert(n * down == sig * (up * one) && sig * (up * one) < (sig + 1) * (up * one))
            by (nonlinear_arith)
            requires
                n == sig * pab,
                pab * down == up * one,
                up > 0,
                one > 0,
        ;
    }
    let m: u32 = rounding::round_significand(sig, exp, false, Ghost(n), Ghost(one_units()));
    attach_sign(sign, m)
}

/// The quotient of two samples.
pub fn quotient(a: u32, b: u32) -> (x: u32)
    ensures
        x == quotient_of(a, b),
{
    let sign: bool = sign_of(a) != sign_of(b);
    let ma: u32 = magnitude_of(a);
    let mb: u32 = magnitude_of(b);
    if ma > INFINITE || mb > INFINITE {
        return NOT_A_NUMBER;
    }
    if ma == INFINITE {
        return if mb == INFINITE { NOT_A_NUMBER } else { attach_sign(sign, INFINITE) };
    }
    if mb == INFINITE {
        return attach_sign(sign, 0);
    }
    if mb == 0 {
        return if ma == 0 { NOT_A_NUMBER } else { attach_sign(sign, INFINITE) };
    }
    let ghost ua = rounding::units(ma as nat);
    let ghost ub = rounding::units(mb as nat);
    let ghost one = one_units();
    let ghost n = ua * one;
    let (fb, eb) = significand(mb);
    proof {
        lemma2_to64();
        lemma2_to64_rest();
        lemma_pow2_pos(149);
        lemma_pow2_pos(eb as nat);
        assert(ub > 0) by (nonlinear_arith)
            requires
                ub == fb * pow2(eb as nat),
                fb > 0,
                pow2(eb as nat) > 0,
        ;
    }
    if ma == 0 {
        proof {
            assert(0 * one == 0 && 0 * ub == 0) by (nonlinear_arith);
            rounding::lemma_nearest_on_grid(0, ub);
        }
        return attach_sign(sign, 0);
    }
    let (fa, ea) = significand(ma);
    let (ga, ha) = normalized(fa, ea);
    let exp: i32 = ha - eb + 110;
    let scaled: u64 = ga * 0x80_0000_0000;
    let sig: u64 = scaled / fb;
    let rest: u64 = scaled % fb;
    proof {
        assert(scaled == sig * fb + rest && rest < fb && sig <= scaled && sig >= 0x100_0000)
            by (nonlinear_arith)
            requires
                sig == scaled / fb,
                rest == scaled % fb,
                0 < fb < 0x100_0000,
                scaled == ga * 0x80_0000_0000,
                ga >= 0x80_0000,
        ;
        let pb = pow2(eb as nat);
        let ph = pow2((ha + 149) as nat);
        let px = pow2((ha + 110) as nat);
        lemma_pow2_adds(39, (ha + 110) as nat);
        // n == scaled * 2^(ha + 110)
        assert(n == ga * ph) by {
            lemma_normalized(fa as nat, ea as int, ga as nat, ha as int);
        }
        assert(n == scaled * px) by (nonlinear_arith)
            requires
                n == ga * ph,
                ph == 0x80_0000_0000 * px,
                scaled == ga * 0x80_0000_0000,
        ;
        let up = pow2(if exp > 0 { exp as nat } else { 0 });
        let down = pow2(if exp > 0 { 0 } else { (-exp) as nat });
        if exp > 0 {
            lemma_pow2_adds(exp as nat, eb as nat);
        } else {
            lemma_pow2_adds((ha + 110) as nat, (-exp) as nat);
        }
        lemma_pow2_pos(if exp > 0 { exp as nat } else { 0 });
        assert(px * down == up * pb) by (nonlinear_arith)
            requires
                exp > 0 ==> px == up * pb && down == 1,
                exp <= 0 ==> pb == px * down && up == 1,
        ;
        let grain = up * pb;
        assert(grain > 0) by (nonlinear_arith)
            requires
                grain == up * pb,
                up > 0,
                pb > 0,
        ;
        assert(n * down == scaled * grain) by (nonlinear_arith)
            requires
                n == scaled * px,
                px * down == grain,
        ;
        assert(sig * (up * ub) == (sig * fb) * grain && (sig + 1) * (up * ub) == (sig * fb + fb)
            * grain) by (nonlinear_arith)
            requires
                ub == fb * pb,
                grain == up * pb,
        ;
        assert((sig * fb) * grain <= scaled * grain && scaled * grain < (sig * fb + fb) * grain && (
        (rest != 0) <==> scaled * grain != (sig * fb) * grain)) by (nonlinear_arith)
            requires
                scaled == sig * fb + rest,
                rest < fb,
                grain > 0,
        ;
    }
    let m: u32 = rounding::round_significand(sig, exp, rest != 0, Ghost(n), Ghost(ub));
    attach_sign(sign, m)
}

/// The integer nearest to a sample below 2^24, halves away from zero.
pub fn to_integer(x: u32) -> (v: i32)
    requires
        magnitude(x) < 0x4b80_0000,
    ensures
        v == nearest_integer(x),
        -0x100_0000 <= v <= 0x100_0000,
{
    let (f, e) = significand(magnitude_of(x));
    let shift: i32 = 149 - e;
    proof {
        lemma2_to64();
        lemma2_to64_rest();
        lemma_pow2_pos(e as nat);
        lemma_pow2_adds(e as nat, shift as nat);
        lemma_pow2_pos(shift as nat);
    }
    let ghost one = one_units();
    let ghost p = pow2(e as nat);
    let ghost s = pow2(shift as nat);
    let ghost u = absolute_units(x);
    let m: u64;
    if shift > 30 {
        m = 0;
        proof {
            if shift > 31 {
                lemma_pow2_strictly_increases(31, shift as nat);
            }
            assert(2 * u < one) by (nonlinear_arith)
                requires
                    u == f * p,
                    one == p * s,
                    f < 0x100_0000,
                    s >= 0x8000_0000,
                    p > 0,
            {
                assert(p * s >= p * 0x8000_0000);
            }
            vstd::arithmetic::div_mod::lemma_basic_div((2 * u + one) as int, (2 * one) as int);
        }
    } else {
        proof {
            if shift < 31 {
                lemma_pow2_strictly_increases(shift as nat, 31);
            }
            vstd::bits::lemma_u64_shl_is_mul(1, shift as u64);
        }
        let unit: u64 = 1u64 << (shift as u64);
        m = (2 * f + unit) / (2 * unit);
        proof {
            let top = 2 * f + unit;
            assert(2 * u + one == top * p && 2 * one == p * (2 * unit)) by (nonlinear_arith)
                requires
                    u == f * p,
                    one == p * unit,
                    top == 2 * f + unit,
            ;
            assert((top * p) as int / (p * (2 * unit)) as int == top as int / (2 * unit) as int) by {
                vstd::arithmetic::div_mod::lemma_div_denominator(
                    (top * p) as int,
                    p as int,
                    (2 * unit) as int,
                );
                vstd::arithmetic::div_mod::lemma_div_by_multiple(top as int, p as int);
            }
            assert(m <= 0x100_0000) by (nonlinear_arith)
                requires
                    m == top as int / (2 * unit) as int,
                    top == 2 * f + unit,
                    f < 0x100_0000,
                    unit >= 1,
            ;
        }
    }
    if sign_of(x) {
        0 - m as i32
    } else {
        m as i32
    }
}

/// Every natural number has an integral square root.
pub proof fn lemma_root_floor(n: nat)
    ensures
        root_floor(n) * root_floor(n) <= n,
        n < (root_floor(n) + 1) * (root_floor(n) + 1),
    decreases n,
{
    if n == 0 {
        let r: nat = 0;
        assert(r * r <= n < (r + 1) * (r + 1)) by (nonlinear_arith)
            requires
                r == 0,
                n == 0,
        ;
    } else {
        lemma_root_floor((n - 1) as nat);
        let r = root_floor((n - 1) as nat);
        if n < (r + 1) * (r + 1) {
            assert(r * r <= n < (r + 1) * (r + 1));
        } else {
            let s = r + 1;
            assert(s * s <= n);
            assert((s + 1) * (s + 1) > s * s) by (nonlinear_arith);
            assert(s * s <= n < (s + 1) * (s + 1));
        }
    }
}

/// The integral square root of a 48-bit number that has its top bits set.
fn integral_root(x: u64) -> (r: u64)
    requires
        0x4000_0000_0000 <= x < 0x1_0000_0000_0000,
    ensures
        0x80_0000 <= r < 0x100_0000,
        r * r <= x < (r + 1) * (r + 1),
{
    let mut low: u64 = 0x80_0000;
    let mut high: u64 = 0x100_0000;
    while high - low > 1
        invariant
            0x80_0000 <= low < high <= 0x100_0000,
            low * low <= x < high * high,
        decreases high - low,
    {
        let middle: u64 = low + (high - low) / 2;
        assert(middle * middle <= 0x100_0000 * 0x100_0000) by (nonlinear_arith)
            requires
                middle <= 0x100_0000,
        ;
        if middle * middle <= x {
            low = middle;
        } else {
            high = middle;
        }
    }
    low
}

/// The square root of a sample.
pub fn root(x: u32) -> (r: u32)
    ensures
        r == root_of(x),
{
    let mx: u32 = magnitude_of(x);
    if mx > INFINITE {
        return NOT_A_NUMBER;
    }
    if mx == 0 {
        return x;
    }
    if sign_of(x) {
        return NOT_A_NUMBER;
    }
    if mx == INFINITE {
        return x;
    }
    let (fx, ex) = significand(mx);
    let (g, h) = normalized(fx, ex);
    // g * 2^(h + 149) == wide * 4^k
    let odd: bool = (h + 149) % 2 == 0;
    let wide: u64 = if odd { g * 0x100_0000 } else { g * 0x80_0000 };
    let k: i32 = if odd { (h + 125) / 2 } else { (h + 126) / 2 };
    let r: u64 = integral_root(wide);
    assert(r * r <= 0x100_0000 * 0x100_0000) by (nonlinear_arith)
        requires
            r <= 0x100_0000,
    ;
    let up: bool = wide - r * r > r;
    proof {
        lemma2_to64();
        let n = absolute_units(x) * one_units();
        lemma_normalized(fx as nat, ex as int, g as nat, h as int);
        let shift: nat = if odd { 24 } else { 23 };
        let kk = pow2(k as nat);
        lemma_pow2_pos(k as nat);
        lemma_pow2_adds(k as nat, k as nat);
        lemma_pow2_adds(shift, (2 * k) as nat);
        assert(shift + 2 * k == h + 149);
        let square = pow2((2 * k) as nat);
        assert(n == wide * (kk * kk)) by (nonlinear_arith)
            requires
                n == g * (pow2(shift) * square),
                square == kk * kk,
                wide == g * pow2(shift),
        ;
        lemma_root_floor(n);
        let floor = root_floor(n);
        assert(r * kk <= floor) by (nonlinear_arith)
            requires
                n == wide * (kk * kk),
                r * r <= wide,
                n < (floor + 1) * (floor + 1),
                kk > 0,
        {
            assert((r * kk) * (r * kk) == (r * r) * (kk * kk));
            assert((r * r) * (kk * kk) <= wide * (kk * kk));
            if r * kk >= floor + 1 {
                assert((r * kk) * (r * kk) >= (floor + 1) * (floor + 1));
            }
        }
        assert(floor < (r + 1) * kk) by (nonlinear_arith)
            requires
                n == wide * (kk * kk),
                wide < (r + 1) * (r + 1),
                floor * floor <= n,
                kk > 0,
        {
            let e = (r + 1) * kk;
            assert(e * e == ((r + 1) * (r + 1)) * (kk * kk));
            assert(wide * (kk * kk) < ((r + 1) * (r + 1)) * (kk * kk));
            if floor >= e {
                assert(floor * floor >= e * e);
            }
        }
        assert((r + 1) * kk == r * kk + kk) by (nonlinear_arith);
        vstd::arithmetic::div_mod::lemma_fundamental_div_mod_converse(
            floor as int,
            kk as int,
            r as int,
            floor - r * kk,
        );
        lemma_pow2_adds(24, k as nat);
        lemma_pow2_adds(23, k as nat);
        assert(floor < 0x100_0000 * kk && floor >= 0x80_0000 * kk) by (nonlinear_arith)
            requires
                r * kk <= floor,
                floor < (r + 1) * kk,
                0x80_0000 <= r < 0x100_0000,
        ;
        rounding::lemma_excess_bits(floor, 24, k as nat);
        // The square of twice the middle is off by a quarter from an integer.
        let twice = (2 * r + 1) * kk;
        assert(twice * twice == (4 * (r * r + r) + 1) * (kk * kk)) by (nonlinear_arith)
            requires
                twice == (2 * r + 1) * kk,
        ;
        assert((twice * twice < 4 * n) == (wide - r * r > r) && twice * twice != 4 * n)
            by (nonlinear_arith)
            requires
                twice * twice == (4 * (r * r + r) + 1) * (kk * kk),
                n == wide * (kk * kk),
                kk > 0,
        {
            let over = 4 * wide - (4 * (r * r + r) + 1);
            assert(4 * n - twice * twice == over * (kk * kk));
            assert(kk * kk > 0);
            assert(over != 0);
            assert((over > 0) == (over * (kk * kk) > 0));
            assert(over * (kk * kk) != 0);
        }
        assert(k * 0x80_0000 + r + 1 < INFINITE);
    }
    (k as u32) * 0x80_0000 + if up { r as u32 + 1 } else { r as u32 }
}

/// Shifts a significand up to its full 24 bits.
fn normalized(f: u64, e: i32) -> (r: (u64, i32))
    requires
        0 < f < 0x100_0000,
        0 <= e <= 253,
    ensures
        0x80_0000 <= r.0 < 0x100_0000,
        e - 23 <= r.1 <= e,
        r.0 == f * pow2((e - r.1) as nat),
{
    let l: u32 = rounding::bit_length(f);
    proof {
        lemma2_to64();
        if l > 24 {
            if l > 25 {
                lemma_pow2_strictly_increases(24, (l - 1) as nat);
            }
        }
        let p = pow2((24 - l) as nat);
        lemma_pow2_pos((24 - l) as nat);
        lemma_pow2_adds(l as nat, (24 - l) as nat);
        lemma_pow2_adds((l - 1) as nat, (24 - l) as nat);
        let high = pow2(l as nat);
        let low = pow2((l - 1) as nat);
        assert(f * p < high * p && f * p >= low * p) by (nonlinear_arith)
            requires
                low <= f < high,
                p > 0,
        ;
        vstd::bits::lemma_u64_shl_is_mul(f, (24 - l) as u64);
    }
    let shift: u32 = 24 - l;
    (f << (shift as u64), e - shift as i32)
}

/// Normalizing a significand does not change the quantity.
proof fn lemma_normalized(f: nat, e: int, g: nat, h: int)
    requires
        e >= 0,
        e - 23 <= h <= e,
        g == f * pow2((e - h) as nat),
    ensures
        (f * pow2(e as nat)) * pow2(149) == g * pow2((h + 149) as nat),
{
    let p = pow2((e - h) as nat);
    let q = pow2((h + 149) as nat);
    lemma_pow2_adds((e - h) as nat, (h + 149) as nat);
    lemma_pow2_adds(e as nat, 149);
    assert((f * pow2(e as nat)) * pow2(149) == g * q) by (nonlinear_arith)
        requires
            g == f * p,
            pow2(e as nat) * pow2(149) == p * q,
    ;
}

/// Limiting changes only what lies beyond full scale, and brings that to full scale.
pub proof fn law_limited_samples_are_within_full_scale(x: u32)
    ensures
        magnitude(x) <= 0x3f80_0000 ==> limited(x) == x,
        0x3f80_0000 < magnitude(x) <= 0x7f80_0000 ==> limited(x) == if x < 0x8000_0000 {
            0x3f80_0000u32
        } else {
            0xbf80_0000u32
        },
        magnitude(x) > 0x7f80_0000 ==> limited(x) == x,
{
}

} // verus!
