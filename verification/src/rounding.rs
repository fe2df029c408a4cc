//! Rounding of exact non-negative quantities to the binary32 grid.
//!
//! Every finite binary32 value is an integral multiple of 2^-149, the smallest
//! positive subnormal.  That multiple, a natural number, is what this module
//! calls a number of *units*; the 31 low bits that encode it are its
//! *magnitude*.

use vstd::prelude::*;
use vstd::arithmetic::power2::*;

verus! {

/// Magnitude of infinity; every finite magnitude is below it.
pub const INFINITE: u32 = 0x7f80_0000;

/// Number of units that a finite magnitude stands for.
pub open spec fn units(magnitude: nat) -> nat {
    let exponent = magnitude / 0x80_0000;
    let fraction = magnitude % 0x80_0000;
    if exponent == 0 {
        fraction
    } else {
        (0x80_0000 + fraction) * pow2((exponent - 1) as nat)
    }
}

/// Least number of low bits to drop so that `q` fits in `p` bits.
pub open spec fn excess_bits(q: nat, p: nat) -> nat
    decreases q,
{
    if q < pow2(p) {
        0
    } else {
        proof {
            lemma_pow2_pos(p);
        }
        1 + excess_bits(q / 2, p)
    }
}

/// `n / d` rounded to a significand of `p` bits: the significand, and the number of
/// bits dropped below it.  A tie goes to the even significand, and one that is
/// rounded up may reach 2^p.
pub open spec fn rounded(n: nat, d: nat, p: nat) -> (nat, nat) {
    let k = excess_bits(n / d, p);
    let step = d * pow2(k);
    let m = n / step;
    let rest = n % step;
    let up = 2 * rest > step || (2 * rest == step && m % 2 == 1);
    (if up { m + 1 } else { m }, k)
}

/// Magnitude that encodes the significand `m` followed by `k` dropped bits.
/// A significand of 2^24 carries into the exponent, and what lies beyond the
/// largest finite value becomes infinity.
pub open spec fn encoded(m: nat, k: nat) -> nat {
    let code = k * 0x80_0000 + m;
    if code < INFINITE {
        code
    } else {
        INFINITE as nat
    }
}

/// Magnitude of the binary32 value nearest to `n / d` units; of two equally near
/// values the one with the even significand.
pub open spec fn nearest(n: nat, d: nat) -> nat {
    let (m, k) = rounded(n, d, 24);
    encoded(m, k)
}

/// One in the units of the binary64 format, which are multiples of 2^-1074.
pub open spec fn double_one() -> nat {
    pow2(1074)
}

/// The binary64 value nearest to the quotient `n / d` of two integers, as a
/// multiple of 2^-1074.  Meant for quotients far below the largest binary64 value.
pub open spec fn double_quotient(n: nat, d: nat) -> nat {
    let (m, k) = rounded(n * double_one(), d, 53);
    m * pow2(k)
}

/// The binary64 value nearest to an integer.  It is an integer too.
pub open spec fn double_integer(v: nat) -> nat {
    let (m, k) = rounded(v, 1, 53);
    m * pow2(k)
}

/// `n / d` lies in `[sig, sig + 1) * 2^exp`, and off the lower end exactly when
/// `inexact`.
pub open spec fn brackets(n: nat, d: nat, sig: nat, exp: int, inexact: bool) -> bool {
    let up = pow2(if exp > 0 { exp as nat } else { 0 });
    let down = pow2(if exp > 0 { 0 } else { (-exp) as nat });
    &&& sig * (up * d) <= n * down
    &&& n * down < (sig + 1) * (up * d)
    &&& inexact <==> n * down != sig * (up * d)
}

proof fn lemma_pow2_24()
    ensures
        pow2(0) == 1,
        pow2(23) == 0x80_0000,
        pow2(24) == 0x100_0000,
{
    lemma2_to64();
}

/// `excess_bits` is pinned down by the two bounds on what is kept.
pub proof fn lemma_excess_bits(q: nat, p: nat, k: nat)
    requires
        p > 0,
        q < pow2(p + k),
        k == 0 || q >= pow2((p - 1 + k) as nat),
    ensures
        excess_bits(q, p) == k,
    decreases k,
{
    if k > 0 {
        lemma_pow2_unfold(p + k);
        lemma_pow2_unfold((p - 1 + k) as nat);
        if k > 1 {
            lemma_pow2_strictly_increases(p, (p - 1 + k) as nat);
        }
        lemma_excess_bits(q / 2, p, (k - 1) as nat);
    }
}

/// The two bounds that `excess_bits` keeps.
pub proof fn lemma_excess_bounds(q: nat, p: nat)
    requires
        p > 0,
    ensures
        q < pow2(p + excess_bits(q, p)),
        excess_bits(q, p) == 0 || q >= pow2((p - 1 + excess_bits(q, p)) as nat),
    decreases q,
{
    if q >= pow2(p) {
        lemma_pow2_pos(p);
        lemma_excess_bounds(q / 2, p);
        let k = excess_bits(q / 2, p);
        lemma_pow2_unfold(p + k + 1);
        if k > 0 {
            lemma_pow2_unfold((p + k) as nat);
        }
    }
}

/// The result of rounding, from a significand and what is left below it.
proof fn lemma_rounded(n: nat, d: nat, p: nat, m: nat, k: nat, up: bool)
    requires
        d > 0,
        p > 0,
        m < pow2(p),
        k == 0 || m >= pow2((p - 1) as nat),
        m * (d * pow2(k)) <= n < (m + 1) * (d * pow2(k)),
        up <==> {
            ||| 2 * (n - m * (d * pow2(k))) > d * pow2(k)
            ||| 2 * (n - m * (d * pow2(k))) == d * pow2(k) && m % 2 == 1
        },
    ensures
        rounded(n, d, p) == (if up { m + 1 } else { m }, k),
{
    let f = pow2(k);
    let step = d * f;
    let limit = pow2(p);
    let floor = pow2((p - 1) as nat);
    lemma_pow2_pos(k);
    assert(step > 0) by (nonlinear_arith)
        requires
            step == d * f,
            d > 0,
            f > 0,
    ;
    assert((m + 1) * step == m * step + step) by (nonlinear_arith);
    assert(n / step == m && n % step == n - m * step) by {
        vstd::arithmetic::div_mod::lemma_fundamental_div_mod_converse(
            n as int,
            step as int,
            m as int,
            n - m * step,
        );
    }
    let q = n / d;
    assert(q < limit * f) by (nonlinear_arith)
        requires
            q == n / d,
            d > 0,
            n < (m + 1) * step,
            step == d * f,
            m < limit,
    {
        assert((m + 1) * (d * f) <= limit * (d * f));
        assert(n < d * (limit * f));
        assert(q * d <= n);
        if q >= limit * f {
            assert(q * d >= (limit * f) * d);
        }
    }
    lemma_pow2_adds(p, k);
    if k > 0 {
        assert(q >= floor * f) by (nonlinear_arith)
            requires
                q == n / d,
                d > 0,
                n >= m * step,
                step == d * f,
                m >= floor,
        {
            assert(m * (d * f) >= floor * (d * f));
            assert(n >= d * (floor * f));
            assert(n < (q + 1) * d);
            if q < floor * f {
                assert((q + 1) * d <= (floor * f) * d);
            }
        }
        lemma_pow2_adds((p - 1) as nat, k);
    }
    lemma_excess_bits(q, p, k);
}

/// The significand before rounding up, its bounds and what is left below it.
proof fn lemma_rounded_parts(n: nat, d: nat, p: nat) -> (m: nat)
    requires
        d > 0,
        p > 0,
    ensures
        ({
            let k = excess_bits(n / d, p);
            let step = d * pow2(k);
            &&& step > 0
            &&& m == n / step
            &&& n == m * step + n % step
            &&& n % step < step
            &&& m < pow2(p)
            &&& k == 0 || m >= pow2((p - 1) as nat)
        }),
{
    let q = n / d;
    let k = excess_bits(q, p);
    let f = pow2(k);
    let step = d * f;
    let limit = pow2(p);
    let floor = pow2((p - 1) as nat);
    let m = n / step;
    lemma_excess_bounds(q, p);
    lemma_pow2_pos(k);
    lemma_pow2_adds(p, k);
    assert(step > 0) by (nonlinear_arith)
        requires
            step == d * f,
            d > 0,
            f > 0,
    ;
    vstd::arithmetic::div_mod::lemma_fundamental_div_mod(n as int, step as int);
    assert(step * m == m * step) by (nonlinear_arith);
    assert(m < limit) by (nonlinear_arith)
        requires
            q == n / d,
            d > 0,
            q < limit * f,
            step == d * f,
            m * step <= n,
    {
        assert(n < (q + 1) * d);
        assert((q + 1) * d <= (limit * f) * d);
        assert((limit * f) * d == limit * step);
        if m >= limit {
            assert(m * step >= limit * step);
        }
    }
    if k > 0 {
        lemma_pow2_adds((p - 1) as nat, k);
        assert(m >= floor) by (nonlinear_arith)
            requires
                q == n / d,
                d > 0,
                q >= floor * f,
                step == d * f,
                n < m * step + step,
        {
            assert(n >= q * d);
            assert(q * d >= (floor * f) * d);
            assert((floor * f) * d == floor * step);
            if m < floor {
                assert((m + 1) * step <= floor * step);
                assert((m + 1) * step == m * step + step);
            }
        }
    }
    m
}

/// A binary64 quotient below 2^t is off by half of its last place at most, and by nothing
/// where the exact quotient is a multiple of that place.
pub proof fn lemma_double_quotient_error(n: nat, d: nat, t: nat) -> (k: nat)
    requires
        d > 0,
        n < pow2(t) * d,
    ensures
        k <= 1021 + t,
        2 * (double_quotient(n, d) * d) <= 2 * (n * double_one()) + d * pow2(k),
        2 * (n * double_one()) <= 2 * (double_quotient(n, d) * d) + d * pow2(k),
        (n * double_one()) % (d * pow2(k)) == 0 ==> double_quotient(n, d) * d == n * double_one(),
{
    let one = double_one();
    let whole = n * one;
    let m = lemma_rounded_parts(whole, d, 53);
    let q = whole / d;
    let k = excess_bits(q, 53);
    let f = pow2(k);
    let step = d * f;
    let (kept, dropped) = rounded(whole, d, 53);
    lemma_excess_bounds(q, 53);
    lemma_pow2_pos(1074);
    lemma_pow2_adds(t, 1074);
    let top = pow2(t) * one;
    assert(q < top) by (nonlinear_arith)
        requires
            q == whole / d,
            whole == n * one,
            n < pow2(t) * d,
            top == pow2(t) * one,
            d > 0,
            one > 0,
    {
        assert(whole < top * d);
        assert(q * d <= whole);
        if q >= top {
            assert(q * d >= top * d);
        }
    }
    if k > 1021 + t {
        if 52 + k > t + 1074 {
            lemma_pow2_strictly_increases(t + 1074, (52 + k) as nat);
        }
        assert(false);
    }
    assert((kept * f) * d == kept * step) by (nonlinear_arith)
        requires
            step == d * f,
    ;
    assert((m + 1) * step == m * step + step) by (nonlinear_arith);
    k
}

/// Rounding keeps the order.
pub proof fn lemma_nearest_is_monotone(n1: nat, n2: nat, d: nat)
    requires
        d > 0,
        n1 <= n2,
    ensures
        nearest(n1, d) <= nearest(n2, d),
{
    lemma_pow2_24();
    let m1 = lemma_rounded_parts(n1, d, 24);
    let m2 = lemma_rounded_parts(n2, d, 24);
    let k1 = excess_bits(n1 / d, 24);
    let k2 = excess_bits(n2 / d, 24);
    vstd::arithmetic::div_mod::lemma_div_is_ordered(n1 as int, n2 as int, d as int);
    lemma_excess_bounds(n1 / d, 24);
    lemma_excess_bounds(n2 / d, 24);
    if k1 > k2 {
        if 24 + k2 < 23 + k1 {
            lemma_pow2_strictly_increases(24 + k2, (23 + k1) as nat);
        }
        assert(false);
    }
    if k1 == k2 {
        let step = d * pow2(k1);
        let r1 = n1 % step;
        let r2 = n2 % step;
        if m1 > m2 {
            assert((m2 + 1) * step <= m1 * step) by (nonlinear_arith)
                requires
                    m2 + 1 <= m1,
            ;
            assert((m2 + 1) * step == m2 * step + step) by (nonlinear_arith);
            assert(false);
        }
    }
}

/// A larger finite magnitude stands for more units.
pub proof fn lemma_units_are_monotone(x: nat, y: nat)
    requires
        x <= y,
    ensures
        units(x) <= units(y),
{
    let ex = x / 0x80_0000;
    let ey = y / 0x80_0000;
    let fx = x % 0x80_0000;
    let fy = y % 0x80_0000;
    lemma_pow2_24();
    if ex == ey {
        if ex > 0 {
            let p = pow2((ex - 1) as nat);
            assert((0x80_0000 + fx) * p <= (0x80_0000 + fy) * p) by (nonlinear_arith)
                requires
                    fx <= fy,
            ;
        }
    } else if ex == 0 {
        let p = pow2((ey - 1) as nat);
        lemma_pow2_pos((ey - 1) as nat);
        assert(fx <= (0x80_0000 + fy) * p) by (nonlinear_arith)
            requires
                fx < 0x80_0000,
                p >= 1,
        ;
    } else {
        let p = pow2((ex - 1) as nat);
        let q = pow2((ey - 1) as nat);
        lemma_pow2_unfold(ex);
        if ex < ey - 1 {
            lemma_pow2_strictly_increases(ex, (ey - 1) as nat);
        }
        assert((0x80_0000 + fx) * p <= (0x80_0000 + fy) * q) by (nonlinear_arith)
            requires
                fx < 0x80_0000,
                q >= 2 * p,
        ;
    }
}

/// A value on the grid is its own nearest value.
pub proof fn lemma_nearest_on_grid(magnitude: nat, d: nat)
    requires
        magnitude < INFINITE,
        d > 0,
    ensures
        nearest(units(magnitude) * d, d) == magnitude,
{
    let e = magnitude / 0x80_0000;
    let f = magnitude % 0x80_0000;
    let k: nat = if e == 0 { 0 } else { (e - 1) as nat };
    let m: nat = if e == 0 { f } else { 0x80_0000 + f };
    lemma_pow2_24();
    let kk = pow2(k);
    lemma_pow2_pos(k);
    let n = units(magnitude) * d;
    let step = d * kk;
    assert(n == m * step && step > 0) by (nonlinear_arith)
        requires
            n == units(magnitude) * d,
            units(magnitude) == m * kk,
            step == d * kk,
            kk > 0,
            d > 0,
    ;
    assert((m + 1) * step == m * step + step) by (nonlinear_arith);
    lemma_rounded(n, d, 24, m, k, false);
}

/// What an encoded significand stands for.
pub proof fn lemma_units_of_encoded(m: nat, k: nat)
    requires
        m <= 0x100_0000,
        k == 0 || m >= 0x80_0000,
        encoded(m, k) < INFINITE,
    ensures
        units(encoded(m, k)) == m * pow2(k),
{
    lemma_pow2_24();
    let code = k * 0x80_0000 + m;
    if m == 0x100_0000 {
        assert(code / 0x80_0000 == k + 2 && code % 0x80_0000 == 0);
        lemma_pow2_unfold(k + 1);
        let p = pow2(k);
        assert(m * p == 0x80_0000 * (2 * p)) by (nonlinear_arith)
            requires
                m == 0x100_0000,
        ;
        assert((0x80_0000 + code % 0x80_0000) * pow2(k + 1) == 0x80_0000 * pow2(k + 1));
    } else if m >= 0x80_0000 {
        assert(code / 0x80_0000 == k + 1 && code % 0x80_0000 == m - 0x80_0000);
    } else {
        assert(code / 0x80_0000 == 0 && code % 0x80_0000 == m);
        assert(m * pow2(0) == m) by (nonlinear_arith)
            requires
                pow2(0) == 1,
        ;
    }
}

/// How far the nearest value lies from an exact one: by half a last place at most.
proof fn lemma_nearest_place(n: nat, d: nat) -> (k: nat)
    requires
        d > 0,
        nearest(n, d) < INFINITE,
    ensures
        ({
            let u = units(nearest(n, d));
            &&& k == excess_bits(n / d, 24)
            &&& 2 * (u * d) <= 2 * n + d * pow2(k)
            &&& 2 * n <= 2 * (u * d) + d * pow2(k)
            &&& k == 0 || u >= 0x80_0000 * pow2(k)
            &&& n % (d * pow2(k)) == 0 ==> u * d == n
        }),
{
    lemma_pow2_24();
    let m = lemma_rounded_parts(n, d, 24);
    let (kept, k) = rounded(n, d, 24);
    let f = pow2(k);
    let step = d * f;
    lemma_units_of_encoded(kept, k);
    let u = kept * f;
    assert(u * d == kept * step && (m + 1) * step == m * step + step) by (nonlinear_arith)
        requires
            u == kept * f,
            step == d * f,
    ;
    if k > 0 {
        assert(u >= 0x80_0000 * f) by (nonlinear_arith)
            requires
                u == kept * f,
                kept >= 0x80_0000,
        ;
    }
    k
}

/// The nearest value is off by a 2^24-th of itself, or by half a unit, at most.
pub proof fn lemma_nearest_is_close(n: nat, d: nat)
    requires
        d > 0,
        nearest(n, d) < INFINITE,
    ensures
        ({
            let u = units(nearest(n, d));
            &&& 0x100_0000 * (u * d) <= 0x100_0000 * n + u * d + 0x80_0000 * d
            &&& 0x100_0000 * n <= 0x100_0000 * (u * d) + u * d + 0x80_0000 * d
        }),
{
    let k = lemma_nearest_place(n, d);
    let f = pow2(k);
    let u = units(nearest(n, d));
    lemma_pow2_24();
    assert(0x80_0000 * (d * f) <= u * d + 0x80_0000 * d) by (nonlinear_arith)
        requires
            u >= 0x80_0000 * f || f == 1,
            d > 0,
    {
        if u >= 0x80_0000 * f {
            assert(u * d >= (0x80_0000 * f) * d);
        }
    }
}

/// The value nearest to a whole number of units is off by a 2^24-th of itself at most.
pub proof fn lemma_nearest_whole_is_close(n: nat)
    requires
        nearest(n, 1) < INFINITE,
    ensures
        0x100_0000 * n <= 0x100_0000 * units(nearest(n, 1)) + units(nearest(n, 1)),
        0x100_0000 * units(nearest(n, 1)) <= 0x100_0000 * n + units(nearest(n, 1)),
{
    let k = lemma_nearest_place(n, 1);
    let f = pow2(k);
    let u = units(nearest(n, 1));
    lemma_pow2_24();
    if k == 0 {
        assert(n % (1 * f) == 0) by (nonlinear_arith)
            requires
                f == 1,
        ;
    }
}

/// A number of at most 24 bits, scaled by a power of two, is on the grid.
pub proof fn lemma_nearest_is_exact(a: nat, e: nat, d: nat)
    requires
        a < 0x100_0000,
        d > 0,
        nearest((a * pow2(e)) * d, d) < INFINITE,
    ensures
        units(nearest((a * pow2(e)) * d, d)) == a * pow2(e),
{
    let whole = a * pow2(e);
    let n = whole * d;
    let k = lemma_nearest_place(n, d);
    let u = units(nearest(n, d));
    lemma_pow2_24();
    lemma_pow2_pos(e);
    assert(n / d == whole) by {
        vstd::arithmetic::div_mod::lemma_div_by_multiple(whole as int, d as int);
    }
    lemma_excess_bounds(whole, 24);
    lemma_pow2_adds(24, e);
    assert(whole < 0x100_0000 * pow2(e)) by (nonlinear_arith)
        requires
            whole == a * pow2(e),
            a < 0x100_0000,
            pow2(e) > 0,
    ;
    if k > e {
        if 23 + k > 24 + e {
            lemma_pow2_strictly_increases(24 + e, (23 + k) as nat);
        }
        assert(false);
    }
    let f = pow2(k);
    let g = pow2((e - k) as nat);
    lemma_pow2_pos(k);
    lemma_pow2_adds((e - k) as nat, k);
    assert(n == (a * g) * (d * f) && d * f > 0) by (nonlinear_arith)
        requires
            n == (a * (g * f)) * d,
            d > 0,
            f > 0,
    ;
    vstd::arithmetic::div_mod::lemma_mod_multiples_basic((a * g) as int, (d * f) as int);
    assert(u == whole) by (nonlinear_arith)
        requires
            u * d == whole * d,
            d > 0,
    ;
}

/// Rounding looks only at the quotient.
pub proof fn lemma_rounded_of_equal_ratio(n: nat, d: nat, c: nat, p: nat)
    requires
        d > 0,
        c > 0,
        p > 0,
    ensures
        rounded(n * c, d * c, p) == rounded(n, d, p),
{
    let m = lemma_rounded_parts(n, d, p);
    let k = excess_bits(n / d, p);
    let f = pow2(k);
    let step = d * f;
    let wide = (d * c) * f;
    let rest = n % step;
    let up = 2 * rest > step || (2 * rest == step && m % 2 == 1);
    assert(d * c > 0) by (nonlinear_arith)
        requires
            d > 0,
            c > 0,
    ;
    assert(wide == step * c && n * c == m * wide + rest * c && rest * c < wide) by (nonlinear_arith)
        requires
            step == d * f,
            wide == (d * c) * f,
            n == m * step + rest,
            rest < step,
            c > 0,
    ;
    assert((m + 1) * wide == m * wide + wide) by (nonlinear_arith);
    let over = 2 * rest - step;
    assert(over * c == 2 * (rest * c) - wide) by (nonlinear_arith)
        requires
            over == 2 * rest - step,
            wide == step * c,
    ;
    assert((over > 0 <==> over * c > 0) && (over == 0 <==> over * c == 0)) by (nonlinear_arith)
        requires
            c > 0,
    ;
    lemma_rounded(n * c, d * c, p, m, k, up);
}

/// The rounding decision taken on an integer significand `sig = m * 2^t + low` that
/// stands for `[sig, sig + 1) * 2^exp` agrees with `rounded`.
proof fn lemma_rounded_of_bracket(
    n: nat,
    d: nat,
    p: nat,
    sig: nat,
    exp: int,
    inexact: bool,
    m: nat,
    t: nat,
    k: nat,
    up: bool,
)
    requires
        d > 0,
        brackets(n, d, sig, exp, inexact),
        p > 0,
        t > 0,
        k == t + exp,
        m == sig / pow2(t),
        m < pow2(p),
        k == 0 || m >= pow2((p - 1) as nat),
        up <==> {
            let low = sig % pow2(t);
            let half = pow2((t - 1) as nat);
            ||| low > half
            ||| low == half && (inexact || m % 2 == 1)
        },
    ensures
        rounded(n, d, p) == (if up { m + 1 } else { m }, k),
{
    let w = pow2(if exp > 0 { exp as nat } else { 0 });
    let q = pow2(if exp > 0 { 0 } else { (-exp) as nat });
    let tt = pow2(t);
    let kk = pow2(k);
    let half = pow2((t - 1) as nat);
    let low = sig % tt;
    let a = w * d;
    let nq = n * q;
    lemma_pow2_24();
    lemma_pow2_pos(t);
    lemma_pow2_pos(k);
    lemma_pow2_unfold(t);
    lemma_pow2_pos((t - 1) as nat);
    if exp > 0 {
        lemma_pow2_pos(exp as nat);
        lemma_pow2_adds(exp as nat, t);
        assert(w * tt == q * kk) by (nonlinear_arith)
            requires
                w * tt == kk,
                q == 1,
        ;
    } else {
        lemma_pow2_pos((-exp) as nat);
        lemma_pow2_adds((-exp) as nat, k);
        assert(w * tt == q * kk) by (nonlinear_arith)
            requires
                tt == q * kk,
                w == 1,
        ;
    }
    vstd::arithmetic::div_mod::lemma_fundamental_div_mod(sig as int, tt as int);
    assert(sig == m * tt + low && low < tt) by (nonlinear_arith)
        requires
            sig == tt * (sig / tt) + sig % tt,
            m == sig / tt,
            low == sig % tt,
            tt > 0,
    ;
    let step = d * kk;
    // step * q == a * tt
    assert(step * q == a * tt) by (nonlinear_arith)
        requires
            step == d * kk,
            a == w * d,
            w * tt == q * kk,
    ;
    let rest = nq - m * (a * tt);
    assert(sig * a == m * (a * tt) + low * a) by (nonlinear_arith)
        requires
            sig == m * tt + low,
    ;
    assert((sig + 1) * a == m * (a * tt) + (low + 1) * a) by (nonlinear_arith)
        requires
            sig == m * tt + low,
    ;
    assert((low + 1) * a <= a * tt) by (nonlinear_arith)
        requires
            low + 1 <= tt,
    ;
    assert((m + 1) * (a * tt) == m * (a * tt) + a * tt) by (nonlinear_arith);
    assert(low * a <= rest < (low + 1) * a);
    assert(m * step * q == m * (a * tt) && (m + 1) * step * q == (m + 1) * (a * tt))
        by (nonlinear_arith)
        requires
            step * q == a * tt,
    ;
    assert(m * step <= n) by (nonlinear_arith)
        requires
            m * step * q <= n * q,
            q > 0,
    ;
    assert(n < (m + 1) * step) by (nonlinear_arith)
        requires
            n * q < (m + 1) * step * q,
            q > 0,
    ;
    // Comparing 2 * (n - m * step) with step is comparing low (plus what is
    // below it) with half.
    let over = 2 * (n - m * step) - step;
    assert(over * q == 2 * rest - a * tt) by (nonlinear_arith)
        requires
            over == 2 * (n - m * step) - step,
            m * step * q == m * (a * tt),
            step * q == a * tt,
            rest == n * q - m * (a * tt),
    ;
    assert(a * tt == 2 * (half * a)) by (nonlinear_arith)
        requires
            tt == 2 * half,
    ;
    assert(a > 0) by (nonlinear_arith)
        requires
            a == w * d,
            w > 0,
            d > 0,
    ;
    if low > half {
        assert(low * a >= (half + 1) * a) by (nonlinear_arith)
            requires
                low >= half + 1,
        ;
        assert((half + 1) * a == half * a + a) by (nonlinear_arith);
    } else if low < half {
        assert((low + 1) * a <= half * a) by (nonlinear_arith)
            requires
                low + 1 <= half,
        ;
    }
    assert(over > 0 <==> over * q > 0) by (nonlinear_arith)
        requires
            q > 0,
    ;
    assert(over == 0 <==> over * q == 0) by (nonlinear_arith)
        requires
            q > 0,
    ;
    lemma_rounded(n, d, p, m, k, up);
}

/// The same for a significand that fits without dropping bits.
proof fn lemma_rounded_exact(n: nat, d: nat, p: nat, sig: nat, exp: nat, k: nat)
    requires
        d > 0,
        brackets(n, d, sig, exp as int, false),
        p > 0,
        k <= exp,
        sig * pow2((exp - k) as nat) < pow2(p),
        k == 0 || sig * pow2((exp - k) as nat) >= pow2((p - 1) as nat),
    ensures
        rounded(n, d, p) == (sig * pow2((exp - k) as nat), k),
{
    lemma_pow2_24();
    let shift = pow2((exp - k) as nat);
    let m = sig * shift;
    lemma_pow2_adds((exp - k) as nat, k);
    let kk = pow2(k);
    let w = pow2(exp);
    lemma_pow2_pos(k);
    let down = pow2(0);
    assert(n == m * (d * kk)) by (nonlinear_arith)
        requires
            n * down == sig * (w * d),
            down == 1,
            w == shift * kk,
            m == sig * shift,
    ;
    assert(d * kk > 0) by (nonlinear_arith)
        requires
            d > 0,
            kk > 0,
    ;
    assert((m + 1) * (d * kk) == m * (d * kk) + d * kk) by (nonlinear_arith);
    lemma_rounded(n, d, p, m, k, false);
}

/// Number of bits up to and with the highest one that is set.
pub(crate) fn bit_length(x: u64) -> (l: u32)
    requires
        x > 0,
    ensures
        1 <= l <= 64,
        pow2((l - 1) as nat) <= x,
        x < pow2(l as nat),
{
    let zeros = x.leading_zeros();
    proof {
        broadcast use vstd::std_specs::bits::axiom_u64_leading_zeros;

        let top = (63 - zeros) as u64;
        let above = (64 - zeros) as u64;
        assert(x >> top == 1u64) by (bit_vector)
            requires
                (x >> top) & 1u64 != 0u64,
                top <= 63,
                above == top + 1,
                x >> above == 0u64,
        ;
        vstd::bits::lemma_u64_shr_is_div(x, top);
        lemma_pow2_pos(top as nat);
        vstd::arithmetic::div_mod::lemma_fundamental_div_mod(x as int, pow2(top as nat) as int);
        lemma_pow2_unfold((top + 1) as nat);
    }
    64 - zeros
}

/// Rounds the quantity `n / d`, known through an integer significand, to its
/// nearest magnitude.
pub(crate) fn round_significand(
    sig: u64,
    exp: i32,
    inexact: bool,
    Ghost(n): Ghost<nat>,
    Ghost(d): Ghost<nat>,
) -> (magnitude: u32)
    requires
        d > 0,
        -1000 <= exp <= 1000,
        sig < 0x8000_0000_0000_0000,
        brackets(n, d, sig as nat, exp as int, inexact),
        inexact ==> sig >= 0x100_0000,
    ensures
        magnitude == nearest(n, d),
{
    if sig == 0 {
        proof {
            lemma_pow2_24();
            if exp > 0 {
                lemma_rounded_exact(n, d, 24, 0, exp as nat, 0);
            } else {
                let down = pow2((-exp) as nat);
                let unit = pow2(0) * d;
                lemma_pow2_pos((-exp) as nat);
                assert(n == 0) by (nonlinear_arith)
                    requires
                        n * down == 0 * unit,
                        down > 0,
                ;
                assert(0 * (d * pow2(0)) == 0 && 1 * (d * pow2(0)) == d) by (nonlinear_arith)
                    requires
                        pow2(0) == 1,
                ;
                lemma_rounded(n, d, 24, 0, 0, false);
            }
        }
        return 0;
    }
    let length: i32 = bit_length(sig) as i32;
    let k: i32 = if exp + length > 24 { exp + length - 24 } else { 0 };
    let t: i32 = k - exp;
    let m: u64;
    let up: bool;
    if t <= 0 {
        let left: u64 = (0 - t) as u64;
        proof {
            lemma_pow2_24();
            lemma_pow2_adds(length as nat, left as nat);
            lemma_pow2_pos(left as nat);
            let p = pow2(left as nat);
            let top = pow2(length as nat);
            assert(sig * p < top * p) by (nonlinear_arith)
                requires
                    sig < top,
                    p > 0,
            ;
            assert(sig <= sig * p) by (nonlinear_arith)
                requires
                    p > 0,
            ;
            if length + left < 24 {
                lemma_pow2_strictly_increases((length + left) as nat, 24);
            }
            vstd::bits::lemma_u64_shl_is_mul(sig, left);
            if k > 0 {
                lemma_pow2_adds((length - 1) as nat, left as nat);
                let bottom = pow2((length - 1) as nat);
                assert(sig * p >= bottom * p) by (nonlinear_arith)
                    requires
                        sig >= bottom,
                ;
            }
            assert(left == exp - k);
            lemma_rounded_exact(n, d, 24, sig as nat, exp as nat, k as nat);
        }
        m = sig << left;
        up = false;
    } else if t >= 64 {
        proof {
            lemma_pow2_24();
            lemma2_to64_rest();
            if t > 64 {
                lemma_pow2_strictly_increases(63, (t - 1) as nat);
                lemma_pow2_strictly_increases(64, t as nat);
            }
            assert(sig as nat / pow2(t as nat) == 0) by {
                vstd::arithmetic::div_mod::lemma_basic_div(sig as int, pow2(t as nat) as int);
            }
            assert(sig as nat % pow2(t as nat) == sig) by {
                vstd::arithmetic::div_mod::lemma_small_mod(sig as nat, pow2(t as nat));
            }
            lemma_rounded_of_bracket(n, d, 24, sig as nat, exp as int, inexact, 0, t as nat, 0, false);
        }
        m = 0;
        up = false;
    } else {
        proof {
            lemma2_to64_rest();
            if t < 63 {
                lemma_pow2_strictly_increases(t as nat, 63);
            }
            lemma_pow2_pos(t as nat);
            vstd::bits::lemma_u64_shl_is_mul(1, t as u64);
        }
        let unit: u64 = 1u64 << (t as u64);
        m = sig / unit;
        let low: u64 = sig % unit;
        let half: u64 = unit / 2;
        up = low > half || (low == half && (inexact || m % 2 == 1));
        proof {
            lemma_pow2_24();
            lemma_pow2_unfold(t as nat);
            lemma_pow2_adds(24, t as nat);
            if length < 24 + t {
                lemma_pow2_strictly_increases(length as nat, (24 + t) as nat);
            }
            assert(m < 0x100_0000) by (nonlinear_arith)
                requires
                    m == sig / unit,
                    unit > 0,
                    sig < 0x100_0000 * unit,
            {
                assert(m * unit <= sig);
                if m >= 0x100_0000 {
                    assert(m * unit >= 0x100_0000 * unit);
                }
            }
            if k > 0 {
                lemma_pow2_adds(23, t as nat);
                assert(m >= 0x80_0000) by (nonlinear_arith)
                    requires
                        m == sig / unit,
                        unit > 0,
                        sig >= 0x80_0000 * unit,
                {
                    assert(sig < (m + 1) * unit);
                    if m < 0x80_0000 {
                        assert((m + 1) * unit <= 0x80_0000 * unit);
                    }
                }
            }
            lemma_rounded_of_bracket(
                n,
                d,
                24,
                sig as nat,
                exp as int,
                inexact,
                m as nat,
                t as nat,
                k as nat,
                up,
            );
        }
    }
    let code: u64 = (k as u64) * 0x80_0000 + if up { m + 1 } else { m };
    if code < INFINITE as u64 {
        code as u32
    } else {
        INFINITE
    }
}

/// Integers of up to 53 bits are binary64 values.
pub proof fn lemma_double_integer_is_exact(v: nat)
    requires
        v < 0x20_0000_0000_0000,
    ensures
        double_integer(v) == v,
{
    lemma2_to64();
    lemma2_to64_rest();
    assert(v * (1 * pow2(0)) == v && (v + 1) * (1 * pow2(0)) == v + 1 && v * pow2(0) == v)
        by (nonlinear_arith)
        requires
            pow2(0) == 1,
    ;
    lemma_rounded(v, 1, 53, v, 0, false);
}

/// The binary64 value nearest to an integer.
pub(crate) fn to_double_integer(v: u64) -> (r: u64)
    requires
        v < 0x8000_0000_0010_0000,
    ensures
        r == double_integer(v as nat),
        v < 0x20_0000_0000_0000 ==> r == v,
        r <= v + 0x400,
{
    if v < 0x20_0000_0000_0000 {
        proof {
            lemma_double_integer_is_exact(v as nat);
        }
        return v;
    }
    let k: u32 = {
        let length: u32 = bit_length(v);
        proof {
            lemma2_to64();
            lemma2_to64_rest();
            if length < 53 {
                lemma_pow2_strictly_increases(length as nat, 53);
            }
        }
        length - 53
    };
    proof {
        lemma2_to64();
        lemma2_to64_rest();
        lemma_pow2_adds(53, k as nat);
        lemma_pow2_adds(52, k as nat);
        vstd::bits::lemma_u64_shl_is_mul(1, k as u64);
        lemma_pow2_unfold(k as nat);
        if k < 11 {
            lemma_pow2_strictly_increases(k as nat, 11);
        }
    }
    let unit: u64 = 1u64 << (k as u64);
    let m: u64 = v / unit;
    let rest: u64 = v % unit;
    let half: u64 = unit / 2;
    let up: bool = rest > half || (rest == half && m % 2 == 1);
    proof {
        let step = 1 * pow2(k as nat);
        assert(step == unit) by (nonlinear_arith)
            requires
                step == 1 * pow2(k as nat),
                unit == pow2(k as nat),
        ;
        assert(v == m * unit + rest && rest < unit && (m + 1) * unit == m * unit + unit)
            by (nonlinear_arith)
            requires
                m == v / unit,
                rest == v % unit,
                unit > 0,
        ;
        assert(0x10_0000_0000_0000 <= m < 0x20_0000_0000_0000) by (nonlinear_arith)
            requires
                v == m * unit + rest,
                rest < unit,
                0x10_0000_0000_0000 * unit <= v < 0x20_0000_0000_0000 * unit,
        ;
        lemma_rounded(v as nat, 1, 53, m as nat, k as nat, up);
    }
    if up {
        (m + 1) * unit
    } else {
        m * unit
    }
}

/// Division of two integers in the binary64 format, as a 53-bit significand and
/// the number of its bits that lie behind the binary point.
pub(crate) fn divide_in_double(n: u64, d: u64) -> (r: (u64, u32))
    requires
        0 < d < 0x200_0000,
        n < d * 0x20_0000_0000_0000,
    ensures
        r.0 <= 0x20_0000_0000_0000,
        r.1 <= 78,
        double_quotient(n as nat, d as nat) == r.0 * pow2((1074 - r.1) as nat),
{
    proof {
        lemma2_to64();
        lemma2_to64_rest();
        lemma_pow2_pos(1074);
    }
    let ghost one = double_one();
    if n == 0 {
        proof {
            let unit = d * pow2(0);
            assert(unit == d && 0 * one == 0 && 0 * unit == 0 && 1 * unit == d) by (nonlinear_arith)
                requires
                    unit == d * pow2(0),
                    pow2(0) == 1,
            ;
            lemma_rounded(0, d as nat, 53, 0, 0, false);
            assert(0 * pow2(1074) == 0 && 0 * pow2(0) == 0) by (nonlinear_arith);
        }
        return (0, 0);
    }
    let j: u32;
    if n >= d {
        let w: u64 = n / d;
        assert(1 <= w < 0x20_0000_0000_0000 && w * d <= n < (w + 1) * d) by (nonlinear_arith)
            requires
                w == n / d,
                n >= d,
                d > 0,
                n < d * 0x20_0000_0000_0000,
        ;
        let l: u32 = bit_length(w);
        proof {
            if l > 53 {
                if l > 54 {
                    lemma_pow2_strictly_increases(53, (l - 1) as nat);
                }
            }
            let high = pow2(l as nat);
            let low = pow2((l - 1) as nat);
            assert(d * low <= n && n < d * high) by (nonlinear_arith)
                requires
                    w * d <= n,
                    n < (w + 1) * d,
                    low <= w,
                    w + 1 <= high,
            ;
            let f = pow2((53 - l) as nat);
            lemma_pow2_adds(l as nat, (53 - l) as nat);
            lemma_pow2_adds((l - 1) as nat, (53 - l) as nat);
            lemma_pow2_pos((53 - l) as nat);
            assert(d * pow2(52) <= n * f && n * f < d * pow2(53)) by (nonlinear_arith)
                requires
                    d * low <= n,
                    n < d * high,
                    low * f == pow2(52),
                    high * f == pow2(53),
                    f > 0,
            {
                assert((d * low) * f <= n * f);
                assert(n * f < (d * high) * f);
                assert((d * low) * f == d * (low * f));
                assert((d * high) * f == d * (high * f));
            }
        }
        j = 53 - l;
    } else {
        let scaled: u64 = n * 0x200_0000;
        let w: u64 = scaled / d;
        assert(1 <= w < 0x200_0000 && w * d <= scaled < (w + 1) * d) by (nonlinear_arith)
            requires
                w == scaled / d,
                scaled == n * 0x200_0000,
                0 < n < d,
                d < 0x200_0000,
        ;
        let l: u32 = bit_length(w);
        proof {
            if l > 25 {
                if l > 26 {
                    lemma_pow2_strictly_increases(25, (l - 1) as nat);
                }
            }
            let high = pow2(l as nat);
            let low = pow2((l - 1) as nat);
            assert(d * low <= scaled && scaled < d * high) by (nonlinear_arith)
                requires
                    w * d <= scaled,
                    scaled < (w + 1) * d,
                    low <= w,
                    w + 1 <= high,
            ;
            let g = pow2((53 - l) as nat);
            let f = pow2((78 - l) as nat);
            lemma_pow2_adds(25, (53 - l) as nat);
            lemma_pow2_adds(l as nat, (53 - l) as nat);
            lemma_pow2_adds((l - 1) as nat, (53 - l) as nat);
            lemma_pow2_pos((53 - l) as nat);
            assert(d * pow2(52) <= n * f && n * f < d * pow2(53)) by (nonlinear_arith)
                requires
                    d * low <= scaled,
                    scaled < d * high,
                    scaled == n * 0x200_0000,
                    low * g == pow2(52),
                    high * g == pow2(53),
                    f == 0x200_0000 * g,
                    g > 0,
            {
                assert((d * low) * g <= scaled * g);
                assert(scaled * g < (d * high) * g);
                assert((d * low) * g == d * (low * g));
                assert((d * high) * g == d * (high * g));
                assert(scaled * g == n * f);
            }
        }
        j = 78 - l;
    }
    let j1: u32 = j / 2;
    let j2: u32 = j - j1;
    proof {
        lemma_pow2_adds(j1 as nat, j2 as nat);
        lemma_pow2_strictly_increases(j1 as nat, 40);
        lemma_pow2_strictly_increases(j2 as nat, 40);
        lemma_pow2_pos(j1 as nat);
        lemma_pow2_pos(j2 as nat);
        vstd::bits::lemma_u64_shl_is_mul(1, j1 as u64);
        vstd::bits::lemma_u64_shl_is_mul(1, j2 as u64);
    }
    let f1: u64 = 1u64 << (j1 as u64);
    let f2: u64 = 1u64 << (j2 as u64);
    let ghost f = pow2(j as nat);
    assert(n * f1 <= n * f && n * f1 * f2 == n * f) by (nonlinear_arith)
        requires
            f == f1 * f2,
            f2 >= 1,
    ;
    assert(d * pow2(53) < 0x200_0000 * 0x20_0000_0000_0000) by (nonlinear_arith)
        requires
            pow2(53) == 0x20_0000_0000_0000,
            d < 0x200_0000,
    ;
    let x: u128 = (n as u128) * (f1 as u128) * (f2 as u128);
    let m: u64 = (x / (d as u128)) as u64;
    let rest: u64 = (x % (d as u128)) as u64;
    assert(m == x / (d as u128) && rest == x % (d as u128) && x == m * d + rest && rest < d && m
        >= pow2(52) && m < pow2(53)) by {
        let mm = x / (d as u128);
        let rr = x % (d as u128);
        assert(x == mm * d + rr && rr < d) by (nonlinear_arith)
            requires
                mm == x / (d as u128),
                rr == x % (d as u128),
                d > 0,
        ;
        assert(mm < pow2(53) && mm >= pow2(52)) by (nonlinear_arith)
            requires
                x == mm * d + rr,
                rr < d,
                d * pow2(52) <= x,
                x < d * pow2(53),
                d > 0,
        ;
    }
    let up: bool = 2 * rest > d || (2 * rest == d && m % 2 == 1);
    let q: u64 = if up { m + 1 } else { m };
    proof {
        let k = (1074 - j) as nat;
        let g = pow2(k);
        lemma_pow2_adds(j as nat, k);
        lemma_pow2_pos(k);
        let big = (n as nat) * one;
        assert(big == x * g) by (nonlinear_arith)
            requires
                big == n * one,
                one == f * g,
                x == n * f,
        ;
        let step = d * g;
        assert(big == m * step + rest * g && rest * g < step && step > 0) by (nonlinear_arith)
            requires
                big == x * g,
                x == m * d + rest,
                step == d * g,
                rest < d,
                g > 0,
        ;
        assert((m + 1) * step == m * step + step) by (nonlinear_arith);
        let over = 2 * rest - d;
        assert(over * g == 2 * (rest * g) - step) by (nonlinear_arith)
            requires
                over == 2 * rest - d,
                step == d * g,
        ;
        assert((over > 0 <==> over * g > 0) && (over == 0 <==> over * g == 0))
            by (nonlinear_arith)
            requires
                g > 0,
        ;
        lemma_rounded(big, d as nat, 53, m as nat, k, up);
    }
    (q, j)
}

/// Values of the grid beside the one with the significand `m` and `k` dropped bits.
pub proof fn lemma_beside(m: nat, k: nat, x: nat)
    requires
        m <= 0x100_0000,
        k == 0 || m >= 0x80_0000,
        encoded(m, k) < INFINITE,
        x < INFINITE,
    ensures
        x > encoded(m, k) ==> units(x) >= (m + 1) * pow2(k),
        x < encoded(m, k) ==> units(x) + pow2(k) <= m * pow2(k) || (k > 0 && m == 0x80_0000
            && units(x) < m * pow2(k)),
{
    let r = encoded(m, k);
    let p = pow2(k);
    lemma_pow2_24();
    lemma_pow2_pos(k);
    lemma_units_of_encoded(m, k);
    if x > r {
        lemma_units_are_monotone((r + 1) as nat, x);
        if m < 0x100_0000 {
            lemma_units_of_encoded(m + 1, k);
        } else {
            lemma_units_of_encoded(0x80_0001, k + 1);
            lemma_pow2_unfold(k + 1);
            assert(0x80_0001 * (2 * p) >= (m + 1) * p) by (nonlinear_arith)
                requires
                    m == 0x100_0000,
            ;
        }
    } else if x < r {
        lemma_units_are_monotone(x, (r - 1) as nat);
        if k > 0 && m == 0x80_0000 {
            lemma_units_of_encoded(0xff_ffff, (k - 1) as nat);
            lemma_pow2_unfold(k);
            lemma_pow2_pos((k - 1) as nat);
            let q = pow2((k - 1) as nat);
            assert(0xff_ffff * q < m * p) by (nonlinear_arith)
                requires
                    m == 0x80_0000,
                    p == 2 * q,
                    q > 0,
            ;
        } else {
            lemma_units_of_encoded((m - 1) as nat, k);
            assert((m - 1) * p + p == m * p) by (nonlinear_arith);
        }
    }
}

/// Of all values none lies nearer to an exact quotient than the one it is rounded to, and
/// where another lies as near, the one with the even significand is taken.
pub proof fn law_no_value_lies_nearer(n: nat, d: nat, x: nat)
    requires
        d > 0,
        nearest(n, d) < INFINITE,
        x < INFINITE,
        x != nearest(n, d),
    ensures
        ({
            let off = units(nearest(n, d)) * d - n;
            let other = units(x) * d - n;
            let a = if off < 0 {
                -off
            } else {
                off
            };
            let b = if other < 0 {
                -other
            } else {
                other
            };
            a < b || (a == b && nearest(n, d) % 2 == 0)
        }),
{
    lemma_pow2_24();
    let m = lemma_rounded_parts(n, d, 24);
    let (kept, k) = rounded(n, d, 24);
    let r = nearest(n, d);
    let p = pow2(k);
    let step = d * p;
    let rest = n % step;
    lemma_units_of_encoded(kept, k);
    lemma_beside(kept, k, x);
    let u = kept * p;
    let w = units(x);
    assert(u * d == kept * step && (m + 1) * step == m * step + step) by (nonlinear_arith)
        requires
            u == kept * p,
            step == d * p,
    ;
    assert(r % 2 == kept % 2);
    if x > r {
        assert(w * d >= u * d + step) by (nonlinear_arith)
            requires
                w >= (kept + 1) * p,
                u == kept * p,
                step == d * p,
        {
            assert((kept + 1) * p == u + p);
            assert(w * d >= (u + p) * d);
        }
    } else if w + p <= u {
        assert(w * d + step <= u * d) by (nonlinear_arith)
            requires
                w + p <= u,
                step == d * p,
        {
            assert((w + p) * d <= u * d);
        }
    } else {
        assert(w * d < u * d) by (nonlinear_arith)
            requires
                w < u,
                d > 0,
        ;
        assert(kept == m);
    }
}

/// Rounding goes beyond the largest finite value exactly from halfway between it and the
/// next power of two on.
pub proof fn law_overflow_begins_half_a_place_beyond(n: nat, d: nat)
    requires
        d > 0,
    ensures
        nearest(n, d) <= INFINITE,
        nearest(n, d) == INFINITE <==> 2 * n >= 0x1ff_ffff * (d * pow2(253)),
{
    lemma_pow2_24();
    let m = lemma_rounded_parts(n, d, 24);
    let (kept, k) = rounded(n, d, 24);
    let p = pow2(k);
    let top = pow2(253);
    let step = d * p;
    let last = d * top;
    lemma_pow2_pos(253);
    assert((m + 1) * step == m * step + step) by (nonlinear_arith);
    if k < 253 {
        lemma_pow2_strictly_increases(k, 253);
        lemma_pow2_unfold(253);
        lemma_pow2_pos(252);
        if k < 252 {
            lemma_pow2_strictly_increases(k, 252);
        }
        let half = pow2(252);
        assert(2 * n < 0x1ff_ffff * last) by (nonlinear_arith)
            requires
                n < (m + 1) * step,
                m + 1 <= 0x100_0000,
                step == d * p,
                p <= half,
                top == 2 * half,
                last == d * top,
                half > 0,
                d > 0,
        {
            assert(d * p <= d * half);
            assert((m + 1) * step <= 0x100_0000 * (d * half));
            assert(d * half > 0);
            assert(last == 2 * (d * half));
        }
    } else if k == 253 {
        assert(step == last);
        if kept == 0x100_0000 {
            assert(m == 0xff_ffff);
            assert(m * step == 0xff_ffff * step);
        } else if m == 0xff_ffff {
            assert(m * step == 0xff_ffff * step);
        } else {
            assert((m + 1) * step <= 0xff_ffff * step) by (nonlinear_arith)
                requires
                    m + 1 <= 0xff_ffff,
                    step >= 0,
            ;
        }
    } else {
        lemma_pow2_strictly_increases(253, k);
        lemma_pow2_unfold(254);
        if k > 254 {
            lemma_pow2_strictly_increases(254, k);
        }
        assert(2 * n >= 0x1ff_ffff * last) by (nonlinear_arith)
            requires
                n >= m * step,
                m >= 0x80_0000,
                step == d * p,
                p >= 2 * top,
                last == d * top,
                d > 0,
        {
            assert(d * p >= d * (2 * top));
            assert(d * (2 * top) == 2 * last);
            assert(m * step >= 0x80_0000 * step);
            assert(last >= 0);
        }
    }
}

/// Whether `v` is no nearer to `n / d` than `y` is, and another value that is as near only
/// where `y` is an even multiple of the gap between them.
pub open spec fn no_better(y: nat, v: nat, n: nat, d: nat) -> bool {
    let off = y * d - n;
    let other = v * d - n;
    let gap = if y < v {
        v - y
    } else {
        y - v
    };
    let a = if off < 0 {
        -off
    } else {
        off
    };
    let b = if other < 0 {
        -other
    } else {
        other
    };
    a < b || (a == b && (y == v || (y as int) % (2 * gap) == 0))
}

/// A multiple of the last place that was kept is no better.
proof fn lemma_no_better_multiple(n: nat, d: nat, p: nat, j: nat)
    requires
        d > 0,
        p > 0,
    ensures
        ({
            let (kept, k) = rounded(n, d, p);
            no_better(kept * pow2(k), j * pow2(k), n, d)
        }),
{
    let m = lemma_rounded_parts(n, d, p);
    let (kept, k) = rounded(n, d, p);
    let f = pow2(k);
    let step = d * f;
    let y = kept * f;
    let v = j * f;
    lemma_pow2_pos(k);
    assert(y * d == kept * step && v * d == j * step && (m + 1) * step == m * step + step)
        by (nonlinear_arith)
        requires
            y == kept * f,
            v == j * f,
            step == d * f,
    ;
    if j != kept {
        let c: int = if j < kept {
            kept - j
        } else {
            j - kept
        };
        let gap: int = if y < v {
            v - y
        } else {
            y - v
        };
        assert(gap == c * f && c * step >= step) by (nonlinear_arith)
            requires
                c >= 1,
                step > 0,
                f > 0,
                y == kept * f,
                v == j * f,
                c == if j < kept {
                    kept - j
                } else {
                    j - kept
                },
                gap == if y < v {
                    v - y
                } else {
                    y - v
                },
        {
            if j < kept {
                assert(kept * f - j * f == c * f);
            } else {
                assert(j * f - kept * f == c * f);
            }
        }
        assert(j * step == if j < kept {
            kept * step - c * step
        } else {
            kept * step + c * step
        }) by (nonlinear_arith)
            requires
                c == if j < kept {
                    kept - j
                } else {
                    j - kept
                },
        ;
        if c >= 2 {
            assert(c * step >= 2 * step) by (nonlinear_arith)
                requires
                    c >= 2,
                    step > 0,
            ;
        } else {
            assert(gap == f) by (nonlinear_arith)
                requires
                    gap == c * f,
                    c == 1,
            ;
        }
        let half = kept as int / 2;
        if kept % 2 == 0 && c == 1 {
            assert(y as int == (2 * gap) * half && (y as int) % (2 * gap) == 0)
                by (nonlinear_arith)
                requires
                    y == kept * f,
                    gap == f,
                    f > 0,
                    kept == 2 * half,
            {
                vstd::arithmetic::div_mod::lemma_mod_multiples_basic(half, 2 * gap);
            }
        }
    }
}

/// Of all values with `p` bits none lies nearer to an exact quotient than the one it is
/// rounded to, and one that lies as near yields to the even one.
proof fn lemma_no_value_is_better(n: nat, d: nat, p: nat, a: nat, e: nat)
    requires
        d > 0,
        p > 0,
        a < pow2(p),
    ensures
        ({
            let (kept, k) = rounded(n, d, p);
            no_better(kept * pow2(k), a * pow2(e), n, d)
        }),
{
    let m = lemma_rounded_parts(n, d, p);
    let (kept, k) = rounded(n, d, p);
    let f = pow2(k);
    let g = pow2(e);
    let step = d * f;
    if e >= k {
        let over = pow2((e - k) as nat);
        lemma_pow2_adds((e - k) as nat, k);
        assert(a * g == (a * over) * f) by (nonlinear_arith)
            requires
                g == over * f,
        ;
        lemma_no_better_multiple(n, d, p, a * over);
    } else {
        let low = pow2((p - 1) as nat);
        let half = pow2((k - 1) as nat);
        lemma_pow2_unfold(p);
        lemma_pow2_unfold(k);
        lemma_pow2_pos((k - 1) as nat);
        lemma_pow2_pos(e);
        if e < k - 1 {
            lemma_pow2_strictly_increases(e, (k - 1) as nat);
        }
        let v = a * g;
        let y = kept * f;
        assert(v * d < m * step) by (nonlinear_arith)
            requires
                v == a * g,
                a < 2 * low,
                g <= half,
                g > 0,
                f == 2 * half,
                m >= low,
                step == d * f,
                d > 0,
        {
            assert(a * g < (2 * low) * g);
            assert((2 * low) * g <= (2 * low) * half);
            assert((2 * low) * half == low * f);
            assert(v * d < (low * f) * d);
            assert((low * f) * d == low * step);
            assert(low * step <= m * step);
        }
        assert(y * d == kept * step && (m + 1) * step == m * step + step) by (nonlinear_arith)
            requires
                y == kept * f,
                step == d * f,
        ;
    }
}

/// The binary64 quotient of two integers is the value of 53 bits nearest to the exact one,
/// and of two that are as near the even one.
pub proof fn law_double_quotients_are_nearest(n: nat, d: nat, a: nat, e: nat) -> (r: (nat, nat))
    requires
        d > 0,
        a < pow2(53),
    ensures
        double_quotient(n, d) == r.0 * pow2(r.1),
        r.0 <= pow2(53),
        no_better(double_quotient(n, d), a * pow2(e), n * pow2(1074), d),
{
    let m = lemma_rounded_parts(n * pow2(1074), d, 53);
    lemma_no_value_is_better(n * pow2(1074), d, 53, a, e);
    rounded(n * pow2(1074), d, 53)
}

/// The binary64 form of an integer is the value of 53 bits nearest to it, and of two that
/// are as near the even one.
pub proof fn law_double_integers_are_nearest(v: nat, a: nat, e: nat) -> (r: (nat, nat))
    requires
        a < pow2(53),
    ensures
        double_integer(v) == r.0 * pow2(r.1),
        r.0 <= pow2(53),
        no_better(double_integer(v), a * pow2(e), v, 1),
{
    let m = lemma_rounded_parts(v, 1, 53);
    lemma_no_value_is_better(v, 1, 53, a, e);
    rounded(v, 1, 53)
}

} // verus!
