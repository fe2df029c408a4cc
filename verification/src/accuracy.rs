//! How exact the arithmetic on samples is: every result is the sample nearest to the exact
//! one.

use vstd::prelude::*;
use vstd::arithmetic::power2::*;

use crate::binary32;
use crate::interpolation;
use crate::rounding;

verus! {

/// Whether `x` is no nearer to the exact value `exact / d` than `y` is, and another value
/// that is as near only where `y` has an even significand.
pub open spec fn no_nearer(y: u32, x: u32, exact: int, d: int) -> bool {
    let a = interpolation::size_of(binary32::signed_units(y) * d - exact);
    let b = interpolation::size_of(binary32::signed_units(x) * d - exact);
    ||| a < b
    ||| a == b && (y % 2 == 0 || binary32::signed_units(x) == binary32::signed_units(y))
}

/// Whether `y` is what the exact value `exact / d` is rounded to: the nearest sample, or
/// infinite on its side from half a last place beyond the largest finite one on.
pub open spec fn rounds_to(exact: int, d: int, y: u32) -> bool {
    &&& binary32::finite(y) <==> 2 * interpolation::size_of(exact) < 0x1ff_ffff * (d * pow2(253))
    &&& binary32::finite(y) ==> forall|x: u32|
        binary32::finite(x) ==> #[trigger] no_nearer(y, x, exact, d)
    &&& !binary32::finite(y) ==> y == if exact < 0 {
        0xff80_0000u32
    } else {
        0x7f80_0000u32
    }
}

/// What is nearest without the sign is nearest with it.
proof fn lemma_no_nearer(n: nat, d: nat, sign: bool, x: u32)
    requires
        d > 0,
        rounding::nearest(n, d) < rounding::INFINITE,
        binary32::finite(x),
    ensures
        no_nearer(
            binary32::signed(sign, rounding::nearest(n, d)),
            x,
            if sign {
                -(n as int)
            } else {
                n as int
            },
            d as int,
        ),
{
    let m = rounding::nearest(n, d);
    let y = binary32::signed(sign, m);
    let u = rounding::units(m);
    let w = binary32::absolute_units(x);
    let k = u * d;
    let l = w * d;
    assert(binary32::magnitude(y) == m);
    assert((-(u as int)) * d == -k && (-(w as int)) * d == -l) by (nonlinear_arith)
        requires
            k == u * d,
            l == w * d,
    ;
    assert(l >= 0 && k >= 0) by (nonlinear_arith)
        requires
            k == u * d,
            l == w * d,
    ;
    assert(0 * d == 0) by (nonlinear_arith);
    assert(rounding::units(0) == 0);
    if m > 0 {
        rounding::law_no_value_lies_nearer(n, d, 0);
    }
    if binary32::magnitude(x) != m {
        rounding::law_no_value_lies_nearer(n, d, binary32::magnitude(x) as nat);
    }
}

/// An exact value is rounded to the signed nearest one.
pub proof fn lemma_rounds_to(n: nat, d: nat, sign: bool)
    requires
        d > 0,
        n > 0 || !sign,
    ensures
        rounds_to(
            if sign {
                -(n as int)
            } else {
                n as int
            },
            d as int,
            binary32::signed(sign, rounding::nearest(n, d)),
        ),
{
    let exact = if sign {
        -(n as int)
    } else {
        n as int
    };
    let y = binary32::signed(sign, rounding::nearest(n, d));
    rounding::law_overflow_begins_half_a_place_beyond(n, d);
    assert(binary32::magnitude(y) == rounding::nearest(n, d));
    if binary32::finite(y) {
        assert forall|x: u32| binary32::finite(x) implies #[trigger] no_nearer(
            y,
            x,
            exact,
            d as int,
        ) by {
            lemma_no_nearer(n, d, sign, x);
        }
    }
}

/// A zero is exact.
proof fn lemma_zero_rounds_to(d: nat, sign: bool)
    requires
        d > 0,
    ensures
        rounds_to(0, d as int, binary32::signed(sign, rounding::nearest(0, d))),
        rounding::nearest(0, d) == 0,
{
    let y = binary32::signed(sign, 0);
    assert(0 * d == 0) by (nonlinear_arith);
    rounding::lemma_nearest_on_grid(0, d);
    rounding::law_overflow_begins_half_a_place_beyond(0, d);
    assert(rounding::units(0) == 0);
    assert forall|x: u32| binary32::finite(x) implies #[trigger] no_nearer(y, x, 0, d as int) by {
        lemma_no_nearer(0, d, sign, x);
    }
}

/// The sum of two samples is the sample nearest to the exact sum.  An exact zero is
/// negative where both are.
pub proof fn law_sums_are_nearest(a: u32, b: u32)
    requires
        binary32::finite(a),
        binary32::finite(b),
    ensures
        rounds_to(binary32::signed_units(a) + binary32::signed_units(b), 1, binary32::sum_of(a, b)),
        binary32::signed_units(a) + binary32::signed_units(b) == 0 ==> binary32::sum_of(a, b)
            == if a >= 0x8000_0000 && b >= 0x8000_0000 {
            0x8000_0000u32
        } else {
            0u32
        },
{
    let exact = binary32::signed_units(a) + binary32::signed_units(b);
    if exact > 0 {
        lemma_rounds_to(exact as nat, 1, false);
    } else if exact < 0 {
        lemma_rounds_to((-exact) as nat, 1, true);
    } else {
        lemma_zero_rounds_to(1, binary32::negative(a) && binary32::negative(b));
    }
}

/// The difference of two samples is the sample nearest to the exact difference.
pub proof fn law_differences_are_nearest(a: u32, b: u32)
    requires
        binary32::finite(a),
        binary32::finite(b),
    ensures
        rounds_to(
            binary32::signed_units(a) - binary32::signed_units(b),
            1,
            binary32::difference_of(a, b),
        ),
        binary32::signed_units(a) == binary32::signed_units(b) ==> binary32::difference_of(a, b)
            == if a >= 0x8000_0000 && b < 0x8000_0000 {
            0x8000_0000u32
        } else {
            0u32
        },
{
    let c = binary32::negated(b);
    assert(binary32::magnitude(c) == binary32::magnitude(b));
    assert(binary32::signed_units(c) == -binary32::signed_units(b));
    law_sums_are_nearest(a, c);
}

/// The product of two samples is the sample nearest to the exact product, with the sign
/// that the signs give.
pub proof fn law_products_are_nearest(a: u32, b: u32)
    requires
        binary32::finite(a),
        binary32::finite(b),
    ensures
        rounds_to(
            binary32::signed_units(a) * binary32::signed_units(b),
            binary32::one_units() as int,
            binary32::product_of(a, b),
        ),
        binary32::product_of(a, b) >= 0x8000_0000 <==> (a >= 0x8000_0000) != (b >= 0x8000_0000),
{
    let sign = binary32::negative(a) != binary32::negative(b);
    let u = binary32::absolute_units(a);
    let v = binary32::absolute_units(b);
    let one = binary32::one_units();
    let n = u * v;
    lemma_pow2_pos(149);
    assert(binary32::signed_units(a) * binary32::signed_units(b) == if sign {
        -(n as int)
    } else {
        n as int
    }) by (nonlinear_arith)
        requires
            n == u * v,
            binary32::signed_units(a) == if binary32::negative(a) {
                -(u as int)
            } else {
                u as int
            },
            binary32::signed_units(b) == if binary32::negative(b) {
                -(v as int)
            } else {
                v as int
            },
            sign == (binary32::negative(a) != binary32::negative(b)),
    ;
    rounding::law_overflow_begins_half_a_place_beyond(n, one);
    if n > 0 {
        lemma_rounds_to(n, one, sign);
    } else {
        lemma_zero_rounds_to(one, sign);
    }
}

/// The quotient of two samples is the sample nearest to the exact quotient, with the sign
/// that the signs give.
pub proof fn law_quotients_are_nearest(a: u32, b: u32)
    requires
        binary32::finite(a),
        binary32::finite(b),
        !binary32::zero(b),
    ensures
        ({
            let exact = binary32::signed_units(a) * binary32::one_units();
            rounds_to(
                if b >= 0x8000_0000 {
                    -exact
                } else {
                    exact
                },
                binary32::absolute_units(b) as int,
                binary32::quotient_of(a, b),
            )
        }),
        binary32::quotient_of(a, b) >= 0x8000_0000 <==> (a >= 0x8000_0000) != (b >= 0x8000_0000),
{
    let sign = binary32::negative(a) != binary32::negative(b);
    let u = binary32::absolute_units(a);
    let v = binary32::absolute_units(b);
    let one = binary32::one_units();
    let n = u * one;
    lemma_units_are_positive(binary32::magnitude(b) as nat);
    assert(binary32::signed_units(a) * one == if binary32::negative(a) {
        -(n as int)
    } else {
        n as int
    }) by (nonlinear_arith)
        requires
            n == u * one,
            binary32::signed_units(a) == if binary32::negative(a) {
                -(u as int)
            } else {
                u as int
            },
    ;
    rounding::law_overflow_begins_half_a_place_beyond(n, v);
    if n > 0 {
        lemma_rounds_to(n, v, sign);
    } else {
        lemma_zero_rounds_to(v, sign);
    }
}

/// Only zero has no units.
proof fn lemma_units_are_positive(m: nat)
    requires
        m > 0,
    ensures
        rounding::units(m) > 0,
{
    rounding::lemma_units_are_monotone(1, m);
    assert(rounding::units(1) == 1);
}

/// Arithmetic with infinite samples, and with what is no number.
pub proof fn law_arithmetic_beyond_the_finite(a: u32, b: u32)
    ensures
        binary32::magnitude(a) > 0x7f80_0000 || binary32::magnitude(b) > 0x7f80_0000 ==> {
            &&& binary32::sum_of(a, b) == 0x7fc0_0000
            &&& binary32::difference_of(a, b) == 0x7fc0_0000
            &&& binary32::product_of(a, b) == 0x7fc0_0000
            &&& binary32::quotient_of(a, b) == 0x7fc0_0000
        },
        binary32::magnitude(a) == 0x7f80_0000 && binary32::magnitude(b) < 0x7f80_0000 ==> {
            &&& binary32::sum_of(a, b) == a
            &&& binary32::sum_of(b, a) == a
            &&& binary32::difference_of(a, b) == a
            &&& binary32::difference_of(b, a) == binary32::product_of(a, 0xbf80_0000)
            &&& binary32::magnitude(b) == 0 ==> binary32::product_of(a, b) == 0x7fc0_0000
            &&& binary32::magnitude(b) > 0 ==> binary32::product_of(a, b) == if (a
                >= 0x8000_0000) == (b >= 0x8000_0000) {
                0x7f80_0000u32
            } else {
                0xff80_0000u32
            }
            &&& binary32::product_of(b, a) == binary32::product_of(a, b)
            &&& binary32::quotient_of(a, b) == if (a >= 0x8000_0000) == (b >= 0x8000_0000) {
                0x7f80_0000u32
            } else {
                0xff80_0000u32
            }
            &&& binary32::quotient_of(b, a) == if (a >= 0x8000_0000) == (b >= 0x8000_0000) {
                0u32
            } else {
                0x8000_0000u32
            }
        },
        binary32::magnitude(a) == 0x7f80_0000 && binary32::magnitude(b) == 0x7f80_0000 ==> {
            &&& binary32::sum_of(a, b) == if a == b {
                a
            } else {
                0x7fc0_0000
            }
            &&& binary32::difference_of(a, b) == if a == b {
                0x7fc0_0000
            } else {
                a
            }
            &&& binary32::product_of(a, b) == if a == b {
                0x7f80_0000u32
            } else {
                0xff80_0000u32
            }
            &&& binary32::quotient_of(a, b) == 0x7fc0_0000
        },
        binary32::magnitude(a) < 0x7f80_0000 && binary32::magnitude(b) == 0
            ==> binary32::quotient_of(a, b) == if binary32::magnitude(a) == 0 {
            0x7fc0_0000u32
        } else if (a >= 0x8000_0000) == (b >= 0x8000_0000) {
            0x7f80_0000u32
        } else {
            0xff80_0000u32
        },
{
}

/// An integer becomes the sample nearest to it.
pub proof fn law_integers_are_nearest(v: int)
    ensures
        rounds_to(v * binary32::one_units(), 1, binary32::integer(v)),
{
    let one = binary32::one_units();
    lemma_pow2_pos(149);
    if v < 0 {
        assert((-v) * one == -(v * one) && (-v) * one > 0) by (nonlinear_arith)
            requires
                v < 0,
                one > 0,
        ;
        lemma_rounds_to(((-v) * one) as nat, 1, true);
    } else {
        assert(v * one >= 0) by (nonlinear_arith)
            requires
                v >= 0,
                one > 0,
        ;
        lemma_rounds_to((v * one) as nat, 1, false);
    }
}

/// A sample becomes the integer nearest to it, and one halfway between two the one farther
/// from zero.
pub proof fn law_samples_become_the_nearest_integers(x: u32)
    requires
        binary32::finite(x),
    ensures
        ({
            let one = binary32::one_units() as int;
            let off = binary32::nearest_integer(x) * one - binary32::signed_units(x);
            &&& 2 * interpolation::size_of(off) <= one
            &&& 2 * interpolation::size_of(off) == one ==> (off > 0 <==> x < 0x8000_0000)
        }),
{
    let one = binary32::one_units() as int;
    let u = binary32::absolute_units(x) as int;
    let m = (2 * u + one) / (2 * one);
    lemma_pow2_pos(149);
    vstd::arithmetic::div_mod::lemma_fundamental_div_mod(2 * u + one, 2 * one);
    let k = m * one;
    assert((2 * one) * m == 2 * k && (-m) * one == -k) by (nonlinear_arith)
        requires
            k == m * one,
    ;
}

/// Samples are ordered as the numbers that they are; an infinite one lies beyond all
/// others on its side, and what is no number is in no order.
pub proof fn law_samples_are_ordered_as_numbers(a: u32, b: u32)
    ensures
        binary32::finite(a) && binary32::finite(b) ==> {
            &&& binary32::less(a, b) <==> binary32::signed_units(a) < binary32::signed_units(b)
            &&& binary32::at_least(a, b) <==> binary32::signed_units(a)
                >= binary32::signed_units(b)
        },
        binary32::finite(a) ==> {
            &&& binary32::less(a, 0x7f80_0000) && binary32::less(0xff80_0000, a)
            &&& !binary32::at_least(a, 0x7f80_0000) && !binary32::at_least(0xff80_0000, a)
        },
        binary32::magnitude(a) > 0x7f80_0000 || binary32::magnitude(b) > 0x7f80_0000
            ==> !binary32::less(a, b) && !binary32::at_least(a, b),
        binary32::magnitude(a) <= 0x7f80_0000 && binary32::magnitude(b) <= 0x7f80_0000
            ==> binary32::at_least(a, b) == !binary32::less(a, b),
{
    let m = binary32::magnitude(a) as nat;
    let l = binary32::magnitude(b) as nat;
    assert(rounding::units(0) == 0);
    if m > 0 {
        lemma_units_are_positive(m);
    }
    if l > 0 {
        lemma_units_are_positive(l);
    }
    if m < l < 0x7f80_0000 {
        lemma_units_go_up(m, l);
    }
    if l < m < 0x7f80_0000 {
        lemma_units_go_up(l, m);
    }
}

/// Greater magnitudes have more units.
pub proof fn lemma_units_go_up(x: nat, y: nat)
    requires
        x < y < 0x7f80_0000,
    ensures
        rounding::units(x) < rounding::units(y),
{
    rounding::lemma_units_are_monotone(x, y);
    if rounding::units(x) == rounding::units(y) {
        rounding::lemma_nearest_on_grid(x, 1);
        rounding::lemma_nearest_on_grid(y, 1);
    }
}

/// Where the last significand before a root stands: its square is not above the number,
/// and the square of the next one is.
proof fn lemma_root_parts(n: nat) -> (m: nat)
    ensures
        ({
            let k = rounding::excess_bits(binary32::root_floor(n), 24);
            let p = pow2(k);
            &&& m == binary32::root_floor(n) / p
            &&& m < 0x100_0000
            &&& k == 0 || m >= 0x80_0000
            &&& (m * p) * (m * p) <= n < ((m + 1) * p) * ((m + 1) * p)
        }),
{
    let r = binary32::root_floor(n);
    let k = rounding::excess_bits(r, 24);
    let p = pow2(k);
    let m = r / p;
    binary32::lemma_root_floor(n);
    rounding::lemma_excess_bounds(r, 24);
    lemma2_to64();
    lemma_pow2_pos(k);
    lemma_pow2_adds(24, k);
    vstd::arithmetic::div_mod::lemma_fundamental_div_mod(r as int, p as int);
    let a = m * p;
    let b = (m + 1) * p;
    assert(p * m == a && b == a + p) by (nonlinear_arith)
        requires
            a == m * p,
            b == (m + 1) * p,
    ;
    assert(a <= r && r + 1 <= b);
    assert(a * a <= r * r && (r + 1) * (r + 1) <= b * b) by (nonlinear_arith)
        requires
            a <= r,
            r + 1 <= b,
    ;
    assert(m < 0x100_0000) by (nonlinear_arith)
        requires
            m * p <= r,
            r < 0x100_0000 * p,
    ;
    if k > 0 {
        lemma_pow2_adds(23, k);
        assert(m >= 0x80_0000) by (nonlinear_arith)
            requires
                r + 1 <= (m + 1) * p,
                r >= 0x80_0000 * p,
        ;
    }
    m
}

/// The root of a finite sample is finite.
proof fn lemma_root_is_finite(n: nat, m: nat, k: nat)
    requires
        n < pow2(426),
        k == 0 || m >= 0x80_0000,
        m < 0x100_0000,
        (m * pow2(k)) * (m * pow2(k)) <= n,
    ensures
        k <= 190,
{
    if k > 190 {
        let p = pow2(k);
        let q = pow2(191);
        lemma2_to64();
        lemma2_to64_rest();
        lemma_pow2_pos(191);
        if k > 191 {
            lemma_pow2_strictly_increases(191, k);
        }
        lemma_pow2_adds(191, 191);
        lemma_pow2_adds(44, 382);
        assert(pow2(44) == 0x1000_0000_0000);
        assert((m * p) * (m * p) >= 0x1000_0000_0000 * (q * q)) by (nonlinear_arith)
            requires
                m >= 0x80_0000,
                p >= q,
                q > 0,
        {
            assert(m * p >= 0x80_0000 * q);
            assert((m * p) * (m * p) >= (0x80_0000 * q) * (0x80_0000 * q));
            assert((0x80_0000 * q) * (0x80_0000 * q) == 0x4000_0000_0000 * (q * q));
        }
    }
}

/// Of all values none lies nearer to the root of a number than the one that is given: the
/// number lies on its side of the square of the middle between the two, and on the square
/// itself only where the value has an even significand.
proof fn lemma_no_root_lies_nearer(n: nat, y: nat)
    requires
        n < pow2(426),
        y < rounding::INFINITE,
    ensures
        ({
            let r = binary32::nearest_root(n);
            let both = rounding::units(r) + rounding::units(y);
            &&& r < rounding::INFINITE
            &&& y > r ==> both * both > 4 * n || (both * both == 4 * n && r % 2 == 0)
            &&& y < r ==> both * both < 4 * n || (both * both == 4 * n && r % 2 == 0)
        }),
{
    let k = rounding::excess_bits(binary32::root_floor(n), 24);
    let p = pow2(k);
    let m = lemma_root_parts(n);
    lemma_root_is_finite(n, m, k);
    lemma_pow2_pos(k);
    let middle = (2 * m + 1) * p;
    let up = middle * middle < 4 * n || (middle * middle == 4 * n && m % 2 == 1);
    let kept = if up {
        m + 1
    } else {
        m
    };
    let r = rounding::encoded(kept, k);
    assert(r == binary32::nearest_root(n));
    assert(r < rounding::INFINITE && r % 2 == kept % 2);
    rounding::lemma_units_of_encoded(kept, k);
    rounding::lemma_beside(kept, k, y);
    let a = m * p;
    let b = (m + 1) * p;
    let w = rounding::units(y);
    let both = rounding::units(r) + w;
    assert(b == a + p && middle == a + b) by (nonlinear_arith)
        requires
            a == m * p,
            b == (m + 1) * p,
            middle == (2 * m + 1) * p,
    ;
    if y > r {
        assert((kept + 1) * p > kept * p) by (nonlinear_arith)
            requires
                p > 0,
        ;
        if up {
            assert(both * both > 4 * (b * b)) by (nonlinear_arith)
                requires
                    both > 2 * b,
            ;
        } else {
            assert(both * both >= middle * middle) by (nonlinear_arith)
                requires
                    both >= middle,
            ;
        }
    } else if y < r {
        if up {
            assert(both * both <= middle * middle) by (nonlinear_arith)
                requires
                    both <= middle,
            ;
        } else {
            assert(both * both < 4 * (a * a)) by (nonlinear_arith)
                requires
                    both < 2 * a,
            ;
        }
    }
}

/// The root of a sample is the sample nearest to the exact root: the exact one lies on its
/// side of the middle between it and any other sample `y`, or right on the middle, where
/// it has the even significand.
pub proof fn law_roots_are_nearest(x: u32, y: u32)
    requires
        0 < x < 0x7f80_0000,
        y < 0x7f80_0000,
    ensures
        ({
            let r = binary32::root_of(x);
            let exact = binary32::absolute_units(x) * binary32::one_units();
            let both = binary32::absolute_units(r) + binary32::absolute_units(y);
            &&& r < 0x7f80_0000
            &&& y > r ==> both * both > 4 * exact || (both * both == 4 * exact && r % 2 == 0)
            &&& y < r ==> both * both < 4 * exact || (both * both == 4 * exact && r % 2 == 0)
        }),
{
    let u = binary32::absolute_units(x);
    let one = binary32::one_units();
    lemma_pow2_pos(149);
    rounding::lemma_units_are_monotone(x as nat, 0x7f7f_ffff);
    lemma2_to64();
    lemma_pow2_adds(24, 253);
    lemma_pow2_adds(277, 149);
    lemma_pow2_pos(253);
    let top = pow2(253);
    assert(rounding::units(0x7f7f_ffff) == 0xff_ffff * top);
    assert(u * one < (0x100_0000 * top) * one) by (nonlinear_arith)
        requires
            u <= 0xff_ffff * top,
            top > 0,
            one > 0,
    {
        assert(u < 0x100_0000 * top);
    }
    lemma_no_root_lies_nearer(u * one, y as nat);
}

/// Zeros and infinity are their own roots, and what is below zero or no number has none.
pub proof fn law_roots_beyond_the_positive(x: u32)
    ensures
        x == 0 || x == 0x8000_0000 || x == 0x7f80_0000 ==> binary32::root_of(x) == x,
        x > 0x8000_0000 || 0x7f80_0000 < x < 0x8000_0000 ==> binary32::root_of(x) == 0x7fc0_0000,
{
}

/// A sample is its sign and its magnitude, and finite, infinite or no number by the
/// magnitude alone.
pub proof fn law_sign_and_magnitude(x: u32)
    ensures
        x == binary32::magnitude(x) + if x < 0x8000_0000 {
            0int
        } else {
            0x8000_0000
        },
        binary32::magnitude(x) < 0x8000_0000,
        binary32::finite(x) <==> binary32::magnitude(x) < 0x7f80_0000,
        binary32::is_nan(x) <==> binary32::magnitude(x) > 0x7f80_0000,
        x < 0x8000_0000 ==> binary32::signed_units(x) == rounding::units(x as nat),
        x >= 0x8000_0000 ==> binary32::signed_units(x) == -rounding::units(
            (x - 0x8000_0000) as nat,
        ),
{
}

/// Magnitudes begin at zero, and from one to the next the value grows by a unit, up to the
/// smallest normal one and through the first octave above it, and by twice as much in each
/// octave that follows.
pub proof fn law_values_grow_by_the_last_place(m: nat)
    ensures
        rounding::units(0) == 0,
        rounding::units(m + 1) == rounding::units(m) + pow2(
            if m < 0x100_0000 {
                0
            } else {
                (m / 0x80_0000 - 1) as nat
            },
        ),
{
    let e = m / 0x80_0000;
    let f = m % 0x80_0000;
    lemma2_to64();
    if f + 1 < 0x80_0000 {
        assert((m + 1) / 0x80_0000 == e && (m + 1) % 0x80_0000 == f + 1);
        if e > 0 {
            let p = pow2((e - 1) as nat);
            assert((0x80_0000 + (f + 1)) * p == (0x80_0000 + f) * p + p) by (nonlinear_arith);
        }
    } else {
        assert((m + 1) / 0x80_0000 == e + 1 && (m + 1) % 0x80_0000 == 0);
        if e == 0 {
            assert(rounding::units(m + 1) == (0x80_0000 + 0) * pow2(0));
        } else {
            let p = pow2((e - 1) as nat);
            lemma_pow2_unfold(e);
            assert(rounding::units(m + 1) == (0x80_0000 + 0) * pow2(e));
            assert(0x80_0000 * (2 * p) == (0x80_0000 + 0x7f_ffff) * p + p) by (nonlinear_arith);
        }
    }
}

} // verus!
