//! What a recording keeps when it is written in 16 bits: every sample nearly where it was,
//! and its loudness.

use vstd::prelude::*;
use vstd::arithmetic::power2::*;

use crate::binary32;
use crate::rounding;
use crate::wav;

verus! {

/// Whether two finite samples lie within two 16-bit steps, 2 / 32768, of each other.
pub open spec fn within_two_steps(x: u32, y: u32) -> bool {
    let gap = binary32::signed_units(x) - binary32::signed_units(y);
    -2 * binary32::one_units() <= 0x8000 * gap <= 2 * binary32::one_units()
}

/// The exact sum of the squares of finite samples, in squared units.
pub open spec fn squares(samples: Seq<u32>) -> nat
    decreases samples.len(),
{
    if samples.len() == 0 {
        0
    } else {
        squares(samples.drop_last()) + binary32::absolute_units(samples.last())
            * binary32::absolute_units(samples.last())
    }
}

/// Whether the exact root mean square of finite samples is 0.001 or more.
pub open spec fn audible(samples: Seq<u32>) -> bool {
    squares(samples) * 1_000_000 >= samples.len() * (binary32::one_units() * binary32::one_units())
}

/// Whether all samples are finite and within full scale.
pub open spec fn full_scale(samples: Seq<u32>) -> bool {
    forall|i: int|
        0 <= i < samples.len() ==> binary32::magnitude(#[trigger] samples[i]) <= binary32::ONE
}

/// What is read back of samples that were written in 16 bits.
pub open spec fn read_back(samples: Seq<u32>) -> Seq<u32> {
    samples.map_values(|x: u32| wav::requantized(x))
}

/// The magnitude of a sample after scaling by 32767, and of the integer it is rounded to.
pub proof fn lemma_scaled(x: u32) -> (r: (nat, nat))
    requires
        binary32::magnitude(x) <= binary32::ONE,
    ensures
        ({
            let (p, m) = r;
            let u = binary32::absolute_units(x);
            let one = binary32::one_units();
            &&& u <= one
            &&& 512 * p <= 512 * (0x7fff * u) + one
            &&& 512 * (0x7fff * u) <= 512 * p + one
            &&& 2 * (m * one) <= 2 * p + one
            &&& 2 * p < 2 * (m * one) + one
            &&& m <= 0x7fff
            &&& wav::pcm16(x) == if binary32::negative(x) {
                -(m as int)
            } else {
                m as int
            }
        }),
{
    let one = binary32::one_units();
    let u = binary32::absolute_units(x);
    let top = binary32::absolute_units(wav::PCM16_PEAK);
    wav::lemma_pcm16_range(x);
    lemma2_to64();
    lemma_one();
    assert(binary32::limited(x) == x);
    let scaled = binary32::product_of(x, wav::PCM16_PEAK);
    assert(top == 0x7fff * one) by {
        lemma_pow2_adds(9, 140);
        let q = pow2(140);
        assert(top == 0xff_fe00 * q);
        assert(0xff_fe00 * q == 0x7fff * (0x200 * q)) by (nonlinear_arith);
    }
    rounding::lemma_units_are_monotone(
        binary32::magnitude(x) as nat,
        binary32::ONE as nat,
    );
    let n = u * top;
    assert(binary32::magnitude(scaled) == rounding::nearest(n, one));
    rounding::lemma_units_are_monotone(
        binary32::magnitude(scaled) as nat,
        wav::PCM16_PEAK as nat,
    );
    rounding::lemma_nearest_is_close(n, one);
    let p = binary32::absolute_units(scaled);
    let m = (2 * p + one) / (2 * one);
    lemma_scaled_numbers(u, n, p, one);
    vstd::arithmetic::div_mod::lemma_fundamental_div_mod((2 * p + one) as int, (2 * one) as int);
    assert(2 * (m * one) <= 2 * p + one && 2 * p < 2 * (m * one) + one) by (nonlinear_arith)
        requires
            2 * p + one == (2 * one) * m + (2 * p + one) % (2 * one),
            0 <= (2 * p + one) % (2 * one) < 2 * one,
    ;
    (p, m)
}

/// One is 2^149 units.
pub proof fn lemma_one()
    ensures
        rounding::units(binary32::ONE as nat) == binary32::one_units(),
        binary32::one_units() >= 0x80_0000,
{
    lemma2_to64();
    lemma_pow2_adds(23, 126);
    lemma_pow2_pos(126);
}

/// The rounding error of the scaled magnitude, in numbers.
proof fn lemma_scaled_numbers(u: nat, n: nat, p: nat, one: nat)
    by (nonlinear_arith)
    requires
        n == u * (0x7fff * one),
        p <= 0x7fff * one,
        one >= 0x80_0000,
        0x100_0000 * (p * one) <= 0x100_0000 * n + p * one + 0x80_0000 * one,
        0x100_0000 * n <= 0x100_0000 * (p * one) + p * one + 0x80_0000 * one,
    ensures
        512 * p <= 512 * (0x7fff * u) + one,
        512 * (0x7fff * u) <= 512 * p + one,
{
    assert((0x100_0000 * p) * one <= (0x100_0000 * (0x7fff * u) + p + 0x80_0000) * one);
    assert((0x100_0000 * (0x7fff * u)) * one <= (0x100_0000 * p + p + 0x80_0000) * one);
    assert(0x100_0000 * p <= 0x100_0000 * (0x7fff * u) + p + 0x80_0000);
    assert(0x100_0000 * (0x7fff * u) <= 0x100_0000 * p + p + 0x80_0000);
}

/// What is read back of a written sample: a whole number of 16-bit steps.
proof fn lemma_requantized(x: u32) -> (m: nat)
    requires
        binary32::magnitude(x) <= binary32::ONE,
    ensures
        ({
            let y = wav::requantized(x);
            let one = binary32::one_units();
            let u = binary32::absolute_units(x);
            let w = binary32::absolute_units(y);
            &&& binary32::finite(y)
            &&& binary32::magnitude(y) <= binary32::ONE
            &&& w == m * pow2(134)
            &&& 0x8000 * w == m * one
            &&& m <= 0x7fff
            &&& 0x8000 * w <= 0x8000 * u + 2 * one
            &&& 0x8000 * u <= 0x8000 * w + 2 * one
            &&& 1024 * (0x7fff * u) < 1024 * (m * one) + 514 * one
            &&& within_two_steps(y, x)
        }),
{
    let (p, m) = lemma_scaled(x);
    let v = wav::pcm16(x);
    let one = binary32::one_units();
    let u = binary32::absolute_units(x);
    let i = binary32::integer(v);
    let y = wav::requantized(x);
    let w = binary32::absolute_units(y);
    wav::lemma_requantized_is_limited(x);
    lemma2_to64();
    lemma_one();
    let whole = binary32::absolute_units(wav::SCALE_16);
    assert(whole == 0x8000 * one) by {
        lemma_pow2_adds(23, 141);
        lemma_pow2_adds(15, 149);
    }
    assert(m * one <= whole * 1 && (m * pow2(149)) * 1 == m * one) by (nonlinear_arith)
        requires
            m <= 0x7fff,
            one == pow2(149),
            whole == 0x8000 * one,
    ;
    rounding::lemma_nearest_is_monotone(m * one, whole * 1, 1);
    rounding::lemma_nearest_on_grid(wav::SCALE_16 as nat, 1);
    rounding::lemma_nearest_is_exact(m, 149, 1);
    assert(v < 0 ==> (-v) * one == m * one);
    assert(binary32::magnitude(i) == rounding::nearest(m * one, 1));
    assert(binary32::absolute_units(i) == m * one);
    lemma_pow2_adds(15, 134);
    let step = pow2(134);
    assert((m * one) * one == (m * step) * whole) by (nonlinear_arith)
        requires
            whole == 0x8000 * one,
            one == 0x8000 * step,
    ;
    assert(whole > 0);
    rounding::lemma_nearest_is_exact(m, 134, whole);
    assert(w == m * step);
    assert(0x8000 * w == m * one) by (nonlinear_arith)
        requires
            w == m * step,
            one == 0x8000 * step,
    ;
    lemma_requantized_numbers(u as int, w as int, (m * one) as int, p as int, one as int);
    assert(binary32::negative(x) || binary32::signed_units(x) == u);
    if v < 0 {
        assert(binary32::negative(x) && binary32::negative(y));
    } else if v > 0 {
        assert(!binary32::negative(x) && !binary32::negative(y));
    } else {
        assert(m == 0);
        assert(m * one == 0) by (nonlinear_arith)
            requires
                m == 0,
        ;
    }
    m
}

/// How far a sample lies from the integer that it became, in numbers.
proof fn lemma_requantized_numbers(u: int, w: int, k: int, p: int, one: int)
    requires
        0 <= u <= one,
        0x8000 * w == k,
        512 * p <= 512 * (0x7fff * u) + one,
        512 * (0x7fff * u) <= 512 * p + one,
        2 * k <= 2 * p + one,
        2 * p < 2 * k + one,
    ensures
        0x8000 * w <= 0x8000 * u + 2 * one,
        0x8000 * u <= 0x8000 * w + 2 * one,
        1024 * (0x7fff * u) < 1024 * k + 514 * one,
{
}

/// A written recording is read back nearly as it was: each sample lies within two 16-bit
/// steps of the one that was written.
pub proof fn law_written_samples_stay_close(samples: Seq<u32>, sample_rate: u32)
    requires
        wav::MIN_SAMPLE_RATE <= sample_rate <= wav::MAX_SAMPLE_RATE,
        wav::MIN_DURATION_SECONDS * sample_rate <= samples.len(),
        samples.len() <= wav::MAX_DURATION_SECONDS * sample_rate,
        full_scale(samples),
    ensures
        wav::decoded(wav::encoded_wav(samples, sample_rate)) matches Ok((rate, kept)) ==> {
            &&& rate == sample_rate
            &&& kept.len() == samples.len()
            &&& forall|i: int|
                0 <= i < samples.len() ==> within_two_steps(#[trigger] kept[i], samples[i])
        },
{
    wav::law_encoded_wav_decodes(samples, sample_rate);
    let kept = read_back(samples);
    assert forall|i: int| 0 <= i < samples.len() implies within_two_steps(
        #[trigger] kept[i],
        samples[i],
    ) by {
        lemma_requantized(samples[i]);
    }
}

/// The sum of the squares is bounded by the largest sample.
proof fn lemma_squares_are_bounded(samples: Seq<u32>, top: nat)
    requires
        forall|i: int|
            0 <= i < samples.len() ==> binary32::absolute_units(#[trigger] samples[i]) <= top,
    ensures
        squares(samples) <= samples.len() * (top * top),
    decreases samples.len(),
{
    if samples.len() == 0 {
        assert(0 * (top * top) == 0) by (nonlinear_arith);
    } else {
        let init = samples.drop_last();
        assert forall|i: int| 0 <= i < init.len() implies binary32::absolute_units(
            #[trigger] init[i],
        ) <= top by {
            assert(init[i] == samples[i]);
        }
        lemma_squares_are_bounded(init, top);
        let u = binary32::absolute_units(samples[samples.len() - 1]);
        assert(u * u <= top * top) by (nonlinear_arith)
            requires
                u <= top,
        ;
        let n = init.len();
        assert((n + 1) * (top * top) == n * (top * top) + top * top) by (nonlinear_arith);
    }
}

/// The peak floor, and the magnitude below it, in units.
proof fn lemma_peak_floor()
    ensures
        ({
            let q = pow2(116);
            &&& q > 0
            &&& rounding::units(wav::PEAK_FLOOR as nat) == 0x83_126f * q
            &&& rounding::units((wav::PEAK_FLOOR - 1) as nat) == 0x83_126e * q
            &&& binary32::one_units() == 0x2_0000_0000 * q
            &&& pow2(134) == 0x4_0000 * q
        }),
{
    lemma2_to64();
    lemma2_to64_rest();
    lemma_pow2_pos(116);
    lemma_pow2_adds(33, 116);
    lemma_pow2_adds(18, 116);
}

/// Somewhere an audible recording reaches the peak floor, and there it still does when it
/// is read back.
proof fn lemma_audible_peak(samples: Seq<u32>) -> (i: int)
    requires
        samples.len() > 0,
        full_scale(samples),
        audible(samples),
    ensures
        0 <= i < samples.len(),
        binary32::magnitude(wav::requantized(samples[i])) >= wav::PEAK_FLOOR,
{
    lemma_peak_floor();
    let q = pow2(116);
    let one = binary32::one_units();
    let i = lemma_peak(samples);
    let x = samples[i];
    let y = wav::requantized(x);
    let u = binary32::absolute_units(x);
    rounding::lemma_units_are_monotone(
        wav::PEAK_FLOOR as nat,
        binary32::magnitude(x) as nat,
    );
    let m = lemma_requantized(x);
    assert(m >= 33) by (nonlinear_arith)
        requires
            u >= 0x83_126f * q,
            one == 0x2_0000_0000 * q,
            q > 0,
            1024 * (0x7fff * u) < 1024 * (m * one) + 514 * one,
    {
        if m <= 32 {
            assert(m * one <= 32 * one);
        }
    }
    assert(m * pow2(134) >= 33 * pow2(134)) by (nonlinear_arith)
        requires
            m >= 33,
    ;
    if binary32::magnitude(y) < wav::PEAK_FLOOR {
        rounding::lemma_units_are_monotone(
            binary32::magnitude(y) as nat,
            (wav::PEAK_FLOOR - 1) as nat,
        );
    }
    i
}

/// The binary32 square of a sample.
proof fn lemma_square(y: u32) -> (s: nat)
    requires
        binary32::magnitude(y) <= binary32::ONE,
    ensures
        ({
            let w = binary32::absolute_units(y);
            let one = binary32::one_units();
            let square = binary32::product_of(y, y);
            &&& !binary32::negative(square)
            &&& binary32::finite(square)
            &&& s == binary32::absolute_units(square)
            &&& s <= one
            &&& w * w <= 2 * (s * one) + one
            &&& s * one <= 2 * (w * w) + one
        }),
{
    let w = binary32::absolute_units(y);
    let one = binary32::one_units();
    let square = binary32::product_of(y, y);
    lemma_one();
    rounding::lemma_units_are_monotone(binary32::magnitude(y) as nat, binary32::ONE as nat);
    let n = w * w;
    assert(n <= one * one) by (nonlinear_arith)
        requires
            n == w * w,
            w <= one,
    ;
    rounding::lemma_nearest_is_monotone(n, one * one, one);
    rounding::lemma_nearest_on_grid(binary32::ONE as nat, one);
    assert(binary32::magnitude(square) == rounding::nearest(n, one));
    rounding::lemma_units_are_monotone(
        binary32::magnitude(square) as nat,
        binary32::ONE as nat,
    );
    rounding::lemma_nearest_is_close(n, one);
    let s = binary32::absolute_units(square);
    assert(s * one >= 0) by (nonlinear_arith);
    s
}

/// Reading back a recording without its last sample.
proof fn lemma_read_back_init(samples: Seq<u32>)
    requires
        samples.len() > 0,
        full_scale(samples),
    ensures
        read_back(samples).drop_last() == read_back(samples.drop_last()),
        read_back(samples).last() == wav::requantized(samples.last()),
        full_scale(samples.drop_last()),
        binary32::magnitude(samples.last()) <= binary32::ONE,
{
    let init = samples.drop_last();
    assert(read_back(samples).drop_last() =~= read_back(init));
    assert forall|i: int| 0 <= i < init.len() implies binary32::magnitude(#[trigger] init[i])
        <= binary32::ONE by {
        assert(init[i] == samples[i]);
    }
    assert(samples[samples.len() - 1] == samples.last());
}

/// Reading back keeps half of the energy, but for what the steps take.
proof fn lemma_squares_of_read_back(samples: Seq<u32>)
    requires
        full_scale(samples),
    ensures
        0x1000_0000 * squares(samples) <= 0x2000_0000 * squares(read_back(samples)) + 2 * (
        samples.len() * (binary32::one_units() * binary32::one_units())),
    decreases samples.len(),
{
    let one = binary32::one_units();
    if samples.len() == 0 {
        assert(0 * (one * one) == 0) by (nonlinear_arith);
    } else {
        let init = samples.drop_last();
        lemma_read_back_init(samples);
        lemma_squares_of_read_back(init);
        lemma_requantized(samples.last());
        let u = binary32::absolute_units(samples.last());
        let w = binary32::absolute_units(wav::requantized(samples.last()));
        let n = init.len();
        assert(0x1000_0000 * (u * u) <= 0x2000_0000 * (w * w) + 2 * (one * one))
            by (nonlinear_arith)
            requires
                0x8000 * u <= 0x8000 * w + 2 * one,
        {
            let a = 0x4000 * u;
            let b = 0x4000 * w;
            assert(a <= b + one);
            assert(a * a <= (b + one) * (b + one));
            assert((b - one) * (b - one) >= 0);
            assert((b + one) * (b + one) <= 2 * (b * b) + 2 * (one * one));
            assert(a * a == 0x1000_0000 * (u * u));
            assert(b * b == 0x1000_0000 * (w * w));
        }
        assert((n + 1) * (one * one) == n * (one * one) + one * one) by (nonlinear_arith);
    }
}

/// Numbers below 2^24 are samples.
pub proof fn lemma_small_integer(n: nat)
    requires
        n < 0x100_0000,
    ensures
        rounding::nearest(n * binary32::one_units(), 1) < rounding::INFINITE,
        rounding::units(rounding::nearest(n * binary32::one_units(), 1)) == n
            * binary32::one_units(),
{
    let one = binary32::one_units();
    lemma2_to64();
    lemma_pow2_adds(23, 150);
    lemma_pow2_adds(24, 149);
    lemma_pow2_pos(149);
    let limit: nat = 0x4b80_0000;
    assert(rounding::units(limit) == 0x100_0000 * one);
    assert(n * one <= rounding::units(limit) * 1 && (n * pow2(149)) * 1 == n * one)
        by (nonlinear_arith)
        requires
            n < 0x100_0000,
            rounding::units(limit) == 0x100_0000 * one,
            one == pow2(149),
    ;
    rounding::lemma_nearest_is_monotone(n * one, rounding::units(limit) * 1, 1);
    rounding::lemma_nearest_on_grid(limit, 1);
    rounding::lemma_nearest_is_exact(n, 149, 1);
}

/// One more square in the running sum.
pub proof fn lemma_energy_step(before: u32, square: u32, n: nat) -> (after: nat)
    requires
        n + 1 < 0x100_0000,
        !binary32::negative(before),
        binary32::finite(before),
        binary32::absolute_units(before) <= n * binary32::one_units(),
        !binary32::negative(square),
        binary32::finite(square),
        binary32::absolute_units(square) <= binary32::one_units(),
    ensures
        ({
            let sum = binary32::sum_of(before, square);
            let e = binary32::absolute_units(before);
            let s = binary32::absolute_units(square);
            &&& !binary32::negative(sum)
            &&& binary32::finite(sum)
            &&& after == binary32::absolute_units(sum)
            &&& after <= (n + 1) * binary32::one_units()
            &&& e <= after
            &&& 0x100_0000 * (e + s) <= 0x100_0000 * after + after
        }),
{
    let one = binary32::one_units();
    let e = binary32::absolute_units(before);
    let s = binary32::absolute_units(square);
    let sum = binary32::sum_of(before, square);
    let exact = e + s;
    assert((n + 1) * one == n * one + one) by (nonlinear_arith);
    lemma_small_integer(n + 1);
    rounding::lemma_nearest_is_monotone(exact, (n + 1) * one, 1);
    rounding::lemma_nearest_is_monotone(e * 1, exact, 1);
    rounding::lemma_nearest_on_grid(binary32::magnitude(before) as nat, 1);
    rounding::lemma_nearest_on_grid(0, 1);
    assert(binary32::magnitude(sum) == rounding::nearest(exact, 1));
    rounding::lemma_units_are_monotone(
        binary32::magnitude(sum) as nat,
        rounding::nearest((n + 1) * one, 1),
    );
    rounding::lemma_units_are_monotone(
        binary32::magnitude(before) as nat,
        binary32::magnitude(sum) as nat,
    );
    rounding::lemma_nearest_whole_is_close(exact);
    binary32::absolute_units(sum)
}

/// A recording within full scale, without its last sample.
proof fn lemma_full_scale_init(samples: Seq<u32>)
    requires
        samples.len() > 0,
        full_scale(samples),
    ensures
        full_scale(samples.drop_last()),
        binary32::magnitude(samples.last()) <= binary32::ONE,
{
    let init = samples.drop_last();
    assert forall|i: int| 0 <= i < init.len() implies binary32::magnitude(#[trigger] init[i])
        <= binary32::ONE by {
        assert(init[i] == samples[i]);
    }
    assert(samples[samples.len() - 1] == samples.last());
}

/// The running sum of squares loses less than half of the energy, but for a unit per
/// sample.
proof fn lemma_energy(samples: Seq<u32>) -> (e: nat)
    requires
        full_scale(samples),
        samples.len() < 0x100_0000,
    ensures
        ({
            let energy = wav::energy(samples);
            let one = binary32::one_units();
            &&& !binary32::negative(energy)
            &&& binary32::finite(energy)
            &&& e == binary32::absolute_units(energy)
            &&& e <= samples.len() * one
            &&& 0x100_0000 * squares(samples) <= (2 * one) * ((0x100_0000 + samples.len()) * e)
                + 0x100_0000 * (samples.len() * one)
        }),
    decreases samples.len(),
{
    let one = binary32::one_units();
    if samples.len() == 0 {
        assert((2 * one) * (0x100_0000 * 0) == 0 && 0 * one == 0) by (nonlinear_arith);
        0
    } else {
        let init = samples.drop_last();
        lemma_full_scale_init(samples);
        let before = lemma_energy(init);
        let y = samples.last();
        let s = lemma_square(y);
        let w = binary32::absolute_units(y);
        let n = init.len();
        let after = lemma_energy_step(wav::energy(init), binary32::product_of(y, y), n);
        let old_squares = squares(init);
        let sum = (0x100_0000 + n) * before + 0x100_0000 * s;
        assert(0x100_0000 * (old_squares + w * w) <= (2 * one) * sum + 0x100_0000 * ((n + 1) * one))
            by (nonlinear_arith)
            requires
                0x100_0000 * old_squares <= (2 * one) * ((0x100_0000 + n) * before) + 0x100_0000
                    * (n * one),
                w * w <= 2 * (s * one) + one,
                sum == (0x100_0000 + n) * before + 0x100_0000 * s,
        {
            assert((2 * one) * sum == (2 * one) * ((0x100_0000 + n) * before) + 0x100_0000 * (2 * (s
                * one)));
            assert((n + 1) * one == n * one + one);
        }
        assert(sum <= (0x100_0000 + (n + 1)) * after) by (nonlinear_arith)
            requires
                sum == (0x100_0000 + n) * before + 0x100_0000 * s,
                before <= after,
                0x100_0000 * (before + s) <= 0x100_0000 * after + after,
        {
            assert(n * before <= n * after);
        }
        let total = (0x100_0000 + (n + 1)) * after;
        assert((2 * one) * sum <= (2 * one) * total) by (nonlinear_arith)
            requires
                sum <= total,
        ;
        after
    }
}

/// The mean energy of a recording that is loud enough.
proof fn lemma_mean(samples: Seq<u32>) -> (mean: nat)
    requires
        full_scale(samples),
        0 < samples.len() < 0x100_0000,
        samples.len() * (binary32::one_units() * binary32::one_units()) <= 2_100_000 * squares(
            samples,
        ),
    ensures
        ({
            let quotient = binary32::quotient_of(
                wav::energy(samples),
                binary32::integer(samples.len() as int),
            );
            &&& !binary32::negative(quotient)
            &&& binary32::finite(quotient)
            &&& mean == binary32::absolute_units(quotient)
            &&& binary32::one_units() <= 17_000_000 * mean
        }),
{
    let one = binary32::one_units();
    let n = samples.len();
    let energy = wav::energy(samples);
    let count = binary32::integer(n as int);
    let e = lemma_energy(samples);
    lemma_one();
    lemma2_to64();
    lemma_pow2_strictly_increases(64, 149);
    lemma2_to64_rest();
    let kept = squares(samples);
    assert(n * one <= 8_500_000 * e) by (nonlinear_arith)
        requires
            n * (one * one) <= 2_100_000 * kept,
            0x100_0000 * kept <= (2 * one) * ((0x100_0000 + n) * e) + 0x100_0000 * (n * one),
            n < 0x100_0000,
            one >= 0x1_0000_0000_0000_0000,
    {
        assert((0x100_0000 + n) * e <= 0x200_0000 * e);
        assert((2 * one) * ((0x100_0000 + n) * e) <= (2 * one) * (0x200_0000 * e));
        assert(kept <= 4 * (one * e) + n * one);
        assert((n * one) * one <= (8_400_000 * e + 2_100_000 * n) * one);
        assert(n * one <= 8_400_000 * e + 2_100_000 * n);
        assert(n * one >= n * 0x1_0000_0000_0000_0000);
    }
    lemma_small_integer(n);
    let d = n * one;
    assert(binary32::magnitude(count) == rounding::nearest(d, 1));
    assert(binary32::absolute_units(count) == d);
    assert(d >= one && e * one <= one * d) by (nonlinear_arith)
        requires
            d == n * one,
            n >= 1,
            e <= d,
    ;
    rounding::lemma_nearest_is_monotone(e * one, one * d, d);
    rounding::lemma_nearest_on_grid(binary32::ONE as nat, d);
    let quotient = binary32::quotient_of(energy, count);
    assert(binary32::magnitude(count) != 0) by {
        if binary32::magnitude(count) == 0 {
            assert(rounding::units(0) == 0);
        }
    }
    assert(binary32::magnitude(quotient) == rounding::nearest(e * one, d));
    rounding::lemma_nearest_is_close(e * one, d);
    let mean = binary32::absolute_units(quotient);
    lemma_mean_numbers(e, n, mean, one, d);
    mean
}

/// The lower bound of the mean, in numbers.
proof fn lemma_mean_numbers(e: nat, n: nat, mean: nat, one: nat, d: nat)
    by (nonlinear_arith)
    requires
        n >= 1,
        d == n * one,
        one >= 0x1_0000_0000_0000_0000,
        n * one <= 8_500_000 * e,
        0x100_0000 * (e * one) <= 0x100_0000 * (mean * d) + mean * d + 0x80_0000 * d,
    ensures
        one <= 17_000_000 * mean,
{
    let part = mean * n;
    assert(mean * d == part * one);
    assert((0x100_0000 * e) * one <= (0x100_0000 * part + part + 0x80_0000 * n) * one);
    assert(0x100_0000 * e <= 0x100_0000 * part + part + 0x80_0000 * n);
    assert(n * 0x1_0000_0000_0000_0000 <= n * one);
    assert(4 * n <= e);
    assert(e <= 2 * part);
    assert(n * one <= 17_000_000 * part);
    assert(one * n <= (17_000_000 * mean) * n);
}

/// A square root reaches the floor where the square of the floor is reached.
proof fn lemma_root_reaches_floor(n: nat)
    requires
        binary32::absolute_units(wav::RMS_FLOOR) * binary32::absolute_units(wav::RMS_FLOOR) <= n,
    ensures
        binary32::nearest_root(n) >= wav::RMS_FLOOR,
        binary32::nearest_root(n) <= rounding::INFINITE,
{
    let f = binary32::absolute_units(wav::RMS_FLOOR);
    let r = binary32::root_floor(n);
    let low = pow2(112);
    lemma2_to64();
    lemma_pow2_pos(112);
    assert(f == 0xd1_b717 * low);
    binary32::lemma_root_floor(n);
    assert(r >= f) by (nonlinear_arith)
        requires
            f * f <= n,
            n < (r + 1) * (r + 1),
    {
        if r < f {
            assert((r + 1) * (r + 1) <= f * f);
        }
    }
    let k = rounding::excess_bits(r, 24);
    rounding::lemma_excess_bounds(r, 24);
    lemma_pow2_adds(24, 111);
    lemma_pow2_unfold(112);
    if k < 112 {
        if k < 111 {
            lemma_pow2_strictly_increases(24 + k, 135);
        }
        assert(false);
    }
    let p = pow2(k);
    let m = r / p;
    lemma_pow2_pos(k);
    if k == 112 {
        assert(m >= 0xd1_b717) by (nonlinear_arith)
            requires
                m == r / p,
                r >= 0xd1_b717 * p,
                p > 0,
        ;
    } else {
        lemma_pow2_adds(23, k);
        assert(m >= 0x80_0000) by (nonlinear_arith)
            requires
                m == r / p,
                r >= 0x80_0000 * p,
                p > 0,
        ;
    }
}

/// A recording that reaches the peak floor and has enough energy is loud enough.
proof fn lemma_loud_enough(samples: Seq<u32>, i: int)
    requires
        full_scale(samples),
        0 < samples.len() < 0x100_0000,
        0 <= i < samples.len(),
        binary32::magnitude(samples[i]) >= wav::PEAK_FLOOR,
        samples.len() * (binary32::one_units() * binary32::one_units()) <= 2_100_000 * squares(
            samples,
        ),
    ensures
        !wav::too_quiet(samples),
{
    let one = binary32::one_units();
    let mean = lemma_mean(samples);
    let quotient = binary32::quotient_of(
        wav::energy(samples),
        binary32::integer(samples.len() as int),
    );
    let f = binary32::absolute_units(wav::RMS_FLOOR);
    let low = pow2(112);
    lemma2_to64();
    lemma2_to64_rest();
    lemma_pow2_pos(112);
    lemma_pow2_adds(37, 112);
    assert(f == 0xd1_b717 * low);
    assert(one == 0x20_0000_0000 * low);
    assert(f * f <= mean * one) by (nonlinear_arith)
        requires
            f == 0xd1_b717 * low,
            one == 0x20_0000_0000 * low,
            one <= 17_000_000 * mean,
    {
        assert(one * one <= (17_000_000 * mean) * one);
        assert(f * f == (0xd1_b717 * 0xd1_b717) * (low * low));
        assert(one * one == (0x20_0000_0000 * 0x20_0000_0000) * (low * low));
    }
    lemma_root_reaches_floor(mean * one);
    assert(!binary32::zero(quotient)) by {
        if binary32::zero(quotient) {
            assert(rounding::units(0) == 0);
            lemma_one();
        }
    }
    let root = binary32::root_of(quotient);
    assert(root == binary32::signed(false, binary32::nearest_root(mean * one)));
    assert(wav::root_mean_square(samples) == root);
    assert(!binary32::less(root, wav::RMS_FLOOR));
}

/// Somewhere an audible recording reaches the peak floor.
proof fn lemma_peak(samples: Seq<u32>) -> (i: int)
    requires
        samples.len() > 0,
        audible(samples),
    ensures
        0 <= i < samples.len(),
        binary32::magnitude(samples[i]) >= wav::PEAK_FLOOR,
{
    lemma_peak_floor();
    let q = pow2(116);
    let one = binary32::one_units();
    if forall|i: int|
        0 <= i < samples.len() ==> binary32::magnitude(#[trigger] samples[i]) < wav::PEAK_FLOOR {
        let top = 0x83_126e * q;
        assert forall|i: int| 0 <= i < samples.len() implies binary32::absolute_units(
            #[trigger] samples[i],
        ) <= top by {
            rounding::lemma_units_are_monotone(
                binary32::magnitude(samples[i]) as nat,
                (wav::PEAK_FLOOR - 1) as nat,
            );
        }
        lemma_squares_are_bounded(samples, top);
        let n = samples.len();
        assert(n * (top * top) * 1_000_000 < n * (one * one)) by (nonlinear_arith)
            requires
                n > 0,
                top == 0x83_126e * q,
                one == 0x2_0000_0000 * q,
                q > 0,
        {
            let wide = 1_000 * top;
            assert(wide < one);
            assert(wide * wide < one * one);
            assert(n * (wide * wide) < n * (one * one));
            assert(n * (wide * wide) == n * (top * top) * 1_000_000);
        }
        assert(false);
    }
    choose|i: int|
        0 <= i < samples.len() && binary32::magnitude(#[trigger] samples[i]) >= wav::PEAK_FLOOR
}

/// Samples whose root mean square is 0.001 or more are never too quiet.
pub proof fn law_audible_samples_are_loud_enough(samples: Seq<u32>)
    requires
        full_scale(samples),
        audible(samples),
        0 < samples.len() < 0x100_0000,
    ensures
        !wav::too_quiet(samples),
{
    let i = lemma_peak(samples);
    lemma_loud_enough(samples, i);
}

/// What is read back of an audible recording is loud enough.
proof fn lemma_audible_is_not_too_quiet(samples: Seq<u32>)
    requires
        full_scale(samples),
        audible(samples),
        0 < samples.len() < 0x100_0000,
    ensures
        !wav::too_quiet(read_back(samples)),
{
    let kept = read_back(samples);
    let one = binary32::one_units();
    let i = lemma_audible_peak(samples);
    assert(kept[i] == wav::requantized(samples[i]));
    assert forall|j: int| 0 <= j < kept.len() implies binary32::magnitude(#[trigger] kept[j])
        <= binary32::ONE by {
        lemma_requantized(samples[j]);
    }
    lemma_squares_of_read_back(samples);
    let all = samples.len() * (one * one);
    assert(all <= 2_100_000 * squares(kept)) by {
        assert(squares(samples) * 1_000_000 >= all);
        assert(0x1000_0000 * squares(samples) <= 0x2000_0000 * squares(kept) + 2 * all);
    }
    lemma_loud_enough(kept, i);
}

/// A recording of acceptable rate and length whose root mean square is 0.001 or more is
/// never refused once it was written: it is read back at the same rate, with as many
/// samples, each within two 16-bit steps of the one that was written.
pub proof fn law_audible_recording_is_read_back(samples: Seq<u32>, sample_rate: u32)
    requires
        wav::MIN_SAMPLE_RATE <= sample_rate <= wav::MAX_SAMPLE_RATE,
        wav::MIN_DURATION_SECONDS * sample_rate <= samples.len(),
        samples.len() <= wav::MAX_DURATION_SECONDS * sample_rate,
        full_scale(samples),
        audible(samples),
    ensures
        wav::decoded(wav::encoded_wav(samples, sample_rate)) == Ok::<(u32, Seq<u32>), Seq<char>>(
            (sample_rate, read_back(samples)),
        ),
        read_back(samples).len() == samples.len(),
        forall|i: int|
            0 <= i < samples.len() ==> within_two_steps(
                #[trigger] read_back(samples)[i],
                samples[i],
            ),
{
    lemma_audible_is_not_too_quiet(samples);
    wav::law_encoded_wav_decodes(samples, sample_rate);
    law_written_samples_stay_close(samples, sample_rate);
}

} // verus!
