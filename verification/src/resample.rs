//! Conversion of a recording to the sample rate of stored voices.

use vstd::prelude::*;
use vstd::arithmetic::power2::*;

use crate::binary32;
use crate::rounding;
use crate::wav;
use crate::wav::CANONICAL_SAMPLE_RATE;

verus! {

/// Number of samples after conversion: the length scaled by the ratio of the rates,
/// rounded to the nearest integer.
pub open spec fn resampled_len(len: nat, source_rate: u32) -> nat {
    (len * CANONICAL_SAMPLE_RATE as nat + source_rate as nat / 2) / (source_rate as nat)
}

/// Position in the source of the output sample `index`, computed in binary64, as a
/// multiple of 2^-1074: the index times the rate, divided by the rate of stored voices.
pub open spec fn source_position(index: nat, source_rate: u32) -> nat {
    let product = rounding::double_integer(rounding::double_integer(index) * source_rate as nat);
    rounding::double_quotient(product, CANONICAL_SAMPLE_RATE as nat)
}

/// The source sample at or before a position.
pub open spec fn left_of(position: nat) -> nat {
    position / rounding::double_one()
}

/// How far a position lies behind `left_of`, as a binary32 sample.
pub open spec fn fraction_of(position: nat) -> u32 {
    binary32::signed(
        false,
        rounding::nearest(position % rounding::double_one(), pow2(925)),
    )
}

/// The last sample at or before `i`.
pub open spec fn held(samples: Seq<u32>, i: nat) -> u32 {
    samples[if i < samples.len() {
        i as int
    } else {
        samples.len() - 1
    }]
}

/// The output sample `index`: on the line between its two neighbours in the source.
pub open spec fn interpolated(samples: Seq<u32>, source_rate: u32, index: nat) -> u32 {
    let position = source_position(index, source_rate);
    let a = held(samples, left_of(position));
    let b = held(samples, left_of(position) + 1);
    binary32::sum_of(
        a,
        binary32::product_of(binary32::difference_of(b, a), fraction_of(position)),
    )
}

/// A recording at the sample rate of stored voices.
pub open spec fn resampled(samples: Seq<u32>, source_rate: u32) -> Seq<u32> {
    if source_rate == CANONICAL_SAMPLE_RATE {
        samples
    } else {
        Seq::new(
            resampled_len(samples.len(), source_rate),
            |index: int| interpolated(samples, source_rate, index as nat),
        )
    }
}

/// Splits the binary64 quotient of `n` by the canonical rate into its integral part and
/// the binary32 form of its fraction.
fn locate(n: u64) -> (r: (u64, u32))
    ensures
        r.0 == left_of(rounding::double_quotient(n as nat, CANONICAL_SAMPLE_RATE as nat)),
        r.1 == fraction_of(rounding::double_quotient(n as nat, CANONICAL_SAMPLE_RATE as nat)),
        r.0 <= 0x20_0000_0000_0000,
{
    let (q, j) = rounding::divide_in_double(n, CANONICAL_SAMPLE_RATE as u64);
    let ghost position = rounding::double_quotient(n as nat, CANONICAL_SAMPLE_RATE as nat);
    let ghost unit = pow2(j as nat);
    let ghost below = pow2((1074 - j) as nat);
    proof {
        lemma2_to64();
        lemma2_to64_rest();
        lemma_pow2_adds(j as nat, (1074 - j) as nat);
        lemma_pow2_pos(j as nat);
        lemma_pow2_pos((1074 - j) as nat);
    }
    let left: u64;
    let rest: u64;
    if j >= 64 {
        left = 0;
        rest = q;
        proof {
            if j > 64 {
                lemma_pow2_strictly_increases(64, j as nat);
            }
            vstd::arithmetic::div_mod::lemma_fundamental_div_mod_converse(
                q as int,
                unit as int,
                0,
                q as int,
            );
        }
    } else {
        proof {
            if j < 63 {
                lemma_pow2_strictly_increases(j as nat, 63);
            }
            vstd::bits::lemma_u64_shl_is_mul(1, j as u64);
        }
        let scale: u64 = 1u64 << (j as u64);
        left = q / scale;
        rest = q % scale;
        assert(left <= q) by (nonlinear_arith)
            requires
                left == q / scale,
                scale >= 1,
        ;
    }
    let ghost left_part = rest as nat * below;
    proof {
        let one = rounding::double_one();
        vstd::arithmetic::div_mod::lemma_fundamental_div_mod(q as int, unit as int);
        assert(q == left * unit + rest && rest < unit) by (nonlinear_arith)
            requires
                q == unit * (q as int / unit as int) + q as int % unit as int,
                left == q as int / unit as int,
                rest == q as int % unit as int,
                unit > 0,
        ;
        assert(position == left * one + left_part && left_part < one) by (nonlinear_arith)
            requires
                position == q * below,
                q == left * unit + rest,
                rest < unit,
                one == unit * below,
                left_part == rest * below,
                below > 0,
        ;
        vstd::arithmetic::div_mod::lemma_fundamental_div_mod_converse(
            position as int,
            one as int,
            left as int,
            left_part as int,
        );
        let narrow = pow2(925);
        let up = pow2((149 - j) as nat);
        lemma_pow2_adds((149 - j) as nat, 925);
        lemma_pow2_pos(925);
        lemma_pow2_pos((149 - j) as nat);
        assert(left_part * pow2(0) == rest * (up * narrow) && rest * (up * narrow) < (rest + 1) * (up
            * narrow)) by (nonlinear_arith)
            requires
                left_part == rest * below,
                below == up * narrow,
                below > 0,
                pow2(0) == 1,
        ;
    }
    let fraction: u32 = rounding::round_significand(
        rest,
        149 - j as i32,
        false,
        Ghost(left_part),
        Ghost(pow2(925)),
    );
    (left, fraction)
}

fn hold(samples: &[u32], i: u64) -> (x: u32)
    requires
        samples.len() > 0,
    ensures
        x == held(samples@, i as nat),
{
    if i < samples.len() as u64 {
        samples[i as usize]
    } else {
        samples[samples.len() - 1]
    }
}

/// Converts a recording to the sample rate of stored voices, by linear interpolation.
pub fn resample_linear(samples: &[u32], source_rate: u32) -> (out: Vec<u32>)
    requires
        source_rate > 0,
        samples@.len() * CANONICAL_SAMPLE_RATE + source_rate / 2 < 0x8000_0000_0000_0000,
        resampled_len(samples@.len(), source_rate) <= usize::MAX,
    ensures
        out@ == resampled(samples@, source_rate),
{
    if source_rate == CANONICAL_SAMPLE_RATE {
        return vstd::slice::slice_to_vec(samples);
    }
    let output_len: u64 = (samples.len() as u64 * CANONICAL_SAMPLE_RATE as u64 + source_rate as u64
        / 2) / source_rate as u64;
    let ghost whole = samples@.len() * CANONICAL_SAMPLE_RATE + source_rate / 2;
    assert(output_len * source_rate <= whole) by (nonlinear_arith)
        requires
            output_len == whole / source_rate as int,
            source_rate > 0,
            whole >= 0,
    ;
    if samples.len() == 0 {
        assert(output_len == 0) by (nonlinear_arith)
            requires
                output_len == (source_rate / 2) as int / source_rate as int,
                source_rate > 0,
        ;
    }
    let mut out: Vec<u32> = Vec::with_capacity(output_len as usize);
    let mut index: u64 = 0;
    while index < output_len
        invariant
            index <= output_len,
            output_len == resampled_len(samples@.len(), source_rate),
            output_len * source_rate <= whole,
            whole < 0x8000_0000_0000_0000,
            source_rate > 0,
            samples.len() > 0 || output_len == 0,
            out@ == Seq::new(
                index as nat,
                |i: int| interpolated(samples@, source_rate, i as nat),
            ),
        decreases output_len - index,
    {
        assert(index <= index * source_rate <= output_len * source_rate) by (nonlinear_arith)
            requires
                index <= output_len,
                source_rate > 0,
        ;
        let rounded_index: u64 = rounding::to_double_integer(index);
        proof {
            if index >= 0x20_0000_0000_0000 {
                assert(source_rate < 0x400) by (nonlinear_arith)
                    requires
                        index * source_rate < 0x8000_0000_0000_0000,
                        index >= 0x20_0000_0000_0000,
                ;
            }
            assert(rounded_index * source_rate < 0x8000_0000_0010_0000) by (nonlinear_arith)
                requires
                    index * source_rate < 0x8000_0000_0000_0000,
                    rounded_index == index || (rounded_index <= index + 0x400 && source_rate
                        < 0x400),
            ;
        }
        let (left, fraction) = locate(
            rounding::to_double_integer(rounded_index * source_rate as u64),
        );
        let a: u32 = hold(samples, left);
        let b: u32 = hold(samples, left + 1);
        let x: u32 = binary32::sum(
            a,
            binary32::product(binary32::difference(b, a), fraction),
        );
        assert(x == interpolated(samples@, source_rate, index as nat));
        out.push(x);
        index = index + 1;
        assert(out@ =~= Seq::new(
            index as nat,
            |i: int| interpolated(samples@, source_rate, i as nat),
        ));
    }
    assert(out@ =~= resampled(samples@, source_rate));
    out
}

/// A recording of acceptable rate and length keeps an acceptable length at the rate of
/// stored voices.
pub proof fn law_resampled_duration_is_kept(samples: Seq<u32>, source_rate: u32)
    requires
        wav::MIN_SAMPLE_RATE <= source_rate <= wav::MAX_SAMPLE_RATE,
        wav::MIN_DURATION_SECONDS * source_rate <= samples.len(),
        samples.len() <= wav::MAX_DURATION_SECONDS * source_rate,
    ensures
        wav::MIN_DURATION_SECONDS * CANONICAL_SAMPLE_RATE <= resampled(samples, source_rate).len(),
        resampled(samples, source_rate).len() <= wav::MAX_DURATION_SECONDS * CANONICAL_SAMPLE_RATE,
{
    let n = samples.len();
    let r = source_rate as nat;
    let l = resampled_len(n, source_rate);
    assert(2 * 32_000 <= l <= 30 * 32_000) by (nonlinear_arith)
        requires
            l == (n * 32_000 + r / 2) / r,
            r > 0,
            2 * r <= n <= 30 * r,
    {
        let whole = n * 32_000 + r / 2;
        assert(whole >= (2 * 32_000) * r);
        assert(whole < (30 * 32_000 + 1) * r);
        assert(l * r <= whole < (l + 1) * r);
    }
}

/// A recording that already has the rate of stored voices is left as it is.
pub proof fn law_canonical_rate_is_left_alone(samples: Seq<u32>)
    ensures
        resampled(samples, CANONICAL_SAMPLE_RATE) == samples,
{
}

/// How far a position is off: by half of its last place, and by nothing where the exact
/// one is whole.
pub proof fn lemma_position_error(index: nat, source_rate: u32) -> (k: nat)
    requires
        index * source_rate < 0x20_0000_0000,
    ensures
        ({
            let n = index * source_rate as nat;
            let position = source_position(index, source_rate);
            let one = rounding::double_one();
            let place = pow2(k);
            &&& k <= 1044
            &&& 2 * (position * 32_000) <= 2 * (n * one) + 32_000 * place
            &&& 2 * (n * one) <= 2 * (position * 32_000) + 32_000 * place
            &&& n % 32_000 == 0 ==> position * 32_000 == n * one
        }),
{
    let n = index * source_rate as nat;
    let d = CANONICAL_SAMPLE_RATE as nat;
    let one = rounding::double_one();
    let q = n / d;
    assert(source_rate > 0 ==> index <= n) by (nonlinear_arith)
        requires
            n == index * source_rate,
    ;
    if source_rate > 0 {
        rounding::lemma_double_integer_is_exact(index);
    }
    rounding::lemma_double_integer_is_exact(n);
    assert(rounding::double_integer(index) * source_rate as nat == n) by (nonlinear_arith)
        requires
            n == index * source_rate,
            source_rate == 0 || rounding::double_integer(index) == index,
    ;
    lemma2_to64();
    lemma_pow2_pos(1074);
    let k = rounding::lemma_double_quotient_error(n, d, 23);
    let place = pow2(k);
    let ratio = pow2((1074 - k) as nat);
    lemma_pow2_pos(k);
    lemma_pow2_adds((1074 - k) as nat, k);
    if n % d == 0 {
        assert(n * one == (q * ratio) * (d * place)) by (nonlinear_arith)
            requires
                n == q * d,
                one == ratio * place,
        ;
        assert(d * place > 0) by (nonlinear_arith)
            requires
                d == 32_000,
                place > 0,
        ;
        vstd::arithmetic::div_mod::lemma_mod_multiples_basic(
            (q * ratio) as int,
            (d * place) as int,
        );
    }
    k
}

/// Interpolation takes the two source samples around the exact time of an output sample:
/// computing its position in binary64 makes no difference for recordings of acceptable
/// length.
pub proof fn law_neighbours_surround_the_exact_position(index: nat, source_rate: u32)
    requires
        index * source_rate < 0x20_0000_0000,
    ensures
        left_of(source_position(index, source_rate)) == index * source_rate as nat
            / CANONICAL_SAMPLE_RATE as nat,
{
    let n = index * source_rate as nat;
    let d = CANONICAL_SAMPLE_RATE as nat;
    let one = rounding::double_one();
    let position = source_position(index, source_rate);
    let q = n / d;
    lemma2_to64();
    lemma_pow2_pos(1074);
    let k = lemma_position_error(index, source_rate);
    let place = pow2(k);
    let ratio = pow2((1074 - k) as nat);
    lemma_pow2_pos(k);
    lemma_pow2_adds((1074 - k) as nat, k);
    if 1074 - k > 16 {
        lemma_pow2_strictly_increases(16, (1074 - k) as nat);
    }
    assert(q * one <= position < q * one + one) by (nonlinear_arith)
        requires
            n == q * 32_000 + n % 32_000,
            n % 32_000 < 32_000,
            d == 32_000,
            one == ratio * place,
            ratio >= 0x1_0000,
            place > 0,
            2 * (position * d) <= 2 * (n * one) + d * place,
            2 * (n * one) <= 2 * (position * d) + d * place,
            n % 32_000 == 0 ==> position * d == n * one,
    {
        assert(d * place < 2 * one);
        assert((n + 1) * one <= (q * 32_000 + 32_000) * one);
        if n % 32_000 == 0 {
            assert(n * one == (q * one) * 32_000);
        } else {
            assert(n * one >= (q * 32_000 + 1) * one);
        }
    }
    vstd::arithmetic::div_mod::lemma_fundamental_div_mod_converse(
        position as int,
        one as int,
        q as int,
        position - q * one,
    );
}

/// The position of any output sample, however far on, is its index times the rate divided
/// by 32000, each of the three brought to the nearest binary64 value; the sample before it
/// is the one at the integer at or below it.
pub proof fn law_positions_are_computed_in_binary64(index: nat, source_rate: u32, i: nat)
    ensures
        source_position(index, source_rate) == rounding::double_quotient(
            rounding::double_integer(rounding::double_integer(index) * source_rate as nat),
            32_000,
        ),
        left_of(source_position(index, source_rate)) == i <==> i * pow2(1074) <= source_position(
            index,
            source_rate,
        ) < (i + 1) * pow2(1074),
{
    let one = pow2(1074) as int;
    let p = source_position(index, source_rate) as int;
    let l = p / one;
    lemma_pow2_pos(1074);
    vstd::arithmetic::div_mod::lemma_fundamental_div_mod(p, one);
    assert(one * l == l * one && (l + 1) * one == l * one + one && (i + 1) * one == i * one + one)
        by (nonlinear_arith);
    if i as int * one <= p < (i + 1) * one {
        assert(l == i) by (nonlinear_arith)
            requires
                l * one <= p,
                p < (l + 1) * one,
                i as int * one <= p,
                p < (i + 1) * one,
                one > 0,
        {
            if l < i {
                assert((l + 1) * one <= i as int * one);
            }
            if l > i {
                assert((i + 1) * one <= l * one);
            }
        }
    }
}

} // verus!
