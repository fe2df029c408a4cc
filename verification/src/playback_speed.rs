//! Playback of generated speech at another speed and the same pitch.
//!
//! The time stretching itself is done by a signal processor outside this library.  Here
//! stands what is decided around it: whether a chunk is stretched at all, how many
//! samples go in and come out, and which part of what comes out is the chunk.

use vstd::prelude::*;
use vstd::arithmetic::power2::*;

use crate::accuracy;
use crate::binary32;
use crate::rounding;
use crate::text;

verus! {

/// Slowest supported playback speed: 0.75.
pub const MIN_PLAYBACK_SPEED: u32 = 0x3f40_0000;

/// Fastest supported playback speed: 1.5.
pub const MAX_PLAYBACK_SPEED: u32 = 0x3fc0_0000;

/// Default playback speed: 1.
pub const DEFAULT_PLAYBACK_SPEED: u32 = 0x3f80_0000;

/// How close to the default a speed counts as the default: 0.0001.
pub const UNITY_EPSILON: u32 = 0x38d1_b717;

/// Whether a playback speed is supported.
pub open spec fn supported_speed(speed: u32) -> bool {
    &&& binary32::at_least(speed, MIN_PLAYBACK_SPEED)
    &&& binary32::at_least(MAX_PLAYBACK_SPEED, speed)
}

/// Whether a playback speed is as good as the default one.
pub open spec fn unity(speed: u32) -> bool {
    binary32::at_least(
        UNITY_EPSILON,
        binary32::magnitude(binary32::difference_of(speed, DEFAULT_PLAYBACK_SPEED)),
    )
}

/// `len` divided by the speed in binary64, as a multiple of 2^-1074.
pub open spec fn slowed(len: nat, speed: u32) -> nat {
    rounding::double_quotient(len * binary32::one_units(), binary32::absolute_units(speed))
}

/// Length of a chunk at another speed: the quotient rounded to the nearest integer.
pub open spec fn expected_len(len: nat, speed: u32) -> nat {
    (2 * slowed(len, speed) + rounding::double_one()) / (2 * rounding::double_one())
}

/// Whether a chunk is played as it is: it is empty, it is played at the default speed, or
/// the speed is as good as that one and the chunk already has the length owed at it.
pub open spec fn left_alone(len: nat, speed: u32) -> bool {
    ||| len == 0
    ||| speed == DEFAULT_PLAYBACK_SPEED
    ||| unity(speed) && len <= i32::MAX && expected_len(len, speed) == len
}

/// Samples that come out before the chunk because the processor starts empty: the
/// input latency at the new speed, rounded up.
pub open spec fn pre_roll_len(latency: nat, speed: u32) -> nat {
    ((slowed(latency, speed) + rounding::double_one() - 1) / (rounding::double_one() as int)) as nat
}

/// How a chunk is put through the time stretcher.
#[derive(Clone, Copy, Debug, PartialEq, Eq)]
pub struct StretchPlan {
    /// Samples of the chunk.
    pub input: i32,
    /// Samples that they become.
    pub expected: i32,
    /// Silent samples that follow the chunk.
    pub latency: i32,
    /// Samples that the silence becomes.
    pub reset_pre_roll: i32,
    /// Samples that are flushed out at the end.
    pub output_latency: i32,
}

/// A latency as a number of samples.
pub open spec fn latency_of(latency: i32) -> nat {
    if latency > 0 {
        latency as nat
    } else {
        0
    }
}

/// The plan for a chunk, where all its lengths can be handed to the stretcher.
pub open spec fn plan_of(
    input_len: nat,
    speed: u32,
    input_latency: i32,
    output_latency: i32,
) -> Option<StretchPlan> {
    let expected = expected_len(input_len, speed);
    let latency = latency_of(input_latency);
    let pre_roll = pre_roll_len(latency, speed);
    if input_len <= i32::MAX && expected <= i32::MAX && pre_roll <= i32::MAX {
        Some(
            StretchPlan {
                input: input_len as i32,
                expected: expected as i32,
                latency: latency as i32,
                reset_pre_roll: pre_roll as i32,
                output_latency: latency_of(output_latency) as i32,
            },
        )
    } else {
        None
    }
}

/// A length, held at the largest one that can be counted.
pub open spec fn saturated(n: nat) -> nat {
    if n <= usize::MAX {
        n
    } else {
        usize::MAX as nat
    }
}

impl StretchPlan {
    /// No length is negative.
    pub open spec fn wf(self) -> bool {
        &&& self.input >= 0
        &&& self.expected >= 0
        &&& self.latency >= 0
        &&& self.reset_pre_roll >= 0
        &&& self.output_latency >= 0
    }

    /// Where the chunk begins in what comes out.
    pub open spec fn start(self) -> nat {
        saturated((self.reset_pre_roll + self.output_latency) as nat)
    }

    /// Where the chunk ends in what comes out.
    pub open spec fn end(self) -> nat {
        saturated(self.start() + self.expected as nat)
    }
}

/// What the time stretcher gave: for the chunk, for the silence behind it, and when it was
/// flushed.
pub struct Stretched {
    pub output: Vec<u32>,
    pub latency_output: Vec<u32>,
    pub flushed: Vec<u32>,
}

impl Stretched {
    /// All of it, in order.
    pub open spec fn all(self) -> Seq<u32> {
        self.output@ + self.latency_output@ + self.flushed@
    }
}

/// The chunk in what the time stretcher gave, or why there is none.
pub open spec fn trimmed(plan: StretchPlan, given: Stretched) -> Result<Seq<u32>, Seq<char>> {
    if given.all().len() < plan.end() {
        Err(short_output_message(given.all().len(), plan.end()))
    } else {
        Ok(given.all().subrange(plan.start() as int, plan.end() as int))
    }
}

/// Whether a chunk at a speed goes through the time stretcher.
pub open spec fn stretched_at(len: nat, speed: u32) -> bool {
    supported_speed(speed) && !left_alone(len, speed)
}

/// Whether `chunk` and `plan` are handed to a time stretcher that is set up by `latencies`.
pub open spec fn handed_over<L>(
    input: Seq<u32>,
    speed: u32,
    sample_rate: u32,
    latencies: L,
    chunk: Vec<u32>,
    plan: StretchPlan,
) -> bool where L: FnOnce(u32) -> (i32, i32) {
    &&& stretched_at(input.len(), speed)
    &&& chunk@ == input
    &&& exists|latency: (i32, i32)|
        {
            &&& #[trigger] call_ensures(latencies, (sample_rate,), latency)
            &&& plan_of(input.len(), speed, latency.0, latency.1) == Some(plan)
        }
}

/// Whether `r` is what processing a chunk can give with a time stretcher that is set up
/// by `latencies` and run by `stretch`.
pub open spec fn processed<L, S>(
    input: Seq<u32>,
    speed: u32,
    sample_rate: u32,
    latencies: L,
    stretch: S,
    r: Result<Vec<u32>, String>,
) -> bool where
    L: FnOnce(u32) -> (i32, i32),
    S: FnOnce(Vec<u32>, StretchPlan) -> Stretched,
 {
    if !supported_speed(speed) {
        r matches Err(m) && m@ == "Speech playback speed must be between 0.75 and 1.5"@
    } else if left_alone(input.len(), speed) {
        r matches Ok(samples) && samples@ == input
    } else {
        exists|latency: (i32, i32)|
            {
                &&& #[trigger] call_ensures(latencies, (sample_rate,), latency)
                &&& match plan_of(input.len(), speed, latency.0, latency.1) {
                    None => r matches Err(m) && m@ == "audio chunk is too large to process"@,
                    Some(plan) => exists|chunk: Vec<u32>, given: Stretched|
                        {
                            &&& #[trigger] call_ensures(stretch, (chunk, plan), given)
                            &&& chunk@ == input
                            &&& match trimmed(plan, given) {
                                Ok(samples) => r matches Ok(v) && v@ == samples,
                                Err(e) => r matches Err(m) && m@ == e,
                            }
                        },
                }
            }
    }
}

/// Why too short an output is refused.
pub open spec fn short_output_message(produced: nat, needed: nat) -> Seq<char> {
    "time stretcher produced "@ + text::decimal_of(produced) + " samples, need "@
        + text::decimal_of(needed)
}

/// Why a lead-in is refused.
pub open spec fn long_lead_in_message(lead_in: nat, len: nat) -> Seq<char> {
    "fixed lead-in of "@ + text::decimal_of(lead_in) + " samples exceeds input length "@
        + text::decimal_of(len)
}

/// Accepts the supported playback speeds.
pub fn validate_speed(speed: u32) -> (r: Result<(), String>)
    ensures
        match r {
            Ok(_) => supported_speed(speed),
            Err(e) => {
                &&& !supported_speed(speed)
                &&& e@ == "Speech playback speed must be between 0.75 and 1.5"@
            },
        },
{
    if binary32::is_at_least(speed, MIN_PLAYBACK_SPEED) && binary32::is_at_least(
        MAX_PLAYBACK_SPEED,
        speed,
    ) {
        Ok(())
    } else {
        Err("Speech playback speed must be between 0.75 and 1.5".to_owned())
    }
}

/// A length as the time stretcher takes it.
pub fn i32_len(length: usize) -> (r: Result<i32, String>)
    ensures
        match r {
            Ok(l) => l == length,
            Err(e) => length > i32::MAX && e@ == "audio chunk is too large to process"@,
        },
{
    if length <= i32::MAX as usize {
        Ok(length as i32)
    } else {
        Err("audio chunk is too large to process".to_owned())
    }
}

/// A latency that the time stretcher reports, as a number of samples.
pub fn latency_samples(latency: i32) -> (r: usize)
    ensures
        r == latency_of(latency),
{
    if latency > 0 {
        latency as usize
    } else {
        0
    }
}

/// A supported speed is its significand over 2^23 or over 2^24.
proof fn lemma_speed_units(speed: u32)
    requires
        supported_speed(speed),
    ensures
        ({
            let f = 0x80_0000 + speed as nat % 0x80_0000;
            let over: nat = if speed >= DEFAULT_PLAYBACK_SPEED {
                23
            } else {
                24
            };
            &&& binary32::absolute_units(speed) == f * pow2((149 - over) as nat)
            &&& binary32::one_units() == pow2(over) * pow2((149 - over) as nat)
        }),
{
    lemma_pow2_adds(23, 126);
    lemma_pow2_adds(24, 125);
}

/// Divides a length by a supported speed in binary64: a significand, and how many of its
/// bits lie behind the binary point.
fn slow_down(len: u32, speed: u32) -> (r: (u64, u32))
    requires
        supported_speed(speed),
    ensures
        r.0 <= 0x20_0000_0000_0000,
        r.1 <= 78,
        slowed(len as nat, speed) == r.0 * pow2((1074 - r.1) as nat),
{
    let f: u64 = 0x80_0000 + (speed % 0x80_0000) as u64;
    let scale: u64 = if speed >= DEFAULT_PLAYBACK_SPEED { 0x80_0000 } else { 0x100_0000 };
    assert(len * scale < 0x100_0000_0000_0000) by (nonlinear_arith)
        requires
            len <= 0xffff_ffff,
            scale <= 0x100_0000,
    ;
    let n: u64 = len as u64 * scale;
    proof {
        lemma2_to64();
        lemma_speed_units(speed);
        let over: nat = if speed >= DEFAULT_PLAYBACK_SPEED {
            23
        } else {
            24
        };
        let c = pow2((149 - over) as nat);
        lemma_pow2_pos((149 - over) as nat);
        let one = rounding::double_one();
        assert((len * binary32::one_units()) * one == (n * one) * c) by (nonlinear_arith)
            requires
                n == len * scale,
                binary32::one_units() == scale * c,
        ;
        rounding::lemma_rounded_of_equal_ratio((n * one) as nat, f as nat, c, 53);
    }
    rounding::divide_in_double(n, f)
}

/// Rounds `q / 2^j` to the nearest integer, halves up.
fn round_half_up(q: u64, j: u32) -> (r: u64)
    requires
        q <= 0x20_0000_0000_0000,
        j <= 78,
    ensures
        r == (2 * (q as nat * pow2((1074 - j) as nat)) + rounding::double_one()) / (2
            * rounding::double_one()),
{
    let ghost one = rounding::double_one();
    let ghost below = pow2((1074 - j) as nat);
    let ghost unit = pow2(j as nat);
    let ghost u = q as nat * below;
    proof {
        lemma2_to64();
        lemma2_to64_rest();
        lemma_pow2_adds(j as nat, (1074 - j) as nat);
        lemma_pow2_pos((1074 - j) as nat);
        lemma_pow2_pos(j as nat);
    }
    if j >= 62 {
        proof {
            if j > 62 {
                lemma_pow2_strictly_increases(62, j as nat);
            }
            assert(2 * u < one) by (nonlinear_arith)
                requires
                    u == q * below,
                    one == unit * below,
                    2 * q < unit,
                    below > 0,
            ;
            vstd::arithmetic::div_mod::lemma_basic_div((2 * u + one) as int, (2 * one) as int);
        }
        return 0;
    }
    proof {
        lemma_pow2_strictly_increases(j as nat, 62);
        vstd::bits::lemma_u64_shl_is_mul(1, j as u64);
    }
    let scale: u64 = 1u64 << (j as u64);
    let top: u64 = 2 * q + scale;
    let wide: u64 = 2 * scale;
    proof {
        assert(2 * u + one == top * below && 2 * one == below * wide) by (nonlinear_arith)
            requires
                u == q * below,
                one == scale * below,
                top == 2 * q + scale,
                wide == 2 * scale,
        ;
        vstd::arithmetic::div_mod::lemma_div_denominator(
            (top * below) as int,
            below as int,
            wide as int,
        );
        vstd::arithmetic::div_mod::lemma_div_by_multiple(top as int, below as int);
    }
    top / wide
}

/// Rounds `q / 2^j` up to an integer.
fn round_up(q: u64, j: u32) -> (r: u64)
    requires
        q <= 0x20_0000_0000_0000,
        j <= 78,
    ensures
        r == (q as nat * pow2((1074 - j) as nat) + rounding::double_one() - 1) / (
        rounding::double_one() as int),
{
    let ghost one = rounding::double_one();
    let ghost below = pow2((1074 - j) as nat);
    let ghost unit = pow2(j as nat);
    let ghost u = q as nat * below;
    proof {
        lemma2_to64();
        lemma2_to64_rest();
        lemma_pow2_adds(j as nat, (1074 - j) as nat);
        lemma_pow2_pos((1074 - j) as nat);
        lemma_pow2_pos(j as nat);
    }
    if q == 0 {
        proof {
            assert(0 * below == 0) by (nonlinear_arith);
            lemma_pow2_pos(1074);
            vstd::arithmetic::div_mod::lemma_basic_div(one - 1, one as int);
        }
        return 0;
    }
    if j >= 62 {
        proof {
            if j > 62 {
                lemma_pow2_strictly_increases(62, j as nat);
            }
            assert(0 < u < one) by (nonlinear_arith)
                requires
                    u == q * below,
                    one == unit * below,
                    0 < q < unit,
                    below > 0,
            ;
            vstd::arithmetic::div_mod::lemma_fundamental_div_mod_converse(
                u + one - 1,
                one as int,
                1,
                u - 1,
            );
        }
        return 1;
    }
    proof {
        lemma_pow2_strictly_increases(j as nat, 62);
        vstd::bits::lemma_u64_shl_is_mul(1, j as u64);
    }
    let scale: u64 = 1u64 << (j as u64);
    let whole: u64 = (q - 1) / scale;
    let rest: u64 = (q - 1) % scale;
    proof {
        assert(q - 1 == whole * scale + rest && rest < scale && whole < q) by (nonlinear_arith)
            requires
                whole == (q - 1) as int / scale as int,
                rest == (q - 1) as int % scale as int,
                scale > 0,
                q > 0,
        ;
        // u - 1 + one == (whole + 1) * one + (rest + 1) * below - 1
        let left = (rest + 1) * below - 1;
        assert(u + one - 1 == (whole + 1) * one + left && 0 <= left < one) by (nonlinear_arith)
            requires
                u == q * below,
                one == scale * below,
                q == whole * scale + rest + 1,
                rest + 1 <= scale,
                below > 0,
                left == (rest + 1) * below - 1,
        ;
        vstd::arithmetic::div_mod::lemma_fundamental_div_mod_converse(
            u + one - 1,
            one as int,
            whole + 1,
            left,
        );
    }
    whole + 1
}

/// Whether a chunk has to be stretched: an unsupported speed is refused, and a chunk that
/// already has the length owed at a speed as good as the default one is played as it is.
pub fn needs_stretching(input_len: usize, speed: u32) -> (r: Result<bool, String>)
    ensures
        match r {
            Ok(needed) => {
                &&& supported_speed(speed)
                &&& needed == !left_alone(input_len as nat, speed)
            },
            Err(e) => {
                &&& !supported_speed(speed)
                &&& e@ == "Speech playback speed must be between 0.75 and 1.5"@
            },
        },
{
    if let Err(e) = validate_speed(speed) {
        return Err(e);
    }
    if input_len == 0 || speed == DEFAULT_PLAYBACK_SPEED {
        return Ok(false);
    }
    let close: bool = binary32::is_at_least(
        UNITY_EPSILON,
        binary32::absolute(binary32::difference(speed, DEFAULT_PLAYBACK_SPEED)),
    );
    if !close || input_len > i32::MAX as usize {
        return Ok(true);
    }
    let (q, j) = slow_down(input_len as u32, speed);
    Ok(round_half_up(q, j) != input_len as u64)
}

/// Plans how a chunk goes through a time stretcher with the given latencies.
pub fn plan_stretch(input_len: usize, speed: u32, input_latency: i32, output_latency: i32) -> (r:
    Result<StretchPlan, String>)
    requires
        supported_speed(speed),
    ensures
        match plan_of(input_len as nat, speed, input_latency, output_latency) {
            Some(plan) => r == Ok::<StretchPlan, String>(plan) && plan.wf(),
            None => r matches Err(e) && e@ == "audio chunk is too large to process"@,
        },
{
    let input: i32 = match i32_len(input_len) {
        Ok(input) => input,
        Err(e) => {
            return Err(e);
        },
    };
    let (q, j) = slow_down(input as u32, speed);
    let expected: u64 = round_half_up(q, j);
    if expected > i32::MAX as u64 {
        return Err("audio chunk is too large to process".to_owned());
    }
    let latency: usize = latency_samples(input_latency);
    let (p, k) = slow_down(latency as u32, speed);
    let pre_roll: u64 = round_up(p, k);
    if pre_roll > i32::MAX as u64 {
        return Err("audio chunk is too large to process".to_owned());
    }
    Ok(
        StretchPlan {
            input,
            expected: expected as i32,
            latency: latency as i32,
            reset_pre_roll: pre_roll as i32,
            output_latency: latency_samples(output_latency) as i32,
        },
    )
}

/// Cuts the chunk out of what the time stretcher gave.
pub fn trim_stretched(plan: &StretchPlan, given: Stretched) -> (r: Result<Vec<u32>, String>)
    requires
        plan.wf(),
        given.all().len() <= usize::MAX,
    ensures
        match trimmed(*plan, given) {
            Ok(samples) => r matches Ok(v) && v@ == samples,
            Err(e) => r matches Err(m) && m@ == e,
        },
{
    let mut all: Vec<u32> = given.output;
    all.extend_from_slice(given.latency_output.as_slice());
    assert(all@ =~= given.output@ + given.latency_output@);
    all.extend_from_slice(given.flushed.as_slice());
    assert(all@ =~= given.all());
    let start: usize = (plan.reset_pre_roll as usize).saturating_add(plan.output_latency as usize);
    let end: usize = start.saturating_add(plan.expected as usize);
    if all.len() < end {
        let produced: String = text::decimal(all.len() as u64);
        let needed: String = text::decimal(end as u64);
        let first: String = text::joined3(
            "time stretcher produced ",
            produced.as_str(),
            " samples, need ",
        );
        return Err(text::joined(first.as_str(), needed.as_str()));
    }
    Ok(vstd::slice::slice_to_vec(vstd::slice::slice_subrange(all.as_slice(), start, end)))
}

/// Whether no length around a chunk of `len` samples is held back by how it is counted:
/// neither in binary64 nor in a machine word.
pub open spec fn counted(len: nat) -> bool {
    &&& len < 0x20_0000_0000_0000
    &&& 3 * i32::MAX <= usize::MAX
}

/// Plays one complete chunk at another speed and the same pitch: what comes back has the
/// length of the chunk divided by the speed.
///
/// A time stretcher for the sample rate is set up by `latencies`, which gives its input
/// and its output latency.  `stretch` runs it: on the chunk, then on as much silence as
/// the input latency, then until it is empty, each time for as many samples as the plan
/// says.  Neither is called where the chunk is left alone or the speed is refused.
pub fn process_complete_chunk<L, S>(
    input: &[u32],
    speed: u32,
    sample_rate: u32,
    latencies: L,
    stretch: S,
) -> (r: Result<Vec<u32>, String>) where
    L: FnOnce(u32) -> (i32, i32),
    S: FnOnce(Vec<u32>, StretchPlan) -> Stretched,

    requires
        stretched_at(input@.len(), speed) ==> call_requires(latencies, (sample_rate,)),
        forall|chunk: Vec<u32>, plan: StretchPlan|
            handed_over(input@, speed, sample_rate, latencies, chunk, plan)
                ==> #[trigger] call_requires(stretch, (chunk, plan)),
        forall|chunk: Vec<u32>, plan: StretchPlan, given: Stretched|
            handed_over(input@, speed, sample_rate, latencies, chunk, plan)
                && #[trigger] call_ensures(stretch, (chunk, plan), given) ==> given.all().len()
                <= usize::MAX,
    ensures
        processed(input@, speed, sample_rate, latencies, stretch, r),
        r matches Ok(samples) ==> counted(input@.len()) ==> samples@.len() == expected_len(
            input@.len(),
            speed,
        ),
{
    let needed: bool = match needs_stretching(input.len(), speed) {
        Ok(needed) => needed,
        Err(e) => {
            return Err(e);
        },
    };
    let chunk: Vec<u32> = vstd::slice::slice_to_vec(input);
    if !needed {
        let r: Result<Vec<u32>, String> = Ok(chunk);
        proof {
            if counted(input@.len()) {
                law_processed_chunk_has_the_length_owed(
                    input@,
                    speed,
                    sample_rate,
                    latencies,
                    stretch,
                    r,
                );
            }
        }
        return r;
    }
    let ghost set_up = latencies;
    let ghost run = stretch;
    let (input_latency, output_latency) = latencies(sample_rate);
    assert(call_ensures(set_up, (sample_rate,), (input_latency, output_latency)));
    let r: Result<Vec<u32>, String> = match plan_stretch(
        input.len(),
        speed,
        input_latency,
        output_latency,
    ) {
        Err(e) => Err(e),
        Ok(plan) => {
            let ghost handed = chunk;
            assert(handed_over(input@, speed, sample_rate, set_up, handed, plan));
            let given: Stretched = stretch(chunk, plan);
            assert(call_ensures(run, (handed, plan), given));
            trim_stretched(&plan, given)
        },
    };
    proof {
        if counted(input@.len()) && r is Ok {
            law_processed_chunk_has_the_length_owed(
                input@,
                speed,
                sample_rate,
                set_up,
                run,
                r,
            );
        }
    }
    r
}

/// Plays a chunk at another speed and the same pitch, except for a lead-in of fixed
/// length at its beginning, which stays as it is.
pub fn process_complete_chunk_preserving_lead_in<L, S>(
    input: &[u32],
    fixed_lead_in_samples: usize,
    speed: u32,
    sample_rate: u32,
    latencies: L,
    stretch: S,
) -> (r: Result<Vec<u32>, String>) where
    L: FnOnce(u32) -> (i32, i32),
    S: FnOnce(Vec<u32>, StretchPlan) -> Stretched,

    requires
        fixed_lead_in_samples <= input@.len() && stretched_at(
            (input@.len() - fixed_lead_in_samples) as nat,
            speed,
        ) ==> call_requires(latencies, (sample_rate,)),
        forall|chunk: Vec<u32>, plan: StretchPlan|
            fixed_lead_in_samples <= input@.len() && handed_over(
                input@.skip(fixed_lead_in_samples as int),
                speed,
                sample_rate,
                latencies,
                chunk,
                plan,
            ) ==> #[trigger] call_requires(stretch, (chunk, plan)),
        forall|chunk: Vec<u32>, plan: StretchPlan, given: Stretched|
            fixed_lead_in_samples <= input@.len() && handed_over(
                input@.skip(fixed_lead_in_samples as int),
                speed,
                sample_rate,
                latencies,
                chunk,
                plan,
            ) && #[trigger] call_ensures(stretch, (chunk, plan), given) ==> given.all().len()
                <= usize::MAX,
    ensures
        fixed_lead_in_samples > input@.len() ==> {
            &&& r matches Err(e)
            &&& e@ == long_lead_in_message(fixed_lead_in_samples as nat, input@.len())
        },
        fixed_lead_in_samples <= input@.len() ==> exists|speech: Result<Vec<u32>, String>|
            {
                &&& #[trigger] processed(
                    input@.skip(fixed_lead_in_samples as int),
                    speed,
                    sample_rate,
                    latencies,
                    stretch,
                    speech,
                )
                &&& match speech {
                    Ok(samples) => {
                        &&& r matches Ok(v)
                        &&& v@ == input@.take(fixed_lead_in_samples as int) + samples@
                    },
                    Err(e) => r == Err::<Vec<u32>, String>(e),
                }
            },
        r matches Ok(samples) ==> counted(input@.len()) ==> samples@.len() == fixed_lead_in_samples
            + expected_len((input@.len() - fixed_lead_in_samples) as nat, speed),
{
    if fixed_lead_in_samples > input.len() {
        let lead_in: String = text::decimal(fixed_lead_in_samples as u64);
        let len: String = text::decimal(input.len() as u64);
        let first: String = text::joined3(
            "fixed lead-in of ",
            lead_in.as_str(),
            " samples exceeds input length ",
        );
        return Err(text::joined(first.as_str(), len.as_str()));
    }
    let speech: &[u32] = vstd::slice::slice_subrange(input, fixed_lead_in_samples, input.len());
    assert(speech@ =~= input@.skip(fixed_lead_in_samples as int));
    match process_complete_chunk(speech, speed, sample_rate, latencies, stretch) {
        Err(e) => Err(e),
        Ok(samples) => {
            let mut output: Vec<u32> = vstd::slice::slice_to_vec(
                vstd::slice::slice_subrange(input, 0, fixed_lead_in_samples),
            );
            output.extend_from_slice(samples.as_slice());
            assert(output@ =~= input@.take(fixed_lead_in_samples as int) + samples@);
            Ok(output)
        },
    }
}

/// A stretched chunk has the length that was planned for it.
pub proof fn law_stretched_chunk_has_planned_length(plan: StretchPlan, given: Stretched)
    requires
        plan.wf(),
        plan.reset_pre_roll + plan.output_latency + plan.expected <= usize::MAX,
    ensures
        trimmed(plan, given) matches Ok(samples) ==> samples.len() == plan.expected,
{
}

/// The planned length of a chunk is its length divided by the speed, rounded to the
/// nearest integer, halves up: computing it in binary64 makes no difference for chunks of
/// up to 2^27 samples.
pub proof fn law_planned_length_is_the_quotient(len: nat, speed: u32)
    requires
        supported_speed(speed),
        len <= 0x800_0000,
    ensures
        expected_len(len, speed) == (2 * (len * binary32::one_units()) + binary32::absolute_units(
            speed,
        )) / (2 * binary32::absolute_units(speed)),
{
    let f = 0x80_0000 + speed as nat % 0x80_0000;
    let over: nat = if speed >= DEFAULT_PLAYBACK_SPEED {
        23
    } else {
        24
    };
    let c = pow2((149 - over) as nat);
    let scale = pow2(over);
    let d = binary32::absolute_units(speed);
    let n = len * binary32::one_units();
    let one = rounding::double_one();
    let s = slowed(len, speed);
    lemma2_to64();
    lemma_speed_units(speed);
    lemma_pow2_pos((149 - over) as nat);
    lemma_pow2_pos(1074);
    assert(d > 0 && n < 0x1000_0000 * d) by (nonlinear_arith)
        requires
            n == len * (scale * c),
            d == f * c,
            c > 0,
            len <= 0x800_0000,
            f >= 0x80_0000,
            scale == 0x80_0000 || (scale == 0x100_0000 && f >= 0xc0_0000),
    {
        assert(len * scale < 0x1000_0000 * f);
        assert((len * scale) * c < (0x1000_0000 * f) * c);
    }
    let a = len * scale;
    assert(n == a * c) by (nonlinear_arith)
        requires
            n == len * (scale * c),
            a == len * scale,
    ;
    let k = rounding::lemma_double_quotient_error(n, d, 28);
    let place = pow2(k);
    let t = (2 * n + d) / (2 * d);
    let gap = (2 * t + 1) as int;
    // One is at least 2^25 times the last place.
    let ratio = pow2((1073 - k) as nat);
    lemma_pow2_adds((1073 - k) as nat, k);
    lemma_pow2_unfold(1074);
    lemma_pow2_pos(k);
    if 1073 - k > 24 {
        lemma_pow2_strictly_increases(24, (1073 - k) as nat);
    }
    vstd::arithmetic::div_mod::lemma_fundamental_div_mod((2 * n + d) as int, (2 * d) as int);
    assert((gap - 2) * d <= 2 * n && 2 * n < gap * d) by (nonlinear_arith)
        requires
            2 * n + d == (2 * d) * t + (2 * n + d) % (2 * d),
            0 <= (2 * n + d) % (2 * d) < 2 * d,
            gap == 2 * t + 1,
    ;
    lemma_upper_gap(s, n, d, one, place, ratio, gap, a, f, c);
    if 2 * n == (gap - 2) * d {
        assert((n * one) % (d * place) == 0) by {
            assert(n * one == ((gap - 2) * ratio) * (d * place)) by (nonlinear_arith)
                requires
                    2 * n == (gap - 2) * d,
                    one == 2 * (ratio * place),
            ;
            assert(d * place > 0) by (nonlinear_arith)
                requires
                    d > 0,
                    place > 0,
            ;
            vstd::arithmetic::div_mod::lemma_mod_multiples_basic(
                (gap - 2) * ratio,
                (d * place) as int,
            );
        }
        assert((gap - 2) * one == 2 * s) by (nonlinear_arith)
            requires
                2 * n == (gap - 2) * d,
                s * d == n * one,
                d > 0,
        {
            assert(((gap - 2) * one) * d == (2 * s) * d);
        }
    } else {
        lemma_lower_gap(s, n, d, one, place, ratio, gap - 2, a, f, c);
    }
    assert(2 * s + one == t * (2 * one) + (2 * s - (gap - 2) * one)) by (nonlinear_arith)
        requires
            gap == 2 * t + 1,
    ;
    assert(gap * one == (gap - 2) * one + 2 * one) by (nonlinear_arith);
    vstd::arithmetic::div_mod::lemma_fundamental_div_mod_converse(
        (2 * s + one) as int,
        (2 * one) as int,
        t as int,
        2 * s - (gap - 2) * one,
    );
}

/// A quotient that lies below an odd number of halves stays below it when rounded.
proof fn lemma_upper_gap(
    s: nat,
    n: nat,
    d: nat,
    one: nat,
    place: nat,
    ratio: nat,
    gap: int,
    a: nat,
    f: nat,
    c: nat,
)
    by (nonlinear_arith)
    requires
        n == a * c,
        d == f * c,
        c > 0,
        0 < f < 0x100_0000,
        one == 2 * (ratio * place),
        ratio >= 0x100_0000,
        place > 0,
        2 * n < gap * d,
        2 * (s * d) <= 2 * (n * one) + d * place,
    ensures
        2 * s < gap * one,
{
    assert(2 * a < gap * f) by {
        assert((2 * a) * c < (gap * f) * c);
    }
    assert(2 * n + c <= gap * d) by {
        assert((2 * a + 1) * c <= (gap * f) * c);
    }
    assert(d * place < c * one) by {
        assert(f < 2 * ratio);
        assert(f * (c * place) < (2 * ratio) * (c * place));
    }
    assert((2 * n + c) * one <= (gap * d) * one);
    assert((2 * s) * d < (gap * one) * d);
}

/// A quotient that lies above an odd number of halves stays above it when rounded.
proof fn lemma_lower_gap(
    s: nat,
    n: nat,
    d: nat,
    one: nat,
    place: nat,
    ratio: nat,
    gap: int,
    a: nat,
    f: nat,
    c: nat,
)
    by (nonlinear_arith)
    requires
        n == a * c,
        d == f * c,
        c > 0,
        0 < f < 0x100_0000,
        one == 2 * (ratio * place),
        ratio >= 0x100_0000,
        place > 0,
        2 * n > gap * d,
        2 * (n * one) <= 2 * (s * d) + d * place,
    ensures
        2 * s > gap * one,
{
    assert(2 * a > gap * f) by {
        assert((2 * a) * c > (gap * f) * c);
    }
    assert(2 * n >= gap * d + c) by {
        assert((2 * a) * c >= (gap * f + 1) * c);
    }
    assert(d * place < c * one) by {
        assert(f < 2 * ratio);
        assert(f * (c * place) < (2 * ratio) * (c * place));
    }
    assert((2 * n) * one >= (gap * d + c) * one);
    assert((2 * s) * d > (gap * one) * d);
}

/// At the default speed a chunk keeps its length.
proof fn lemma_default_speed_keeps_the_length(len: nat)
    requires
        len < 0x20_0000_0000_0000,
    ensures
        expected_len(len, DEFAULT_PLAYBACK_SPEED) == len,
{
    let d = binary32::absolute_units(DEFAULT_PLAYBACK_SPEED);
    let one = rounding::double_one();
    let s = slowed(len, DEFAULT_PLAYBACK_SPEED);
    lemma2_to64();
    lemma2_to64_rest();
    lemma_speed_units(DEFAULT_PLAYBACK_SPEED);
    lemma_pow2_pos(149);
    lemma_pow2_pos(1074);
    let n = len * d;
    assert(n < pow2(53) * d) by (nonlinear_arith)
        requires
            n == len * d,
            len < pow2(53),
            d > 0,
    ;
    let k = rounding::lemma_double_quotient_error(n, d, 53);
    let place = pow2(k);
    let ratio = pow2((1074 - k) as nat);
    lemma_pow2_pos(k);
    lemma_pow2_adds((1074 - k) as nat, k);
    assert(n * one == (len * ratio) * (d * place) && d * place > 0) by (nonlinear_arith)
        requires
            n == len * d,
            one == ratio * place,
            d > 0,
            place > 0,
    ;
    vstd::arithmetic::div_mod::lemma_mod_multiples_basic(
        (len * ratio) as int,
        (d * place) as int,
    );
    assert(s == len * one) by (nonlinear_arith)
        requires
            s * d == n * one,
            n == len * d,
            d > 0,
    {
        assert(s * d == (len * one) * d);
    }
    assert(2 * s + one == len * (2 * one) + one) by (nonlinear_arith)
        requires
            s == len * one,
    ;
    vstd::arithmetic::div_mod::lemma_fundamental_div_mod_converse(
        (2 * s + one) as int,
        (2 * one) as int,
        len as int,
        one as int,
    );
}

/// Whatever comes back of a chunk has the length owed at the speed.
pub proof fn law_processed_chunk_has_the_length_owed<L, S>(
    input: Seq<u32>,
    speed: u32,
    sample_rate: u32,
    latencies: L,
    stretch: S,
    r: Result<Vec<u32>, String>,
) where L: FnOnce(u32) -> (i32, i32), S: FnOnce(Vec<u32>, StretchPlan) -> Stretched
    requires
        processed(input, speed, sample_rate, latencies, stretch, r),
        counted(input.len()),
    ensures
        r matches Ok(samples) ==> samples@.len() == expected_len(input.len(), speed),
{
    if r is Ok {
        if left_alone(input.len(), speed) {
            if speed == DEFAULT_PLAYBACK_SPEED {
                lemma_default_speed_keeps_the_length(input.len());
            } else if input.len() == 0 {
                lemma_nothing_takes_no_time(speed);
            }
        } else {
            let latency = choose|latency: (i32, i32)|
                {
                    &&& #[trigger] call_ensures(latencies, (sample_rate,), latency)
                    &&& match plan_of(input.len(), speed, latency.0, latency.1) {
                        None => false,
                        Some(plan) => exists|chunk: Vec<u32>, given: Stretched|
                            {
                                &&& #[trigger] call_ensures(stretch, (chunk, plan), given)
                                &&& chunk@ == input
                                &&& match trimmed(plan, given) {
                                    Ok(samples) => r matches Ok(v) && v@ == samples,
                                    Err(e) => false,
                                }
                            },
                    }
                };
            let plan = plan_of(input.len(), speed, latency.0, latency.1)->Some_0;
            let (chunk, given) = choose|chunk: Vec<u32>, given: Stretched|
                {
                    &&& #[trigger] call_ensures(stretch, (chunk, plan), given)
                    &&& chunk@ == input
                    &&& match trimmed(plan, given) {
                        Ok(samples) => r matches Ok(v) && v@ == samples,
                        Err(e) => false,
                    }
                };
            law_stretched_chunk_has_planned_length(plan, given);
        }
    }
}

/// A chunk without samples has none at any speed.
proof fn lemma_nothing_takes_no_time(speed: u32)
    requires
        supported_speed(speed),
    ensures
        expected_len(0, speed) == 0,
{
    law_planned_length_is_the_quotient(0, speed);
    let d = binary32::absolute_units(speed);
    lemma_speed_units(speed);
    lemma_pow2_pos(126);
    lemma_pow2_pos(125);
    assert(0 * binary32::one_units() == 0) by (nonlinear_arith);
    assert(d > 0) by (nonlinear_arith)
        requires
            d == (0x80_0000 + speed as nat % 0x80_0000) * pow2(126) || d == (0x80_0000
                + speed as nat % 0x80_0000) * pow2(125),
            pow2(126) > 0,
            pow2(125) > 0,
    ;
    vstd::arithmetic::div_mod::lemma_basic_div(d as int, (2 * d) as int);
}

/// What comes back of a stretched chunk is what the time stretcher gave behind both
/// latencies: sample `i` is the one that stands as many samples further on, at any speed,
/// and a stretcher that gives no more than it owes is used up to its last sample.
pub proof fn law_both_latencies_are_cut(plan: StretchPlan, given: Stretched, i: int)
    requires
        plan.wf(),
        plan.reset_pre_roll + plan.output_latency + plan.expected <= usize::MAX,
    ensures
        ({
            let all = given.output@ + given.latency_output@ + given.flushed@;
            let skipped = plan.reset_pre_roll + plan.output_latency;
            &&& trimmed(plan, given) is Ok <==> all.len() >= skipped + plan.expected
            &&& trimmed(plan, given) matches Ok(samples) ==> {
                &&& samples.len() == plan.expected
                &&& 0 <= i < plan.expected ==> samples[i] == all[skipped + i]
                &&& plan.expected > 0 && all.len() == skipped + plan.expected ==> samples.last()
                    == all.last()
            }
        }),
{
}

/// The samples that come out before the chunk are the input latency at the new speed,
/// rounded up: no fewer than the latency divided by the speed, and less than one more.
pub proof fn law_pre_roll_is_the_latency_at_the_new_speed(latency: nat, speed: u32)
    requires
        supported_speed(speed),
        latency <= 0x800_0000,
    ensures
        ({
            let p = pre_roll_len(latency, speed);
            let d = binary32::absolute_units(speed);
            let n = latency * binary32::one_units();
            &&& n <= p * d
            &&& p * d < n + d
        }),
{
    let f = 0x80_0000 + speed as nat % 0x80_0000;
    let over: nat = if speed >= DEFAULT_PLAYBACK_SPEED {
        23
    } else {
        24
    };
    let c = pow2((149 - over) as nat);
    let scale = pow2(over);
    let d = binary32::absolute_units(speed);
    let n = latency * binary32::one_units();
    let one = rounding::double_one();
    let s = slowed(latency, speed);
    lemma2_to64();
    lemma_speed_units(speed);
    lemma_pow2_pos((149 - over) as nat);
    lemma_pow2_pos(1074);
    assert(d > 0 && n < 0x1000_0000 * d) by (nonlinear_arith)
        requires
            n == latency * (scale * c),
            d == f * c,
            c > 0,
            latency <= 0x800_0000,
            f >= 0x80_0000,
            scale == 0x80_0000 || (scale == 0x100_0000 && f >= 0xc0_0000),
    {
        assert(latency * scale < 0x1000_0000 * f);
        assert((latency * scale) * c < (0x1000_0000 * f) * c);
    }
    let a = latency * scale;
    assert(n == a * c) by (nonlinear_arith)
        requires
            n == latency * (scale * c),
            a == latency * scale,
    ;
    let k = rounding::lemma_double_quotient_error(n, d, 28);
    let place = pow2(k);
    let ratio = pow2((1073 - k) as nat);
    lemma_pow2_adds((1073 - k) as nat, k);
    lemma_pow2_unfold(1074);
    lemma_pow2_pos(k);
    if 1073 - k > 24 {
        lemma_pow2_strictly_increases(24, (1073 - k) as nat);
    }
    // The exact quotient rounded up.
    let t = (n + d - 1) / (d as int);
    vstd::arithmetic::div_mod::lemma_fundamental_div_mod(n + d - 1, d as int);
    assert(n <= t * d && t * d < n + d && t >= 0) by (nonlinear_arith)
        requires
            n + d - 1 == d * t + (n + d - 1) % (d as int),
            0 <= (n + d - 1) % (d as int) < d,
            d > 0,
            n >= 0,
    ;
    let below = 2 * (t - 1);
    assert(2 * n > below * d) by (nonlinear_arith)
        requires
            t * d < n + d,
            below == 2 * (t - 1),
    ;
    lemma_lower_gap(s, n, d, one, place, ratio, below, a, f, c);
    if n == t * d {
        assert((n * one) % (d * place) == 0) by {
            assert(n * one == ((2 * t) * ratio) * (d * place)) by (nonlinear_arith)
                requires
                    n == t * d,
                    one == 2 * (ratio * place),
            ;
            assert(d * place > 0) by (nonlinear_arith)
                requires
                    d > 0,
                    place > 0,
            ;
            vstd::arithmetic::div_mod::lemma_mod_multiples_basic(
                (2 * t) * ratio,
                (d * place) as int,
            );
        }
        assert(s == t * one) by (nonlinear_arith)
            requires
                n == t * d,
                s * d == n * one,
                d > 0,
        {
            assert((t * one) * d == s * d);
        }
    } else {
        let above = 2 * t;
        assert(2 * n < above * d) by (nonlinear_arith)
            requires
                n < t * d,
                above == 2 * t,
        ;
        lemma_upper_gap(s, n, d, one, place, ratio, above, a, f, c);
        assert(s < t * one) by (nonlinear_arith)
            requires
                2 * s < above * one,
                above == 2 * t,
        ;
    }
    assert(s > (t - 1) * one && (t - 1) * one == t * one - one) by (nonlinear_arith)
        requires
            2 * s > below * one,
            below == 2 * (t - 1),
    ;
    vstd::arithmetic::div_mod::lemma_fundamental_div_mod_converse(
        s + one - 1,
        one as int,
        t,
        s + one - 1 - t * one,
    );
}

/// What is handed to the time stretcher is counted as it is: the samples of the chunk, as
/// much silence as the input latency, and what is flushed, the output latency.
pub proof fn law_plans_count_what_is_handed_over(
    input_len: nat,
    speed: u32,
    input_latency: i32,
    output_latency: i32,
)
    requires
        supported_speed(speed),
    ensures
        plan_of(input_len, speed, input_latency, output_latency) matches Some(plan) ==> {
            &&& plan.input == input_len
            &&& plan.latency == if input_latency > 0 {
                input_latency
            } else {
                0
            }
            &&& plan.output_latency == if output_latency > 0 {
                output_latency
            } else {
                0
            }
            &&& input_len <= 0x800_0000 ==> {
                let d = binary32::absolute_units(speed);
                let n = input_len * binary32::one_units();
                &&& 2 * n < (2 * plan.expected + 1) * d
                &&& (2 * plan.expected - 1) * d <= 2 * n
            }
            &&& input_latency <= 0x800_0000 ==> {
                let d = binary32::absolute_units(speed);
                let n = plan.latency * binary32::one_units();
                &&& n <= plan.reset_pre_roll * d
                &&& plan.reset_pre_roll * d < n + d
            }
        },
        input_len <= 0x800_0000 && input_latency <= 0x800_0000 ==> plan_of(
            input_len,
            speed,
            input_latency,
            output_latency,
        ) is Some,
{
    let d = binary32::absolute_units(speed);
    let one = binary32::one_units();
    lemma_speed_units(speed);
    lemma_pow2_pos(126);
    lemma_pow2_pos(125);
    let f = 0x80_0000 + speed as nat % 0x80_0000;
    let over: nat = if speed >= DEFAULT_PLAYBACK_SPEED {
        23
    } else {
        24
    };
    let c = pow2((149 - over) as nat);
    lemma2_to64();
    assert(d > 0 && one <= 2 * d) by (nonlinear_arith)
        requires
            d == f * c,
            one == pow2(over) * c,
            c > 0,
            f >= 0x80_0000,
            pow2(over) <= 0x100_0000,
    {
        assert(pow2(over) * c <= 0x100_0000 * c);
        assert(f * c >= 0x80_0000 * c);
    }
    if input_len <= 0x800_0000 {
        law_planned_length_is_the_quotient(input_len, speed);
        let n = input_len * one;
        let t = expected_len(input_len, speed);
        vstd::arithmetic::div_mod::lemma_fundamental_div_mod((2 * n + d) as int, (2 * d) as int);
        assert(2 * n < (2 * t + 1) * d && (2 * t - 1) * d <= 2 * n && t <= 0x1000_0001)
            by (nonlinear_arith)
            requires
                2 * n + d == (2 * d) * t + (2 * n + d) % (2 * d),
                0 <= (2 * n + d) % (2 * d) < 2 * d,
                n == input_len * one,
                input_len <= 0x800_0000,
                one <= 2 * d,
                d > 0,
        {
            assert(n <= 0x800_0000 * one);
            if t > 0x1000_0001 {
                assert((2 * d) * t >= (2 * d) * 0x1000_0002);
            }
        }
    }
    if input_latency <= 0x800_0000 {
        let latency = latency_of(input_latency);
        law_pre_roll_is_the_latency_at_the_new_speed(latency, speed);
        let n = latency * one;
        let p = pre_roll_len(latency, speed);
        assert(p <= 0x1000_0001) by (nonlinear_arith)
            requires
                p * d < n + d,
                n == latency * one,
                latency <= 0x800_0000,
                one <= 2 * d,
                d > 0,
        {
            assert(n <= 0x800_0000 * one);
            if p > 0x1000_0001 {
                assert(p * d >= 0x1000_0002 * d);
            }
        }
    }
}

/// A chunk that is not left alone comes back as the time stretcher gave it: the stretcher
/// was set up for the sample rate and given the whole chunk, and of all that it gave, for
/// the chunk, for the silence behind it and when flushed, sample `i` of the result stands
/// behind the input latency at the new speed and the output latency.
pub proof fn law_stretched_chunk_is_what_the_stretcher_gave<L, S>(
    input: Seq<u32>,
    speed: u32,
    sample_rate: u32,
    latencies: L,
    stretch: S,
    v: Vec<u32>,
) where L: FnOnce(u32) -> (i32, i32), S: FnOnce(Vec<u32>, StretchPlan) -> Stretched
    requires
        processed(input, speed, sample_rate, latencies, stretch, Ok(v)),
        !left_alone(input.len(), speed),
        counted(input.len()),
    ensures
        exists|latency: (i32, i32), chunk: Vec<u32>, plan: StretchPlan, given: Stretched|
            {
                let all = given.output@ + given.latency_output@ + given.flushed@;
                let skipped = plan.reset_pre_roll + plan.output_latency;
                let d = binary32::absolute_units(speed);
                let n = plan.latency * binary32::one_units();
                &&& #[trigger] call_ensures(latencies, (sample_rate,), latency)
                &&& #[trigger] call_ensures(stretch, (chunk, plan), given)
                &&& chunk@ == input
                &&& plan.input == input.len()
                &&& plan.latency == if latency.0 > 0 {
                    latency.0
                } else {
                    0
                }
                &&& plan.output_latency == if latency.1 > 0 {
                    latency.1
                } else {
                    0
                }
                &&& latency.0 <= 0x800_0000 ==> n <= plan.reset_pre_roll * d
                    && plan.reset_pre_roll * d < n + d
                &&& v@.len() == plan.expected
                &&& all.len() >= skipped + v@.len()
                &&& forall|i: int| 0 <= i < v@.len() ==> #[trigger] v@[i] == all[skipped + i]
            },
{
    let latency = choose|latency: (i32, i32)|
        {
            &&& #[trigger] call_ensures(latencies, (sample_rate,), latency)
            &&& match plan_of(input.len(), speed, latency.0, latency.1) {
                None => false,
                Some(plan) => exists|chunk: Vec<u32>, given: Stretched|
                    {
                        &&& #[trigger] call_ensures(stretch, (chunk, plan), given)
                        &&& chunk@ == input
                        &&& trimmed(plan, given) == Ok::<Seq<u32>, Seq<char>>(v@)
                    },
            }
        };
    let plan = plan_of(input.len(), speed, latency.0, latency.1)->Some_0;
    let (chunk, given) = choose|chunk: Vec<u32>, given: Stretched|
        {
            &&& #[trigger] call_ensures(stretch, (chunk, plan), given)
            &&& chunk@ == input
            &&& trimmed(plan, given) == Ok::<Seq<u32>, Seq<char>>(v@)
        };
    law_plans_count_what_is_handed_over(input.len(), speed, latency.0, latency.1);
    law_both_latencies_are_cut(plan, given, 0);
    let all = given.output@ + given.latency_output@ + given.flushed@;
    let skipped = plan.reset_pre_roll + plan.output_latency;
    assert forall|i: int| 0 <= i < v@.len() implies #[trigger] v@[i] == all[skipped + i] by {
        law_both_latencies_are_cut(plan, given, i);
    }
    assert(call_ensures(latencies, (sample_rate,), latency));
    assert(call_ensures(stretch, (chunk, plan), given));
}

/// The supported speeds are those from three quarters to one and a half.
pub proof fn law_supported_speeds(speed: u32)
    ensures
        supported_speed(speed) <==> {
            &&& speed < 0x7f80_0000
            &&& 3 * binary32::one_units() <= 4 * binary32::absolute_units(speed)
            &&& 2 * binary32::absolute_units(speed) <= 3 * binary32::one_units()
        },
{
    let one = binary32::one_units();
    let q = pow2(125);
    lemma2_to64();
    lemma_pow2_pos(125);
    lemma_pow2_adds(24, 125);
    lemma_pow2_adds(1, 125);
    assert(one == 0x100_0000 * q);
    assert(rounding::units(0x3f40_0000) == 0xc0_0000 * q);
    assert(rounding::units(0x3f3f_ffff) == 0xbf_ffff * q);
    assert(pow2(126) == 2 * q);
    assert(rounding::units(0x3fc0_0000) == 0xc0_0000 * pow2(126));
    assert(rounding::units(0x3fc0_0001) == 0xc0_0001 * pow2(126));
    if speed < 0x7f80_0000 {
        if speed >= 0x3f40_0000 {
            rounding::lemma_units_are_monotone(0x3f40_0000, speed as nat);
        } else {
            rounding::lemma_units_are_monotone(speed as nat, 0x3f3f_ffff);
        }
        if speed <= 0x3fc0_0000 {
            rounding::lemma_units_are_monotone(speed as nat, 0x3fc0_0000);
        } else {
            rounding::lemma_units_are_monotone(0x3fc0_0001, speed as nat);
        }
    }
}

/// Only a chunk at a speed within 0.0001 of the default one is ever left alone, and there
/// only one that keeps its length and is not too large to process; but an empty one always
/// is.
pub proof fn law_only_unit_speed_leaves_chunks_alone(len: nat, speed: u32)
    requires
        supported_speed(speed),
    ensures
        ({
            let d = binary32::absolute_units(speed) as int;
            let one = binary32::one_units() as int;
            let off = if d < one {
                one - d
            } else {
                d - one
            };
            left_alone(len, speed) <==> len == 0 || off == 0 || (off <= binary32::absolute_units(
                0x38d1_b717,
            ) && expected_len(len, speed) == len && len <= 0x7fff_ffff)
        }),
{
    let d = binary32::absolute_units(speed);
    let one = binary32::one_units();
    let f = 0x80_0000 + speed as nat % 0x80_0000;
    let over: nat = if speed >= DEFAULT_PLAYBACK_SPEED {
        23
    } else {
        24
    };
    let c = pow2((149 - over) as nat);
    let scale = pow2(over);
    lemma2_to64();
    lemma_speed_units(speed);
    lemma_pow2_pos((149 - over) as nat);
    let a: nat = if f < scale {
        (scale - f) as nat
    } else {
        (f - scale) as nat
    };
    let off = a * c;
    assert(off == if d < one {
        one - d
    } else {
        d - one
    }) by (nonlinear_arith)
        requires
            d == f * c,
            one == scale * c,
            c > 0,
            off == a * c,
            a == if f < scale {
                scale - f
            } else {
                f - scale
            },
    {
        if f < scale {
            assert(f * c < scale * c);
        } else {
            assert(f * c >= scale * c);
        }
    }
    assert(binary32::absolute_units(DEFAULT_PLAYBACK_SPEED) == one) by {
        lemma_speed_units(DEFAULT_PLAYBACK_SPEED);
    }
    let difference = binary32::difference_of(speed, DEFAULT_PLAYBACK_SPEED);
    assert(off <= one) by (nonlinear_arith)
        requires
            off == a * c,
            one == scale * c,
            a <= scale,
    ;
    assert(off * 1 == off && (a * c) * 1 == off);
    rounding::lemma_nearest_is_monotone(off, one * 1, 1);
    rounding::lemma_nearest_on_grid(binary32::ONE as nat, 1);
    rounding::lemma_nearest_is_exact(a, (149 - over) as nat, 1);
    rounding::lemma_nearest_on_grid(0, 1);
    let m = binary32::magnitude(difference);
    assert(m == rounding::nearest(off, 1));
    assert(rounding::units(m as nat) == off);
    if m <= 0x38d1_b717 {
        rounding::lemma_units_are_monotone(m as nat, 0x38d1_b717);
    } else {
        accuracy::lemma_units_go_up(0x38d1_b717, m as nat);
    }
    if off == 0 && speed != DEFAULT_PLAYBACK_SPEED {
        assert(a > 0);
        assert(a * c > 0) by (nonlinear_arith)
            requires
                a > 0,
                c > 0,
        ;
    }
    assert(speed == DEFAULT_PLAYBACK_SPEED <==> off == 0);
    assert(unity(speed) <==> m <= 0x38d1_b717);
    assert(m <= 0x38d1_b717 <==> off <= rounding::units(0x38d1_b717));
}

/// An unsupported speed is refused, and a chunk that is left alone comes back as it is,
/// whatever the time stretcher would do.
pub proof fn law_chunks_that_need_no_stretching<L, S>(
    input: Seq<u32>,
    speed: u32,
    sample_rate: u32,
    latencies: L,
    stretch: S,
    r: Result<Vec<u32>, String>,
) where L: FnOnce(u32) -> (i32, i32), S: FnOnce(Vec<u32>, StretchPlan) -> Stretched
    requires
        processed(input, speed, sample_rate, latencies, stretch, r),
    ensures
        !supported_speed(speed) ==> (r matches Err(m) && m@
            == "Speech playback speed must be between 0.75 and 1.5"@),
        supported_speed(speed) && left_alone(input.len(), speed) ==> (r matches Ok(v) && v@
            == input),
{
}

/// Processing a chunk at a supported speed fails for two reasons only, which it names: a
/// length that the time stretcher cannot take, or too little given by it.
pub proof fn law_processing_fails_for_a_reason<L, S>(
    input: Seq<u32>,
    speed: u32,
    sample_rate: u32,
    latencies: L,
    stretch: S,
    m: String,
)
    where L: FnOnce(u32) -> (i32, i32), S: FnOnce(Vec<u32>, StretchPlan) -> Stretched

    requires
        processed(input, speed, sample_rate, latencies, stretch, Err(m)),
        supported_speed(speed),
        counted(input.len()),
    ensures
        !left_alone(input.len(), speed),
        exists|latency: (i32, i32)|
            {
                &&& #[trigger] call_ensures(latencies, (sample_rate,), latency)
                &&& {
                    ||| m@ == "audio chunk is too large to process"@ && (input.len() > 0x7fff_ffff
                        || expected_len(input.len(), speed) > 0x7fff_ffff || pre_roll_len(
                        latency_of(latency.0),
                        speed,
                    ) > 0x7fff_ffff)
                    ||| exists|chunk: Vec<u32>, plan: StretchPlan, given: Stretched|
                        {
                            let made = given.output@.len() + given.latency_output@.len()
                                + given.flushed@.len();
                            let needed = plan.reset_pre_roll + plan.output_latency + plan.expected;
                            &&& #[trigger] call_ensures(stretch, (chunk, plan), given)
                            &&& chunk@ == input
                            &&& plan_of(input.len(), speed, latency.0, latency.1) == Some(plan)
                            &&& made < needed
                            &&& m@ == short_output_message(made, needed as nat)
                        }
                }
            },
{
    let latency = choose|latency: (i32, i32)|
        {
            &&& #[trigger] call_ensures(latencies, (sample_rate,), latency)
            &&& match plan_of(input.len(), speed, latency.0, latency.1) {
                None => m@ == "audio chunk is too large to process"@,
                Some(plan) => exists|chunk: Vec<u32>, given: Stretched|
                    {
                        &&& #[trigger] call_ensures(stretch, (chunk, plan), given)
                        &&& chunk@ == input
                        &&& trimmed(plan, given) == Err::<Seq<u32>, Seq<char>>(m@)
                    },
            }
        };
    if let Some(plan) = plan_of(input.len(), speed, latency.0, latency.1) {
        let (chunk, given) = choose|chunk: Vec<u32>, given: Stretched|
            {
                &&& #[trigger] call_ensures(stretch, (chunk, plan), given)
                &&& chunk@ == input
                &&& trimmed(plan, given) == Err::<Seq<u32>, Seq<char>>(m@)
            };
        assert(call_ensures(stretch, (chunk, plan), given));
    }
    assert(call_ensures(latencies, (sample_rate,), latency));
}

/// A chunk has a plan exactly where no length is above what the time stretcher can take,
/// and every chunk of fewer than 2^53 samples is counted as it is where a machine word can
/// hold three of those lengths.
pub proof fn law_lengths_that_can_be_planned(
    input_len: nat,
    speed: u32,
    input_latency: i32,
    output_latency: i32,
)
    ensures
        plan_of(input_len, speed, input_latency, output_latency) is None <==> {
            ||| input_len > 0x7fff_ffff
            ||| expected_len(input_len, speed) > 0x7fff_ffff
            ||| pre_roll_len(
                if input_latency > 0 {
                    input_latency as nat
                } else {
                    0
                },
                speed,
            ) > 0x7fff_ffff
        },
        input_len < 0x20_0000_0000_0000 && usize::MAX >= 0x1_7fff_fffd ==> counted(input_len),
{
}

/// An output that is too short is refused by both lengths, in decimal.
pub proof fn law_short_output_names_both_lengths(produced: nat, needed: nat) -> (digits: (
    Seq<char>,
    Seq<char>,
))
    ensures
        text::value_of(digits.0) == produced,
        text::value_of(digits.1) == needed,
        short_output_message(produced, needed) == "time stretcher produced "@ + digits.0
            + " samples, need "@ + digits.1,
{
    text::law_decimal_can_be_read_again(produced);
    text::law_decimal_can_be_read_again(needed);
    (text::decimal_of(produced), text::decimal_of(needed))
}

/// A lead-in that is too long is refused by both lengths, in decimal.
pub proof fn law_long_lead_in_names_both_lengths(lead_in: nat, len: nat) -> (digits: (
    Seq<char>,
    Seq<char>,
))
    ensures
        text::value_of(digits.0) == lead_in,
        text::value_of(digits.1) == len,
        long_lead_in_message(lead_in, len) == "fixed lead-in of "@ + digits.0
            + " samples exceeds input length "@ + digits.1,
{
    text::law_decimal_can_be_read_again(lead_in);
    text::law_decimal_can_be_read_again(len);
    (text::decimal_of(lead_in), text::decimal_of(len))
}

/// However long a chunk is, its length at another speed is the integer nearest to the
/// binary64 quotient of the two, halves up, and a latency becomes the integer at or next
/// above its quotient.
pub proof fn law_lengths_are_rounded_quotients(len: nat, speed: u32)
    requires
        supported_speed(speed),
    ensures
        ({
            let one = pow2(1074) as int;
            let q = rounding::double_quotient(
                len * binary32::one_units(),
                binary32::absolute_units(speed),
            );
            let near = expected_len(len, speed) * one;
            let above = pre_roll_len(len, speed) * one;
            &&& 2 * near <= 2 * q + one
            &&& 2 * q < 2 * near + one
            &&& q <= above < q + one
        }),
{
    let one = pow2(1074) as int;
    let q = slowed(len, speed) as int;
    lemma_pow2_pos(1074);
    vstd::arithmetic::div_mod::lemma_fundamental_div_mod(2 * q + one, 2 * one);
    vstd::arithmetic::div_mod::lemma_fundamental_div_mod(q + one - 1, one);
    let e = (2 * q + one) / (2 * one);
    let c = (q + one - 1) / one;
    assert(e >= 0 && c >= 0) by (nonlinear_arith)
        requires
            e == (2 * q + one) / (2 * one),
            c == (q + one - 1) / one,
            q >= 0,
            one > 0,
    ;
    assert((2 * one) * e == 2 * (e * one) && one * c == c * one) by (nonlinear_arith);
}

} // verus!
