//! Playback at another speed.

use std::cell::RefCell;

use pocket_voice::playback_speed::process_complete_chunk;
use pocket_voice::playback_speed::process_complete_chunk_preserving_lead_in;
use pocket_voice::playback_speed::{i32_len, latency_samples, needs_stretching, plan_stretch};
use pocket_voice::playback_speed::{trim_stretched, validate_speed, StretchPlan, Stretched};
use pocket_voice::streaming::{PocketStreamAssembler, SAMPLE_RATE, SENTENCE_LEAD_IN_SAMPLES};

fn bits(samples: &[f32]) -> Vec<u32> {
    samples.iter().map(|sample| sample.to_bits()).collect()
}

fn floats(samples: &[u32]) -> Vec<f32> {
    samples.iter().map(|sample| f32::from_bits(*sample)).collect()
}

/// Runs a real time stretcher as the plan says.
fn run(stretch: &mut ssstretch::Stretch, chunk: Vec<u32>, plan: StretchPlan) -> Stretched {
    let inputs = [floats(&chunk)];
    let mut output = [Vec::new()];
    stretch.process_vec(&inputs, plan.input, &mut output, plan.expected);
    let silence = [vec![0.0; plan.latency as usize]];
    let mut latency_output = [Vec::new()];
    stretch.process_vec(&silence, plan.latency, &mut latency_output, plan.reset_pre_roll);
    let mut flushed = [Vec::new()];
    stretch.flush_vec(&mut flushed, plan.output_latency);
    Stretched {
        output: bits(&output[0]),
        latency_output: bits(&latency_output[0]),
        flushed: bits(&flushed[0]),
    }
}

fn speak(input: &[f32], lead_in: usize, speed: f32) -> Result<Vec<f32>, String> {
    let stretch = RefCell::new(ssstretch::Stretch::new());
    process_complete_chunk_preserving_lead_in(
        &bits(input),
        lead_in,
        speed.to_bits(),
        SAMPLE_RATE,
        |sample_rate| {
            stretch.borrow_mut().preset_default(1, sample_rate as f32);
            (stretch.borrow().input_latency(), stretch.borrow().output_latency())
        },
        |chunk, plan| run(&mut stretch.borrow_mut(), chunk, plan),
    )
    .map(|samples| floats(&samples))
}

/// A sentence as it is queued: a lead-in, the speech and a closing silence.
fn production_sentence(speech: Vec<f32>, silence_buf_len: usize) -> Vec<f32> {
    let mut assembler = PocketStreamAssembler::default();
    let mut queued = Vec::new();
    assembler
        .finish(&bits(&speech), silence_buf_len, |audio| audio, |buffer| {
            queued.push(buffer);
            Ok(())
        })
        .expect("queue sentence");
    floats(&queued.concat())
}

/// Regression guard: playback-speed processing must not shorten the device
/// cushion that production prepends to every sentence.
#[test]
fn playback_speed_preserves_production_sentence_lead_in() {
    let buf = production_sentence(vec![0.5; 2_400], 2_400);
    let processed = speak(&buf, SENTENCE_LEAD_IN_SAMPLES, 1.5)
        .expect("process production-shaped sentence buffer");

    assert_eq!(SENTENCE_LEAD_IN_SAMPLES, 480);
    assert!(
        processed[..SENTENCE_LEAD_IN_SAMPLES]
            .iter()
            .all(|&sample| sample == 0.0),
        "the fixed device cushion must remain pure zero"
    );
    assert!(
        processed[SENTENCE_LEAD_IN_SAMPLES..]
            .iter()
            .any(|sample| sample.abs() > 0.1),
        "speech energy must remain after the fixed device cushion"
    );
    assert_eq!(buf.len(), 480 + 2_400 + 1_920);
    assert_eq!(processed.len(), 480 + 2_880);
}

#[test]
fn a_tone_is_stretched_to_the_quotient_of_its_length() {
    let tone: Vec<f32> = (0..24_000)
        .map(|index| (std::f32::consts::TAU * 220.0 * index as f32 / 24_000.0).sin() * 0.25)
        .collect();
    for (speed, expected) in [(0.75_f32, 32_000), (1.25, 19_200), (1.5, 16_000)] {
        let output = speak(&tone, 0, speed).expect("stretch tone");
        assert_eq!(output.len(), expected);
        assert!(output[4_000..8_000].iter().any(|sample| sample.abs() > 0.1));
    }
}

#[test]
fn unit_speed_and_empty_chunks_are_left_alone() {
    let chunk = bits(&[0.5, -0.25, 0.125]);
    for speed in [1.0_f32, 1.00009, 0.99991] {
        let same = process_complete_chunk(
            &chunk,
            speed.to_bits(),
            SAMPLE_RATE,
            |_| unreachable!(),
            |_, _| unreachable!(),
        );
        assert_eq!(same, Ok(chunk.clone()));
    }
    let empty = process_complete_chunk(
        &[],
        1.5_f32.to_bits(),
        SAMPLE_RATE,
        |_| unreachable!(),
        |_, _| unreachable!(),
    );
    assert_eq!(empty, Ok(Vec::new()));
    assert_eq!(needs_stretching(3, 1.5_f32.to_bits()), Ok(true));
    assert_eq!(needs_stretching(3, 1.0002_f32.to_bits()), Ok(true));
    assert_eq!(needs_stretching(0, 1.5_f32.to_bits()), Ok(false));
}

#[test]
fn near_unit_speed_still_gives_the_length_owed() {
    let speed = 1.00005_f32;
    let output = speak(&vec![0.5_f32; 240_000], 0, speed).expect("stretch near unit speed");
    assert_eq!(output.len(), 239_988);
    assert_eq!(needs_stretching(240_000, speed.to_bits()), Ok(true));
    // Up to half a sample of difference the chunk already has the length owed.
    assert_eq!(needs_stretching(10_000, speed.to_bits()), Ok(false));
    assert_eq!(needs_stretching(10_100, speed.to_bits()), Ok(true));
    let slower = 0.99995_f32;
    let output = speak(&vec![0.5_f32; 240_000], 0, slower).expect("stretch near unit speed");
    assert_eq!(output.len(), 240_012);
    // At the default speed no length is too large.
    assert_eq!(needs_stretching(usize::MAX, 1.0_f32.to_bits()), Ok(false));
    assert_eq!(needs_stretching(0x8000_0000, speed.to_bits()), Ok(true));
}

#[test]
fn every_chunk_has_the_length_owed() {
    for speed in [0.75_f32, 0.9999, 0.99996, 1.0, 1.00004, 1.0001, 1.3, 1.5] {
        for len in [1_usize, 7, 4_999, 20_001, 60_000] {
            let output = speak(&vec![0.25_f32; len], 0, speed).expect("process chunk");
            let owed = (len as f64 / f64::from(speed)).round() as usize;
            assert_eq!(output.len(), owed, "{len} samples at {speed}");
        }
    }
}

#[test]
fn unsupported_speeds_are_refused() {
    let message = "Speech playback speed must be between 0.75 and 1.5".to_string();
    for speed in [0.0_f32, 0.7499999, 1.5000001, -1.0, f32::NAN, f32::INFINITY, f32::NEG_INFINITY] {
        assert_eq!(validate_speed(speed.to_bits()), Err(message.clone()));
        assert_eq!(speak(&[0.5; 10], 0, speed), Err(message.clone()));
    }
    for speed in [0.75_f32, 1.0, 1.25, 1.5] {
        assert_eq!(validate_speed(speed.to_bits()), Ok(()));
    }
}

#[test]
fn a_lead_in_longer_than_the_chunk_is_refused() {
    assert_eq!(
        speak(&[0.5; 10], 11, 1.5),
        Err("fixed lead-in of 11 samples exceeds input length 10".to_string())
    );
    assert_eq!(speak(&[0.5; 10], 10, 1.5), Ok(vec![0.5; 10]));
}

#[test]
fn lengths_are_those_of_native_arithmetic() {
    let mut seed: u64 = 3;
    for _ in 0..20_000 {
        seed = seed.wrapping_mul(6364136223846793005).wrapping_add(1442695040888963407);
        let speed = f32::from_bits(0x3f40_0000 + ((seed >> 20) as u32) % 0x80_0001);
        let len = ((seed >> 33) as usize) >> ((seed >> 5) % 31);
        let latency = (seed >> 40) as i32 % 10_000;
        let expected = (len as f64 / speed as f64).round() as usize;
        let pre_roll = (latency as f64 / speed as f64).ceil() as usize;
        let plan = plan_stretch(len, speed.to_bits(), latency, 77);
        if expected > i32::MAX as usize {
            assert_eq!(plan, Err("audio chunk is too large to process".to_string()));
        } else {
            assert_eq!(
                plan,
                Ok(StretchPlan {
                    input: len as i32,
                    expected: expected as i32,
                    latency,
                    reset_pre_roll: pre_roll as i32,
                    output_latency: 77,
                })
            );
        }
    }
}

#[test]
fn the_planned_length_is_the_nearest_integer_to_the_quotient() {
    for len in [1_u64, 2, 3, 5, 479, 24_000, 100_001, 0x800_0000] {
        for (numerator, denominator, speed) in [(3_u64, 4_u64, 0.75_f32), (5, 4, 1.25), (3, 2, 1.5)] {
            let plan = plan_stretch(len as usize, speed.to_bits(), 0, 0).expect("plan");
            let nearest = (2 * len * denominator + numerator) / (2 * numerator);
            assert_eq!(plan.expected as u64, nearest);
        }
    }
}

#[test]
fn lengths_beyond_32_bits_are_refused() {
    let message = "audio chunk is too large to process".to_string();
    assert_eq!(i32_len(0x7fff_ffff), Ok(0x7fff_ffff));
    assert_eq!(i32_len(0x8000_0000), Err(message.clone()));
    let half_speed = 0.75_f32.to_bits();
    assert_eq!(plan_stretch(0x8000_0000, half_speed, 0, 0), Err(message.clone()));
    assert_eq!(plan_stretch(0x7fff_ffff, half_speed, 0, 0), Err(message.clone()));
    assert_eq!(plan_stretch(1, half_speed, i32::MAX, 0), Err(message));
}

#[test]
fn negative_latencies_count_as_none() {
    assert_eq!(latency_samples(-5), 0);
    assert_eq!(latency_samples(0), 0);
    assert_eq!(latency_samples(5), 5);
    let plan = plan_stretch(300, 1.5_f32.to_bits(), -1, -1).expect("plan");
    assert_eq!((plan.latency, plan.reset_pre_roll, plan.output_latency), (0, 0, 0));
}

#[test]
fn the_chunk_is_cut_out_behind_both_latencies() {
    let plan = plan_stretch(6, 1.5_f32.to_bits(), 3, 1).expect("plan");
    assert_eq!((plan.expected, plan.reset_pre_roll, plan.output_latency), (4, 2, 1));
    let given = Stretched {
        output: vec![1, 2, 3, 4],
        latency_output: vec![5, 6],
        flushed: vec![7],
    };
    assert_eq!(trim_stretched(&plan, given), Ok(vec![4, 5, 6, 7]));
    let short = Stretched {
        output: vec![1, 2, 3, 4],
        latency_output: vec![5, 6],
        flushed: Vec::new(),
    };
    assert_eq!(
        trim_stretched(&plan, short),
        Err("time stretcher produced 6 samples, need 7".to_string())
    );
}

#[test]
fn the_stretcher_is_given_the_chunk_and_the_rate() {
    let chunk = bits(&[0.5; 6]);
    let result = process_complete_chunk(
        &chunk,
        1.5_f32.to_bits(),
        48_000,
        |sample_rate| {
            assert_eq!(sample_rate, 48_000);
            (3, 1)
        },
        |handed, plan| {
            assert_eq!(handed, bits(&[0.5; 6]));
            assert_eq!((plan.input, plan.expected), (6, 4));
            Stretched {
                output: vec![10, 11, 12, 13],
                latency_output: vec![14, 15],
                flushed: vec![16],
            }
        },
    );
    assert_eq!(result, Ok(vec![13, 14, 15, 16]));
}
