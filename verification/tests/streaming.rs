//! Assembly of speech blocks into playback buffers.

use std::sync::mpsc;

use pocket_voice::streaming::leading_audio_start;
use pocket_voice::streaming::PocketStreamAssembler;
use pocket_voice::streaming::{
    FADE_OUT_SAMPLES, RETAIN, SENTENCE_LEAD_IN_SAMPLES, STREAM_TAIL_SAMPLES, WINDOW,
};

fn bits(samples: &[f32]) -> Vec<u32> {
    samples.iter().map(|sample| sample.to_bits()).collect()
}

fn floats(samples: &[u32]) -> Vec<f32> {
    samples.iter().map(|sample| f32::from_bits(*sample)).collect()
}

fn streaming_test_chunk(value: f32, len: usize) -> Vec<u32> {
    bits(&vec![value; len])
}

/// Fades the last samples linearly to zero.
fn fade_out(audio: Vec<u32>) -> Vec<u32> {
    let mut audio = floats(&audio);
    let fade = FADE_OUT_SAMPLES.min(audio.len());
    let begin = audio.len() - fade;
    for (index, sample) in audio[begin..].iter_mut().enumerate() {
        *sample *= (fade - 1 - index) as f32 / fade as f32;
    }
    bits(&audio)
}

#[test]
fn pocket_streaming_preserves_independent_callback_order() {
    let first = streaming_test_chunk(0.25, 1000);
    let second = streaming_test_chunk(0.5, 1000);
    let complete = [first.as_slice(), second.as_slice()].concat();
    let mut assembler = PocketStreamAssembler::default();
    let mut queued = Vec::<Vec<u32>>::new();

    assembler
        .push(&first, |buffer| {
            queued.push(buffer);
            Ok(())
        })
        .expect("first callback");
    assembler
        .push(&second, |buffer| {
            queued.push(buffer);
            Ok(())
        })
        .expect("second callback");
    assembler
        .finish(&complete, 2400, fade_out, |buffer| {
            queued.push(buffer);
            Ok(())
        })
        .expect("finish stream");

    assert_eq!(assembler.callback_count, 2);
    assert_eq!(assembler.queued_samples, complete.len());
    assert_eq!(queued.len(), 3, "two streamed blocks plus retained tail");

    let output = floats(&queued.concat());
    let speech = &output[SENTENCE_LEAD_IN_SAMPLES..SENTENCE_LEAD_IN_SAMPLES + complete.len()];
    assert!(
        speech[..1000].iter().all(|sample| *sample == 0.25),
        "first callback must remain first"
    );
    assert!(
        speech[1000..1000 + (1000 - FADE_OUT_SAMPLES)]
            .iter()
            .all(|sample| *sample == 0.5),
        "second callback must follow the first without duplication"
    );
}

#[test]
fn pocket_streaming_queues_before_generation_finishes() {
    let mut assembler = PocketStreamAssembler::default();
    let (sender, receiver) = mpsc::channel();

    assembler
        .push(&streaming_test_chunk(0.25, 1000), |buffer| {
            sender
                .send(buffer)
                .map_err(|error| format!("send test PCM: {error}"))
        })
        .expect("stream first callback");

    let queued = receiver
        .try_recv()
        .expect("playback queue receives PCM before finish");
    assert_eq!(
        queued.len(),
        SENTENCE_LEAD_IN_SAMPLES + 1000 - STREAM_TAIL_SAMPLES
    );
}

#[test]
fn pocket_streaming_preserves_quiet_speech_before_a_loud_segment() {
    const PREFIX_SILENCE: usize = 5000;
    const QUIET_SPEECH: usize = 5000;
    const LOUD_SPEECH: usize = 5000;

    let callback = [
        vec![0.0; PREFIX_SILENCE],
        vec![0.005; QUIET_SPEECH],
        vec![0.5; LOUD_SPEECH],
    ]
    .concat();
    let mut assembler = PocketStreamAssembler::default();
    let mut queued = Vec::<Vec<u32>>::new();

    assembler
        .push(&bits(&callback), |buffer| {
            queued.push(buffer);
            Ok(())
        })
        .expect("stream callback");

    let output = floats(&queued.concat());
    let speech = &output[SENTENCE_LEAD_IN_SAMPLES..];
    let quiet_start = speech
        .iter()
        .position(|sample| *sample == 0.005)
        .expect("quiet onset is retained");
    assert_eq!(
        speech[quiet_start..]
            .iter()
            .take(QUIET_SPEECH)
            .filter(|sample| **sample == 0.005)
            .count(),
        QUIET_SPEECH,
        "a later loud segment must not trim sustained quiet speech"
    );
}

#[test]
fn pocket_streaming_cancellation_stops_queueing() {
    let mut assembler = PocketStreamAssembler::default();
    let mut queued = Vec::<Vec<u32>>::new();
    let cancelled = true;

    let error = assembler
        .push(&streaming_test_chunk(0.25, 1000), |buffer| {
            if cancelled {
                return Err("Pocket TTS streaming cancelled".to_string());
            }
            queued.push(buffer);
            Ok(())
        })
        .expect_err("cancelled append must stop generation");

    assert_eq!(error, "Pocket TTS streaming cancelled");
    assert_eq!(assembler.queued_samples, 0);
    assert!(queued.is_empty());
}

#[test]
fn pocket_streaming_surfaces_playback_queue_errors() {
    let mut assembler = PocketStreamAssembler::default();

    let error = assembler
        .push(&streaming_test_chunk(0.25, 1000), |_| {
            Err("audio device disconnected".to_string())
        })
        .expect_err("queue failure must be returned");

    assert_eq!(error, "audio device disconnected");
}

#[test]
fn pocket_streaming_rejects_callback_contract_mismatch() {
    let mut assembler = PocketStreamAssembler::default();
    assembler
        .push(&streaming_test_chunk(0.25, 1000), |_| Ok(()))
        .expect("callback");

    let error = assembler
        .finish(&streaming_test_chunk(0.25, 1200), 2400, fade_out, |_| Ok(()))
        .expect_err("mismatched callback samples must not be duplicated");

    assert!(error.contains("callback contract mismatch"));
    assert_eq!(
        error,
        "Pocket TTS callback contract mismatch: callbacks yielded 1000 samples, final audio \
         contained 1200"
    );
    assert_eq!(assembler.pending.len(), STREAM_TAIL_SAMPLES);
}

#[test]
fn an_empty_block_changes_nothing() {
    let mut assembler = PocketStreamAssembler::default();
    assembler
        .push(&[], |_| unreachable!())
        .expect("empty block");
    assert_eq!(assembler.callback_count, 0);
    assert_eq!(assembler.callback_samples, 0);
    assert!(assembler.pending.is_empty());
}

#[test]
fn a_block_no_longer_than_the_tail_is_kept_back() {
    let mut assembler = PocketStreamAssembler::default();
    let block = streaming_test_chunk(0.25, STREAM_TAIL_SAMPLES);
    assembler
        .push(&block, |_| unreachable!())
        .expect("short block");
    assert_eq!(assembler.pending, block);
    assert_eq!(assembler.callback_count, 1);
    assert_eq!(assembler.callback_samples, STREAM_TAIL_SAMPLES);
    assert_eq!(assembler.queued_samples, 0);
}

#[test]
fn silence_is_kept_until_audio_is_found() {
    let mut assembler = PocketStreamAssembler::default();
    let mut queued = Vec::<Vec<u32>>::new();
    assembler
        .push(&streaming_test_chunk(0.0, 4000), |_| unreachable!())
        .expect("silent block");
    assert_eq!(assembler.pending.len(), 4000);
    assert_eq!(assembler.queued_samples, 0);
    assembler
        .push(&streaming_test_chunk(0.5, 2000), |buffer| {
            queued.push(buffer);
            Ok(())
        })
        .expect("audible block");
    // A single sample of 0.5 lifts the window above the threshold, so the window ends
    // with the first audible sample.
    let start = 4001 - WINDOW - RETAIN;
    assert_eq!(assembler.queued_samples, 6000 - STREAM_TAIL_SAMPLES - start);
    assert_eq!(
        queued[0].len(),
        SENTENCE_LEAD_IN_SAMPLES + 6000 - STREAM_TAIL_SAMPLES - start
    );
}

#[test]
fn a_failed_buffer_is_offered_again_with_the_next_block() {
    let mut assembler = PocketStreamAssembler::default();
    let mut queued = Vec::<Vec<u32>>::new();
    assembler
        .push(&streaming_test_chunk(0.25, 1000), |_| Err("busy".to_string()))
        .expect_err("queue is busy");
    assert_eq!(assembler.pending.len(), 1000);
    assembler
        .push(&streaming_test_chunk(0.5, 1000), |buffer| {
            queued.push(buffer);
            Ok(())
        })
        .expect("queue is free");
    let output = floats(&queued.concat());
    assert_eq!(output.len(), SENTENCE_LEAD_IN_SAMPLES + 2000 - STREAM_TAIL_SAMPLES);
    assert!(output[SENTENCE_LEAD_IN_SAMPLES..][..1000].iter().all(|x| *x == 0.25));
    assert!(output[SENTENCE_LEAD_IN_SAMPLES..][1000..].iter().all(|x| *x == 0.5));
}

#[test]
fn queued_samples_are_limited_to_full_scale() {
    let mut assembler = PocketStreamAssembler::default();
    let mut queued = Vec::<Vec<u32>>::new();
    let block = bits(&[[1.75_f32; 1000], [-3.0; 1000]].concat());
    assembler
        .push(&block, |buffer| {
            queued.push(buffer);
            Ok(())
        })
        .expect("loud block");
    let output = floats(&queued.concat());
    assert!(output[..SENTENCE_LEAD_IN_SAMPLES].iter().all(|x| x.to_bits() == 0));
    assert!(output[SENTENCE_LEAD_IN_SAMPLES..][..1000].iter().all(|x| *x == 1.0));
    assert!(output[SENTENCE_LEAD_IN_SAMPLES..][1000..].iter().all(|x| *x == -1.0));
}

#[test]
fn without_blocks_the_complete_waveform_is_queued() {
    let mut assembler = PocketStreamAssembler::default();
    let mut queued = Vec::<Vec<u32>>::new();
    let complete = bits(&[vec![0.0_f32; 3000], vec![0.5; 3000]].concat());
    assembler
        .finish(&complete, 2400, fade_out, |buffer| {
            queued.push(buffer);
            Ok(())
        })
        .expect("finish");
    let start = 3001 - WINDOW - RETAIN;
    assert_eq!(queued.len(), 1);
    assert_eq!(
        queued[0].len(),
        SENTENCE_LEAD_IN_SAMPLES + (6000 - start) + (2400 - SENTENCE_LEAD_IN_SAMPLES)
    );
    let output = floats(&queued[0]);
    assert_eq!(output[SENTENCE_LEAD_IN_SAMPLES + 3000 - start - 1], 0.0);
    assert_eq!(output[SENTENCE_LEAD_IN_SAMPLES + 3000 - start], 0.5);
    assert_eq!(assembler.queued_samples, 6000 - start);
    assert_eq!(assembler.callback_count, 0);
    assert_eq!(assembler.callback_samples, 6000);
    assert!(assembler.pending.is_empty());
}

#[test]
fn silence_without_an_onset_is_queued_whole_at_the_end() {
    let mut assembler = PocketStreamAssembler::default();
    let mut queued = Vec::<Vec<u32>>::new();
    let complete = streaming_test_chunk(0.0, 700);
    assembler
        .finish(&complete, 100, fade_out, |buffer| {
            queued.push(buffer);
            Ok(())
        })
        .expect("finish");
    // A closing silence shorter than the lead-in adds nothing.
    assert_eq!(queued[0].len(), SENTENCE_LEAD_IN_SAMPLES + 700);
    assert_eq!(assembler.queued_samples, 700);
}

#[test]
fn an_empty_utterance_queues_nothing() {
    let mut assembler = PocketStreamAssembler::default();
    assembler
        .finish(&[], 2400, fade_out, |_| unreachable!())
        .expect("finish");
    assert_eq!(assembler.queued_samples, 0);
}

#[test]
fn a_failing_last_buffer_keeps_the_tail() {
    let mut assembler = PocketStreamAssembler::default();
    let complete = streaming_test_chunk(0.25, 1000);
    assembler.push(&complete, |_| Ok(())).expect("block");
    let error = assembler
        .finish(&complete, 2400, fade_out, |_| Err("gone".to_string()))
        .expect_err("queue failure");
    assert_eq!(error, "gone");
    assert_eq!(assembler.pending.len(), STREAM_TAIL_SAMPLES);
    assert_eq!(assembler.queued_samples, 1000 - STREAM_TAIL_SAMPLES);
}

/// The same search in native arithmetic.
fn native_audio_start(samples: &[f32]) -> Option<usize> {
    let threshold = 0.002_f32 * 0.002_f32;
    let mut energy = 0.0_f32;
    for (index, sample) in samples.iter().enumerate() {
        energy += sample * sample;
        if index >= WINDOW {
            let expired = samples[index - WINDOW];
            energy -= expired * expired;
        }
        if index + 1 >= WINDOW && energy / WINDOW as f32 >= threshold {
            return Some((index + 1 - WINDOW).saturating_sub(RETAIN));
        }
    }
    None
}

#[test]
fn audio_is_found_where_native_arithmetic_finds_it() {
    let mut seed: u32 = 12345;
    for round in 0..40_usize {
        let mut samples = Vec::new();
        for index in 0..4000_usize {
            seed = seed.wrapping_mul(1664525).wrapping_add(1013904223);
            let noise = (seed >> 8) as f32 / 8_388_608.0 - 1.0;
            let level = 0.0001 + 0.0000012 * (index * (round + 1) / 8) as f32;
            samples.push(noise * level);
        }
        assert_eq!(leading_audio_start(&bits(&samples)), native_audio_start(&samples));
    }
    assert_eq!(leading_audio_start(&[]), None);
    assert_eq!(leading_audio_start(&bits(&[0.5; 239])), None);
    assert_eq!(leading_audio_start(&bits(&[0.5; 240])), Some(0));
}

#[test]
fn what_follows_does_not_move_the_onset() {
    let head = [vec![0.0_f32; 3000], vec![0.005; 600]].concat();
    let start = leading_audio_start(&bits(&head));
    assert!(start.is_some());
    let longer = [head, vec![0.9; 500], vec![0.0; 500]].concat();
    assert_eq!(leading_audio_start(&bits(&longer)), start);
}

/// What is queued of an utterance that comes in blocks of the given length.
fn played(speech: &[u32], block: usize) -> (Vec<u32>, usize) {
    let mut assembler = PocketStreamAssembler::default();
    let mut queued = Vec::new();
    if block > 0 {
        for part in speech.chunks(block) {
            assembler
                .push(part, |buffer| {
                    queued.extend(buffer);
                    Ok(())
                })
                .expect("block");
        }
    }
    assembler
        .finish(speech, 2400, fade_out, |buffer| {
            queued.extend(buffer);
            Ok(())
        })
        .expect("finish");
    (queued, assembler.queued_samples)
}

#[test]
fn blocks_do_not_change_what_is_played() {
    let rising: Vec<f32> = (0..3000).map(|i| (i as f32 * 0.05).sin() * 0.3).collect();
    let utterances = [
        [vec![0.0_f32; 4000], vec![0.004; 700], rising.clone()].concat(),
        rising,
        vec![0.0; 5000],
        vec![0.7; 100],
        [vec![0.0; 2000], vec![0.9; 300]].concat(),
    ];
    for utterance in utterances {
        let speech = bits(&utterance);
        let whole = played(&speech, 0);
        let start = leading_audio_start(&speech).unwrap_or(0);
        assert_eq!(whole.1, speech.len() - start);
        assert_eq!(
            whole.0.len(),
            SENTENCE_LEAD_IN_SAMPLES + whole.1 + 2400 - SENTENCE_LEAD_IN_SAMPLES
        );
        for block in [1, 37, 240, 479, 480, 481, 1000, 2999, 6000] {
            assert_eq!(played(&speech, block), whole, "blocks of {block}");
        }
    }
}

#[test]
fn a_refused_waveform_is_not_queued() {
    let mut assembler = PocketStreamAssembler::default();
    assembler
        .push(&streaming_test_chunk(0.25, 1000), |_| Ok(()))
        .expect("block");
    let queued = assembler.queued_samples;
    assembler
        .finish(
            &streaming_test_chunk(0.25, 1200),
            2400,
            |_| unreachable!(),
            |_| unreachable!(),
        )
        .expect_err("refused");
    assert_eq!(assembler.queued_samples, queued);
}

#[test]
fn finishing_again_queues_nothing() {
    let mut assembler = PocketStreamAssembler::default();
    let complete = streaming_test_chunk(0.25, 1000);
    assembler.push(&complete, |_| Ok(())).expect("block");
    assembler
        .finish(&complete, 2400, fade_out, |_| Ok(()))
        .expect("finish");
    assert_eq!(assembler.queued_samples, 1000);
    assembler
        .finish(&complete, 1200, fade_out, |_| unreachable!())
        .expect("finish again");
    assert_eq!(assembler.queued_samples, 1000);
    assert_eq!(assembler.callback_count, 1);
}
