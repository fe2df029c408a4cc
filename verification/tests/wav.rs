//! Reading, writing and converting WAV audio.

use pocket_voice::resample::resample_linear;
use pocket_voice::wav::{decode_wav, encode_pcm16_wav, wav_layout};
use pocket_voice::wav::{WavLayout, CANONICAL_SAMPLE_RATE};

fn bits(samples: &[f32]) -> Vec<u32> {
    samples.iter().map(|sample| sample.to_bits()).collect()
}

fn floats(samples: &[u32]) -> Vec<f32> {
    samples.iter().map(|sample| f32::from_bits(*sample)).collect()
}

fn fixture(sample_rate: u32, seconds: usize, amplitude: f32) -> Vec<u8> {
    let samples = (0..sample_rate as usize * seconds)
        .map(|index| {
            amplitude * (std::f32::consts::TAU * 220.0 * index as f32 / sample_rate as f32).sin()
        })
        .collect::<Vec<_>>();
    encode_pcm16_wav(&bits(&samples), sample_rate)
}

/// A WAV file of the given format with two seconds of data at 8 kHz.
fn file(encoding: u16, bits_per_sample: u16, data: &[u8]) -> Vec<u8> {
    let block = bits_per_sample.div_ceil(8);
    let mut bytes = Vec::new();
    bytes.extend_from_slice(b"RIFF");
    bytes.extend_from_slice(&(36 + data.len() as u32).to_le_bytes());
    bytes.extend_from_slice(b"WAVEfmt ");
    bytes.extend_from_slice(&16_u32.to_le_bytes());
    bytes.extend_from_slice(&encoding.to_le_bytes());
    bytes.extend_from_slice(&1_u16.to_le_bytes());
    bytes.extend_from_slice(&8_000_u32.to_le_bytes());
    bytes.extend_from_slice(&(8_000 * u32::from(block)).to_le_bytes());
    bytes.extend_from_slice(&block.to_le_bytes());
    bytes.extend_from_slice(&bits_per_sample.to_le_bytes());
    bytes.extend_from_slice(b"data");
    bytes.extend_from_slice(&(data.len() as u32).to_le_bytes());
    bytes.extend_from_slice(data);
    bytes
}

fn noise(len: usize) -> Vec<u8> {
    let mut seed: u32 = 1;
    (0..len)
        .map(|_| {
            seed = seed.wrapping_mul(1664525).wrapping_add(1013904223);
            (seed >> 24) as u8
        })
        .collect()
}

fn refusal(bytes: &[u8]) -> String {
    decode_wav(bytes).expect_err("refused")
}

#[test]
fn validates_and_canonicalizes_supported_wav() {
    let decoded = decode_wav(&fixture(44_100, 2, 0.5)).expect("valid WAV");
    let canonical = resample_linear(&decoded.samples, decoded.sample_rate);
    assert_eq!(canonical.len(), 64_000);
    let encoded = encode_pcm16_wav(&canonical, CANONICAL_SAMPLE_RATE);
    let reparsed = decode_wav(&encoded).expect("canonical WAV");
    assert_eq!(reparsed.sample_rate, 32_000);
    assert_eq!(reparsed.samples.len(), 64_000);
}

#[test]
fn rejects_silent_and_short_wav() {
    assert!(decode_wav(&fixture(32_000, 2, 0.0))
        .expect_err("silence rejected")
        .contains("silent"));
    assert!(decode_wav(&fixture(32_000, 1, 0.5))
        .expect_err("short rejected")
        .contains("between 2 and 30"));
}

#[test]
fn rejects_stereo_out_of_range_and_overlong_wav() {
    let mut stereo_header = fixture(32_000, 2, 0.5);
    stereo_header[22..24].copy_from_slice(&2_u16.to_le_bytes());
    assert!(decode_wav(&stereo_header)
        .expect_err("stereo rejected")
        .contains("mono"));

    let mut low_rate_header = fixture(32_000, 2, 0.5);
    low_rate_header[24..28].copy_from_slice(&4_000_u32.to_le_bytes());
    assert!(decode_wav(&low_rate_header)
        .expect_err("low sample rate rejected")
        .contains("between 8 and 96"));

    assert!(decode_wav(&fixture(8_000, 31, 0.5))
        .expect_err("overlong rejected")
        .contains("between 2 and 30"));
}

#[test]
fn every_supported_format_decodes_as_native_arithmetic_does() {
    let data = noise(16_000);
    let decoded = decode_wav(&file(1, 8, &data)).expect("8 bits");
    let native: Vec<f32> = data.iter().map(|b| (f32::from(*b) - 128.0) / 128.0).collect();
    assert_eq!(decoded.sample_rate, 8_000);
    assert_eq!(decoded.samples, bits(&native));

    let data = noise(32_000);
    let decoded = decode_wav(&file(1, 16, &data)).expect("16 bits");
    let native: Vec<f32> = data
        .chunks_exact(2)
        .map(|c| f32::from(i16::from_le_bytes([c[0], c[1]])) / 32768.0)
        .collect();
    assert_eq!(decoded.samples, bits(&native));

    let data = noise(48_000);
    let decoded = decode_wav(&file(1, 24, &data)).expect("24 bits");
    let native: Vec<f32> = data
        .chunks_exact(3)
        .map(|c| {
            let high = if c[2] & 0x80 == 0 { 0 } else { 0xff };
            i32::from_le_bytes([c[0], c[1], c[2], high]) as f32 / 8_388_608.0
        })
        .collect();
    assert_eq!(decoded.samples, bits(&native));

    let data = noise(64_000);
    let decoded = decode_wav(&file(1, 32, &data)).expect("32 bits");
    let native: Vec<f32> = data
        .chunks_exact(4)
        .map(|c| i32::from_le_bytes([c[0], c[1], c[2], c[3]]) as f32 / 2_147_483_648.0)
        .collect();
    assert_eq!(decoded.samples, bits(&native));
}

#[test]
fn binary32_samples_are_limited_and_have_to_be_finite() {
    let mut samples: Vec<f32> = (0..16_000).map(|i| (i as f32 * 0.01).sin() * 1.5).collect();
    let mut data: Vec<u8> = samples.iter().flat_map(|x| x.to_le_bytes()).collect();
    let decoded = decode_wav(&file(3, 32, &data)).expect("binary32");
    for sample in &mut samples {
        *sample = sample.clamp(-1.0, 1.0);
    }
    assert_eq!(decoded.samples, bits(&samples));

    for bad in [f32::NAN, f32::INFINITY, f32::NEG_INFINITY] {
        data[4_000..4_004].copy_from_slice(&bad.to_le_bytes());
        assert_eq!(refusal(&file(3, 32, &data)), "Voice WAV contains non-finite samples");
    }
}

#[test]
fn quiet_recordings_are_refused_as_native_arithmetic_decides() {
    let mut refused = 0;
    for step in 0..60 {
        let amplitude = 0.00002 * step as f32;
        let mut samples = vec![amplitude * 0.1; 16_000];
        samples[5] = 0.0009 + 0.000004 * step as f32;
        samples[77] = -amplitude;
        let data: Vec<u8> = samples.iter().flat_map(|x| x.to_le_bytes()).collect();
        let peak = samples.iter().fold(0.0_f32, |peak, x| peak.max(x.abs()));
        let mut energy = 0.0_f32;
        for x in &samples {
            energy += x * x;
        }
        let rms = (energy / samples.len() as f32).sqrt();
        let result = decode_wav(&file(3, 32, &data));
        if peak < 0.001 || rms < 0.0001 {
            refused += 1;
            assert_eq!(
                result.expect_err("too quiet"),
                "Voice WAV is silent or too quiet to clone"
            );
        } else {
            assert!(result.is_ok());
        }
    }
    assert!(refused > 0 && refused < 60);
}

#[test]
fn chunks_are_walked() {
    let data = noise(32_000);
    let plain = file(1, 16, &data);
    // An odd chunk of another kind, with its padding byte, is skipped.
    let mut extra = plain[..36].to_vec();
    extra.extend_from_slice(b"LIST");
    extra.extend_from_slice(&5_u32.to_le_bytes());
    extra.extend_from_slice(&[1, 2, 3, 4, 5, 0]);
    extra.extend_from_slice(&plain[36..]);
    assert_eq!(
        wav_layout(&extra),
        Ok(WavLayout {
            sample_rate: 8_000,
            encoding: 1,
            bits: 16,
            start: 58,
            end: 58 + 32_000,
        })
    );
    // Fewer than eight bytes at the end are ignored.
    let mut trailing = plain.clone();
    trailing.extend_from_slice(&[1, 2, 3, 4, 5, 6, 7]);
    assert_eq!(wav_layout(&trailing), wav_layout(&plain));
    // A later data chunk replaces an earlier one.
    let mut twice = plain.clone();
    twice.extend_from_slice(b"data");
    twice.extend_from_slice(&0_u32.to_le_bytes());
    assert_eq!(
        wav_layout(&twice),
        Err("Voice WAV must be between 2 and 30 seconds long".to_string())
    );
}

#[test]
fn the_subformat_of_an_extensible_format_counts() {
    let data = noise(32_000);
    let plain = file(1, 16, &data);
    let mut extensible = plain[..16].to_vec();
    extensible.extend_from_slice(&40_u32.to_le_bytes());
    extensible.extend_from_slice(&0xfffe_u16.to_le_bytes());
    extensible.extend_from_slice(&plain[22..36]);
    extensible.extend_from_slice(&[0; 8]);
    extensible.extend_from_slice(&1_u16.to_le_bytes());
    extensible.extend_from_slice(&[0; 14]);
    extensible.extend_from_slice(&plain[36..]);
    let layout = wav_layout(&extensible).expect("extensible");
    assert_eq!((layout.encoding, layout.bits, layout.start), (1, 16, 68));

    let mut short = plain.clone();
    short[20..22].copy_from_slice(&0xfffe_u16.to_le_bytes());
    assert_eq!(refusal(&short), "Voice WAV must contain PCM or 32-bit float audio");
}

#[test]
fn every_malformed_file_is_refused_with_its_reason() {
    let not_wave = "Selected file is not a valid RIFF/WAVE file";
    let data = noise(32_000);
    let plain = file(1, 16, &data);
    assert_eq!(refusal(b""), not_wave);
    assert_eq!(refusal(&plain[..11]), not_wave);
    let mut bytes = plain.clone();
    bytes[3] = b'X';
    assert_eq!(refusal(&bytes), not_wave);
    let mut bytes = plain.clone();
    bytes[8] = b'w';
    assert_eq!(refusal(&bytes), not_wave);
    assert_eq!(refusal(&plain[..12]), "Selected WAV has no format chunk");
    assert_eq!(refusal(&plain[..36]), "Selected WAV has no audio data");
    assert_eq!(
        refusal(&plain[..plain.len() - 1]),
        "Selected WAV contains a truncated chunk"
    );
    let mut bytes = plain.clone();
    bytes[40..44].copy_from_slice(&u32::MAX.to_le_bytes());
    assert_eq!(refusal(&bytes), "Selected WAV contains a truncated chunk");

    let mut tiny = b"RIFF\0\0\0\0WAVEfmt ".to_vec();
    tiny.extend_from_slice(&14_u32.to_le_bytes());
    tiny.extend_from_slice(&plain[20..34]);
    tiny.extend_from_slice(&plain[36..]);
    assert_eq!(refusal(&tiny), "Selected WAV has an invalid format chunk");

    let alignment = "Voice WAV has invalid sample alignment";
    let mut bytes = plain.clone();
    bytes[32] = 4;
    assert_eq!(refusal(&bytes), alignment);
    assert_eq!(refusal(&file(1, 16, &noise(32_001))), alignment);
    assert_eq!(refusal(&file(1, 0, &data)), alignment);

    let format = "Voice WAV must contain PCM or 32-bit float audio";
    assert_eq!(refusal(&file(2, 16, &data)), format);
    assert_eq!(refusal(&file(3, 16, &data)), format);
    assert_eq!(refusal(&file(1, 12, &data)), format);
    assert_eq!(refusal(&file(1, 64, &noise(128_000))), format);

    let mut high = plain.clone();
    high[24..28].copy_from_slice(&96_001_u32.to_le_bytes());
    assert_eq!(refusal(&high), "Voice WAV sample rate must be between 8 and 96 kHz");
}

#[test]
fn the_limits_of_rate_and_duration_are_accepted() {
    for (len, accepted) in [(31_998, false), (32_000, true), (480_000, true), (480_002, false)] {
        assert_eq!(decode_wav(&file(1, 16, &noise(len))).is_ok(), accepted, "{len}");
    }
    for rate in [8_000, 96_000] {
        assert_eq!(decode_wav(&fixture(rate, 2, 0.5)).expect("rate").sample_rate, rate);
    }
}

#[test]
fn samples_are_encoded_as_native_arithmetic_does() {
    let mut samples = vec![0.0, -0.0, 1.0, -1.0, 2.0, -2.0, 0.5, -0.5, f32::NAN, f32::INFINITY];
    let mut seed: u32 = 9;
    for _ in 0..5_000 {
        seed = seed.wrapping_mul(1664525).wrapping_add(1013904223);
        samples.push((seed >> 8) as f32 / 8_388_608.0 - 1.0);
    }
    for half in [1.5_f32, 2.5, 100.5, 32_766.5] {
        samples.push(half / 32_767.0);
        samples.push(-half / 32_767.0);
    }
    let encoded = encode_pcm16_wav(&bits(&samples), 32_000);
    let mut native = Vec::new();
    let data_len = (samples.len() * 2) as u32;
    native.extend_from_slice(b"RIFF");
    native.extend_from_slice(&(36 + data_len).to_le_bytes());
    native.extend_from_slice(b"WAVEfmt ");
    native.extend_from_slice(&[16, 0, 0, 0, 1, 0, 1, 0]);
    native.extend_from_slice(&32_000_u32.to_le_bytes());
    native.extend_from_slice(&64_000_u32.to_le_bytes());
    native.extend_from_slice(&[2, 0, 16, 0]);
    native.extend_from_slice(b"data");
    native.extend_from_slice(&data_len.to_le_bytes());
    for sample in &samples {
        let value = (sample.clamp(-1.0, 1.0) * f32::from(i16::MAX)).round() as i16;
        native.extend_from_slice(&value.to_le_bytes());
    }
    assert_eq!(encoded, native);
}

#[test]
fn an_encoded_recording_decodes_to_its_16_bit_form() {
    let samples: Vec<f32> = (0..64_000).map(|i| (i as f32 * 0.003).sin() * 0.9).collect();
    let decoded = decode_wav(&encode_pcm16_wav(&bits(&samples), 32_000)).expect("decodes");
    let kept: Vec<f32> = samples
        .iter()
        .map(|x| f32::from((x * 32_767.0).round() as i16) / 32_768.0)
        .collect();
    assert_eq!(floats(&decoded.samples), kept);
}

/// Linear interpolation in native arithmetic.
fn native_resample(samples: &[f32], source_rate: u32) -> Vec<f32> {
    let output_len =
        ((samples.len() as u64 * 32_000 + u64::from(source_rate) / 2) / u64::from(source_rate)) as usize;
    (0..output_len)
        .map(|index| {
            let source = index as f64 * f64::from(source_rate) / 32_000.0;
            let left = source.floor() as usize;
            let fraction = (source - left as f64) as f32;
            let a = samples[left.min(samples.len() - 1)];
            let b = samples[(left + 1).min(samples.len() - 1)];
            a + (b - a) * fraction
        })
        .collect()
}

#[test]
fn conversion_is_that_of_native_arithmetic() {
    let samples: Vec<f32> = (0..20_000).map(|i| (i as f32 * 0.37).sin()).collect();
    for rate in [8_000, 11_025, 22_050, 44_100, 48_000, 96_000, 31_999, 32_001, 8_001] {
        assert_eq!(
            resample_linear(&bits(&samples), rate),
            bits(&native_resample(&samples, rate)),
            "{rate}"
        );
    }
    assert_eq!(resample_linear(&bits(&samples), 32_000), bits(&samples));
    assert_eq!(resample_linear(&[], 44_100), Vec::<u32>::new());
    assert_eq!(resample_linear(&bits(&[0.25]), 8_000), bits(&[0.25; 4]));
}

#[test]
fn doubling_the_rate_puts_a_sample_half_way() {
    let out = resample_linear(&bits(&[0.0, 1.0, 0.5]), 16_000);
    assert_eq!(floats(&out), vec![0.0, 0.5, 1.0, 0.75, 0.5, 0.5]);
}

#[test]
fn written_samples_stay_within_two_steps() {
    let mut samples: Vec<f32> = (0..32_000).map(|i| (i as f32 * 0.0007).sin()).collect();
    samples[0] = 1.0;
    samples[1] = -1.0;
    samples[2] = f32::from_bits(1);
    samples[3] = -0.5 / 32_767.0;
    let decoded = decode_wav(&encode_pcm16_wav(&bits(&samples), 16_000)).expect("decodes");
    assert_eq!(decoded.sample_rate, 16_000);
    assert_eq!(decoded.samples.len(), samples.len());
    for (kept, sample) in floats(&decoded.samples).iter().zip(&samples) {
        assert!((f64::from(*kept) - f64::from(*sample)).abs() <= 2.0 / 32_768.0);
    }
}

#[test]
fn an_audible_recording_is_never_refused_once_written() {
    // As quiet as can be: constant, and a single burst that holds all the energy.
    let constant = vec![0.001_f32; 16_000];
    assert!(decode_wav(&encode_pcm16_wav(&bits(&constant), 8_000)).is_ok());
    let mut burst = vec![0.0_f32; 16_000];
    for sample in &mut burst[..160] {
        *sample = 0.01001;
    }
    assert!(decode_wav(&encode_pcm16_wav(&bits(&burst), 8_000)).is_ok());
    // Loud first, so that later squares are small against the running sum.
    let fading: Vec<f32> = (0..240_000).map(|i| 1.0 / (1.0 + i as f32)).collect();
    assert!(decode_wav(&encode_pcm16_wav(&bits(&fading), 8_000)).is_ok());
}
