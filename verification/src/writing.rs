//! What stands in a written recording: where each number of its beginning is, and the
//! integer that each sample became.

use vstd::prelude::*;
use vstd::arithmetic::power2::*;

use crate::binary32;
use crate::fidelity;
use crate::interpolation;
use crate::reading;
use crate::rounding;
use crate::wav;

verus! {

/// One step of a 16-bit sample, as a multiple of 2^-149.
pub open spec fn step() -> int {
    pow2(134) as int
}

/// The bytes of a number give it again.
proof fn lemma_number(h: Seq<u8>, b: Seq<u8>, i: int, v: nat)
    requires
        0 <= i <= 40,
        h.len() == 44,
        v < 0x1_0000_0000,
        h.subrange(i, i + 4) == wav::bytes32(v),
    ensures
        reading::number(h + b, i) == v,
{
    let part = h.subrange(i, i + 4);
    assert(part[0] == h[i] && part[1] == h[i + 1] && part[2] == h[i + 2] && part[3] == h[i + 3]);
}

/// The bytes of a tag stand where it was put.
proof fn lemma_tag(h: Seq<u8>, b: Seq<u8>, i: int, tag: Seq<u8>)
    requires
        0 <= i <= 40,
        h.len() == 44,
        tag.len() == 4,
        h.subrange(i, i + 4) == tag,
    ensures
        reading::tag_at(h + b, i, tag),
{
    let part = h.subrange(i, i + 4);
    assert(part[0] == h[i] && part[1] == h[i + 1] && part[2] == h[i + 2] && part[3] == h[i + 3]);
}

/// The two bytes of a small number.
proof fn lemma_small_number(h: Seq<u8>, b: Seq<u8>, i: int, v: nat)
    requires
        0 <= i <= 42,
        h.len() == 44,
        v < 0x100,
        h.subrange(i, i + 2) == wav::bytes16(v),
    ensures
        (h + b)[i] == v,
        (h + b)[i + 1] == 0,
{
    let part = h.subrange(i, i + 2);
    assert(part[0] == h[i] && part[1] == h[i + 1]);
}

/// Whether bytes begin as a mono WAV file with 16 bits per sample, with a given rate and
/// number of sample bytes, which stand behind the first 44.
pub open spec fn begins_as_mono_wave(b: Seq<u8>, rate: int, n: int) -> bool {
    &&& reading::tag_at(b, 0, seq![0x52, 0x49, 0x46, 0x46])
    &&& reading::number(b, 4) == 36 + n
    &&& reading::tag_at(b, 8, seq![0x57, 0x41, 0x56, 0x45])
    &&& reading::tag_at(b, 12, seq![0x66, 0x6d, 0x74, 0x20])
    &&& reading::number(b, 16) == 16
    &&& b[20] == 1 && b[21] == 0
    &&& b[22] == 1 && b[23] == 0
    &&& reading::number(b, 24) == rate
    &&& reading::number(b, 28) == 2 * rate
    &&& b[32] == 2 && b[33] == 0
    &&& b[34] == 16 && b[35] == 0
    &&& reading::tag_at(b, 36, seq![0x64, 0x61, 0x74, 0x61])
    &&& reading::number(b, 40) == n
}

/// The bytes of a beginning, whatever follows.
proof fn lemma_beginning(d: Seq<u8>, rate: nat, n: nat)
    requires
        n + 36 < 0x1_0000_0000,
        2 * rate < 0x1_0000_0000,
    ensures
        begins_as_mono_wave(wav::wav_header(n, rate) + d, rate as int, n as int),
{
    let h = wav::wav_header(n, rate);
    wav::lemma_wav_header_fields(n, rate);
    lemma_tag(h, d, 0, wav::riff_tag());
    lemma_number(h, d, 4, 36 + n);
    lemma_tag(h, d, 8, wav::wave_tag());
    lemma_tag(h, d, 12, wav::format_tag());
    lemma_number(h, d, 16, 16);
    lemma_small_number(h, d, 20, 1);
    lemma_small_number(h, d, 22, 1);
    lemma_number(h, d, 24, rate);
    lemma_number(h, d, 28, rate * 2);
    lemma_small_number(h, d, 32, 2);
    lemma_small_number(h, d, 34, 16);
    lemma_tag(h, d, 36, wav::data_tag());
    lemma_number(h, d, 40, n);
}

/// A written recording begins with the 44 bytes of a mono WAV file with 16 bits per
/// sample, which give its rate and its length in 32 bits; two bytes for each sample follow.
pub proof fn law_written_recording_begins_as_wave(samples: Seq<u32>, rate: u32)
    requires
        (2 * samples.len()) % 0x1_0000_0000 + 36 < 0x1_0000_0000,
        2 * rate < 0x1_0000_0000,
    ensures
        wav::encoded_wav(samples, rate).len() == 44 + 2 * samples.len(),
        begins_as_mono_wave(
            wav::encoded_wav(samples, rate),
            rate as int,
            (2 * samples.len() as int) % 0x1_0000_0000,
        ),
{
    let n = (2 * samples.len()) % 0x1_0000_0000;
    wav::lemma_encoded_len(samples, rate);
    assert(wav::pcm16_length(samples) == n);
    lemma_beginning(wav::pcm16_data(samples), rate as nat, n);
}

/// The integer that stands for a sample.
proof fn lemma_written_integer(samples: Seq<u32>, rate: u32, i: int)
    requires
        0 <= i < samples.len(),
    ensures
        reading::signed_number(wav::encoded_wav(samples, rate), 44 + 2 * i, 2) == wav::pcm16(
            samples[i],
        ),
        -0x7fff <= wav::pcm16(samples[i]) <= 0x7fff,
{
    let b = wav::encoded_wav(samples, rate);
    let v = wav::pcm16(samples[i]);
    let d = wav::pcm16_data(samples);
    let k = wav::pattern16(v);
    wav::lemma_pcm16_range(samples[i]);
    assert(b.len() == 44 + 2 * samples.len()) by {
        wav::lemma_encoded_len(samples, rate);
    }
    let part = d.subrange(2 * i, 2 * i + 2);
    assert(part == wav::bytes16(k) && d.len() == 2 * samples.len()) by {
        wav::lemma_pcm16_data(samples);
    }
    assert(part[0] == b[44 + 2 * i] && part[1] == b[44 + 2 * i + 1]);
    lemma_signed_number(b, 44 + 2 * i, v);
}

/// The bytes of a signed number give it again.
proof fn lemma_signed_number(b: Seq<u8>, i: int, v: int)
    requires
        -0x8000 <= v < 0x8000,
        b[i] == wav::bytes16(wav::pattern16(v))[0],
        b[i + 1] == wav::bytes16(wav::pattern16(v))[1],
    ensures
        reading::signed_number(b, i, 2) == v,
{
}

/// Each sample of a written recording stands behind the first 44 bytes as the signed
/// 16-bit integer nearest to 32767 times its value, in binary32; one beyond full scale
/// as the outermost integer on its side, and one that is no number as zero.
pub proof fn law_written_integers_are_the_nearest(samples: Seq<u32>, rate: u32, i: int)
    requires
        0 <= i < samples.len(),
    ensures
        ({
            let b = wav::encoded_wav(samples, rate);
            let v = reading::signed_number(b, 44 + 2 * i, 2);
            let x = samples[i];
            let one = binary32::one_units() as int;
            &&& -0x7fff <= v <= 0x7fff
            &&& binary32::magnitude(x) <= 0x3f80_0000 ==> {
                &&& v == binary32::nearest_integer(binary32::product_of(x, 0x46ff_fe00))
                &&& 1024 * interpolation::size_of(v * one - 0x7fff * binary32::signed_units(x))
                    <= 514 * one
                &&& 0x8000 * interpolation::size_of(v * step() - binary32::signed_units(x)) <= 2
                    * one
            }
            &&& 0x3f80_0000 < binary32::magnitude(x) <= 0x7f80_0000 ==> v == if x < 0x8000_0000 {
                0x7fffint
            } else {
                -0x7fff
            }
            &&& binary32::magnitude(x) > 0x7f80_0000 ==> v == 0
        }),
{
    let x = samples[i];
    let v = wav::pcm16(x);
    lemma_written_integer(samples, rate, i);
    fidelity::lemma_one();
    if binary32::magnitude(x) <= 0x3f80_0000 {
        lemma_nearest_integer(x);
        assert(binary32::limited(x) == x);
    } else if binary32::magnitude(x) <= 0x7f80_0000 {
        let y = binary32::limited(x);
        lemma_nearest_integer(y);
        assert(binary32::limited(y) == y);
        assert(wav::pcm16(y) == v);
        lemma_outermost(v, binary32::signed_units(y));
    }
}

/// The integer of a sample within full scale.
proof fn lemma_nearest_integer(x: u32)
    requires
        binary32::magnitude(x) <= 0x3f80_0000,
    ensures
        ({
            let v = wav::pcm16(x);
            let one = binary32::one_units() as int;
            let s = binary32::signed_units(x);
            &&& binary32::magnitude(x) == 0x3f80_0000 ==> s == if x < 0x8000_0000 {
                one
            } else {
                -one
            }
            &&& v == binary32::nearest_integer(binary32::product_of(x, 0x46ff_fe00))
            &&& 1024 * interpolation::size_of(v * one - 0x7fff * s) <= 514 * one
            &&& 0x8000 * interpolation::size_of(v * step() - s) <= 2 * one
        }),
{
    let (p, m) = fidelity::lemma_scaled(x);
    wav::lemma_pcm16_range(x);
    assert(binary32::limited(x) == x);
    assert(!binary32::is_nan(binary32::product_of(x, 0x46ff_fe00))) by {
        rounding::law_overflow_begins_half_a_place_beyond(
            binary32::absolute_units(x) * binary32::absolute_units(0x46ff_fe00),
            binary32::one_units(),
        );
    }
    let v = wav::pcm16(x);
    let one = binary32::one_units() as int;
    let s = binary32::signed_units(x);
    fidelity::lemma_one();
    lemma2_to64();
    lemma_pow2_adds(15, 134);
    let k = m * one;
    assert(v * one == if binary32::negative(x) {
        -k
    } else {
        k
    }) by (nonlinear_arith)
        requires
            k == m * one,
            v == if binary32::negative(x) {
                -(m as int)
            } else {
                m as int
            },
    ;
    assert(0x8000 * (v * step()) == v * one) by (nonlinear_arith)
        requires
            one == 0x8000 * step(),
    ;
}

/// The integer of a sample at full scale is the outermost one.
proof fn lemma_outermost(v: int, s: int)
    requires
        binary32::one_units() > 0,
        s == binary32::one_units() || s == -binary32::one_units(),
        1024 * interpolation::size_of(v * binary32::one_units() - 0x7fff * s) <= 514
            * binary32::one_units(),
    ensures
        v == if s > 0 {
            0x7fffint
        } else {
            -0x7fff
        },
{
    let one = binary32::one_units() as int;
    let w = if s > 0 {
        0x7fffint
    } else {
        -0x7fff
    };
    let k = v - w;
    assert(v * one == k * one + w * one) by (nonlinear_arith)
        requires
            k == v - w,
    ;
    assert(w * one == 0x7fff * s) by (nonlinear_arith)
        requires
            s == one && w == 0x7fff || s == -one && w == -0x7fff,
    ;
    assert(k * one <= one - 1 ==> k <= 0) by (nonlinear_arith)
        requires
            one > 0,
    ;
    assert(k * one >= 1 - one ==> k >= 0) by (nonlinear_arith)
        requires
            one > 0,
    ;
}

} // verus!
