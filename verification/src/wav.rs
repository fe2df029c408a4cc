//! Reading and writing mono WAV audio.

use vstd::prelude::*;
use vstd::arithmetic::power2::*;

use crate::binary32;
use crate::rounding;

verus! {

/// Lowest accepted sample rate.
pub const MIN_SAMPLE_RATE: u32 = 8_000;

/// Highest accepted sample rate.
pub const MAX_SAMPLE_RATE: u32 = 96_000;

/// Shortest accepted recording.
pub const MIN_DURATION_SECONDS: u32 = 2;

/// Longest accepted recording.
pub const MAX_DURATION_SECONDS: u32 = 30;

/// Sample rate of stored voices.
pub const CANONICAL_SAMPLE_RATE: u32 = 32_000;

/// Peak below which a recording counts as silent: 0.001.
pub const PEAK_FLOOR: u32 = 0x3a83_126f;

/// Root mean square below which a recording counts as silent: 0.0001.
pub const RMS_FLOOR: u32 = 0x38d1_b717;

/// 128.
pub const SCALE_8: u32 = 0x4300_0000;

/// 32768.
pub const SCALE_16: u32 = 0x4700_0000;

/// 8388608.
pub const SCALE_24: u32 = 0x4b00_0000;

/// 2147483648.
pub const SCALE_32: u32 = 0x4f00_0000;

/// 32767, the largest 16-bit sample.
pub const PCM16_PEAK: u32 = 0x46ff_fe00;

/// A decoded recording: its samples are binary32 bit patterns.
#[derive(Debug)]
pub struct DecodedWav {
    pub sample_rate: u32,
    pub samples: Vec<u32>,
}

/// How the samples of a recording are laid out in its file.
#[derive(Clone, Copy, Debug, PartialEq, Eq)]
pub struct WavLayout {
    pub sample_rate: u32,
    /// 1 for integers, 3 for binary32.
    pub encoding: u16,
    pub bits: u16,
    /// Where the samples begin in the file.
    pub start: usize,
    /// Where the samples end in the file.
    pub end: usize,
}

/// The chunks of interest found so far: where each begins and ends.
pub struct Found {
    pub format: Option<(int, int)>,
    pub data: Option<(int, int)>,
}

/// The little-endian 16-bit number at `i`.
pub open spec fn le16(b: Seq<u8>, i: int) -> nat {
    (b[i] + 256 * b[i + 1]) as nat
}

/// The little-endian 32-bit number at `i`.
pub open spec fn le32(b: Seq<u8>, i: int) -> nat {
    le16(b, i) + 0x1_0000 * le16(b, i + 2)
}

/// Whether the four bytes at `i` are `tag`.
pub open spec fn tagged(b: Seq<u8>, i: int, tag: Seq<u8>) -> bool {
    b.subrange(i, i + 4) == tag
}

pub open spec fn riff_tag() -> Seq<u8> {
    seq![0x52u8, 0x49u8, 0x46u8, 0x46u8]
}

pub open spec fn wave_tag() -> Seq<u8> {
    seq![0x57u8, 0x41u8, 0x56u8, 0x45u8]
}

pub open spec fn format_tag() -> Seq<u8> {
    seq![0x66u8, 0x6du8, 0x74u8, 0x20u8]
}

pub open spec fn data_tag() -> Seq<u8> {
    seq![0x64u8, 0x61u8, 0x74u8, 0x61u8]
}

/// Walks the chunks from `offset` on.  A later chunk of a kind replaces an earlier one,
/// chunks begin at even distances, and fewer than eight bytes at the end are ignored.
pub open spec fn walked(b: Seq<u8>, offset: int, found: Found) -> Result<Found, Seq<char>>
    decreases b.len() + 1 - offset,
{
    if offset < 0 || offset + 8 > b.len() {
        Ok(found)
    } else {
        let size = le32(b, offset + 4);
        let start = offset + 8;
        let end = start + size;
        if end > usize::MAX {
            Err("WAV chunk size overflow"@)
        } else if end > b.len() {
            Err("Selected WAV contains a truncated chunk"@)
        } else {
            let now = if tagged(b, offset, format_tag()) {
                Found { format: Some((start, end)), data: found.data }
            } else if tagged(b, offset, data_tag()) {
                Found { format: found.format, data: Some((start, end)) }
            } else {
                found
            };
            walked(b, end + size % 2, now)
        }
    }
}

/// The encoding that a format chunk at `f` declares: an extensible format names it in
/// its subformat.
pub open spec fn declared_encoding(b: Seq<u8>, f: (int, int)) -> nat {
    if le16(b, f.0) == 0xfffe && f.1 - f.0 >= 40 {
        le16(b, f.0 + 24)
    } else {
        le16(b, f.0)
    }
}

/// Bytes that a sample of `bits` bits takes.
pub open spec fn sample_bytes(bits: nat) -> nat {
    (bits + 7) / 8
}

/// Whether samples of this encoding and width can be read.
pub open spec fn supported(encoding: nat, bits: nat) -> bool {
    ||| encoding == 1 && (bits == 8 || bits == 16 || bits == 24 || bits == 32)
    ||| encoding == 3 && bits == 32
}

/// The layout declared by a format chunk at `f` for a data chunk at `d`, or why it is
/// refused.
pub open spec fn declared_layout(b: Seq<u8>, f: (int, int), d: (int, int)) -> Result<
    WavLayout,
    Seq<char>,
> {
    let encoding = declared_encoding(b, f);
    let rate = le32(b, f.0 + 4);
    let block = le16(b, f.0 + 12);
    let bits = le16(b, f.0 + 14);
    if f.1 - f.0 < 16 {
        Err("Selected WAV has an invalid format chunk"@)
    } else if le16(b, f.0 + 2) != 1 {
        Err("Voice WAV must be mono"@)
    } else if rate < MIN_SAMPLE_RATE || rate > MAX_SAMPLE_RATE {
        Err("Voice WAV sample rate must be between 8 and 96 kHz"@)
    } else if block != sample_bytes(bits) || block == 0 || (d.1 - d.0) % (block as int) != 0 {
        Err("Voice WAV has invalid sample alignment"@)
    } else if !supported(encoding, bits) {
        Err("Voice WAV must contain PCM or 32-bit float audio"@)
    } else {
        let frames = (d.1 - d.0) / (block as int);
        if frames < MIN_DURATION_SECONDS * rate || frames > MAX_DURATION_SECONDS * rate {
            Err("Voice WAV must be between 2 and 30 seconds long"@)
        } else {
            Ok(
                WavLayout {
                    sample_rate: rate as u32,
                    encoding: encoding as u16,
                    bits: bits as u16,
                    start: d.0 as usize,
                    end: d.1 as usize,
                },
            )
        }
    }
}

/// The layout of a WAV file, or why it is refused.
pub open spec fn layout_of(b: Seq<u8>) -> Result<WavLayout, Seq<char>> {
    if b.len() < 12 || !tagged(b, 0, riff_tag()) || !tagged(b, 8, wave_tag()) {
        Err("Selected file is not a valid RIFF/WAVE file"@)
    } else {
        match walked(b, 12, Found { format: None, data: None }) {
            Err(e) => Err(e),
            Ok(found) => match (found.format, found.data) {
                (None, _) => Err("Selected WAV has no format chunk"@),
                (_, None) => Err("Selected WAV has no audio data"@),
                (Some(f), Some(d)) => declared_layout(b, f, d),
            },
        }
    }
}

/// The two's complement value of an unsigned number below `2 * half`.
pub open spec fn twos_complement(v: nat, half: nat) -> int {
    if v < half {
        v as int
    } else {
        v - 2 * half
    }
}

/// The sample stored at `i`, as a fraction of full scale.
pub open spec fn stored_sample(b: Seq<u8>, i: int, encoding: u16, bits: u16) -> u32 {
    if encoding == 3 {
        le32(b, i) as u32
    } else if bits == 8 {
        binary32::quotient_of(
            binary32::difference_of(binary32::integer(b[i] as int), SCALE_8),
            SCALE_8,
        )
    } else if bits == 16 {
        binary32::quotient_of(binary32::integer(twos_complement(le16(b, i), 0x8000)), SCALE_16)
    } else if bits == 24 {
        let v = le16(b, i) + 0x1_0000 * b[i + 2] as nat;
        binary32::quotient_of(binary32::integer(twos_complement(v, 0x80_0000)), SCALE_24)
    } else {
        binary32::quotient_of(binary32::integer(twos_complement(le32(b, i), 0x8000_0000)), SCALE_32)
    }
}

/// Number of samples in a layout.
pub open spec fn frames_of(layout: WavLayout) -> nat {
    ((layout.end - layout.start) / (sample_bytes(layout.bits as nat) as int)) as nat
}

/// All samples of a file, as they are stored.
pub open spec fn stored_samples(b: Seq<u8>, layout: WavLayout) -> Seq<u32> {
    let block = sample_bytes(layout.bits as nat);
    Seq::new(
        frames_of(layout),
        |k: int| stored_sample(b, layout.start + k * block, layout.encoding, layout.bits),
    )
}

/// The sum of the squares of the samples, added up in order in binary32.
pub open spec fn energy(samples: Seq<u32>) -> u32
    decreases samples.len(),
{
    if samples.len() == 0 {
        0
    } else {
        binary32::sum_of(
            energy(samples.drop_last()),
            binary32::product_of(samples.last(), samples.last()),
        )
    }
}

/// The root mean square of the samples.
pub open spec fn root_mean_square(samples: Seq<u32>) -> u32 {
    binary32::root_of(
        binary32::quotient_of(energy(samples), binary32::integer(samples.len() as int)),
    )
}

/// Whether finite samples are silent or too quiet: no sample reaches the peak floor, or
/// their root mean square lies below its floor.
pub open spec fn too_quiet(samples: Seq<u32>) -> bool {
    ||| forall|i: int|
        0 <= i < samples.len() ==> binary32::magnitude(#[trigger] samples[i]) < PEAK_FLOOR
    ||| binary32::less(root_mean_square(samples), RMS_FLOOR)
}

/// The sample rate and the full-scale limited samples of a WAV file, or why it is
/// refused.
pub open spec fn decoded(b: Seq<u8>) -> Result<(u32, Seq<u32>), Seq<char>> {
    match layout_of(b) {
        Err(e) => Err(e),
        Ok(layout) => {
            let stored = stored_samples(b, layout);
            let samples = binary32::all_limited(stored);
            if exists|i: int| 0 <= i < stored.len() && !binary32::finite(#[trigger] stored[i]) {
                Err("Voice WAV contains non-finite samples"@)
            } else if too_quiet(samples) {
                Err("Voice WAV is silent or too quiet to clone"@)
            } else {
                Ok((layout.sample_rate, samples))
            }
        },
    }
}

/// The four little-endian bytes of a number below 2^32.
pub open spec fn bytes32(v: nat) -> Seq<u8> {
    seq![
        (v % 256) as u8,
        (v / 0x100 % 256) as u8,
        (v / 0x1_0000 % 256) as u8,
        (v / 0x100_0000 % 256) as u8,
    ]
}

/// The two little-endian bytes of a number below 2^16.
pub open spec fn bytes16(v: nat) -> Seq<u8> {
    seq![(v % 256) as u8, (v / 0x100 % 256) as u8]
}

/// A sample as a 16-bit integer: limited to full scale, scaled by 32767 and rounded,
/// halves away from zero; a NaN becomes zero.
pub open spec fn pcm16(x: u32) -> int {
    let scaled = binary32::product_of(binary32::limited(x), PCM16_PEAK);
    if binary32::is_nan(scaled) {
        0
    } else {
        binary32::nearest_integer(scaled)
    }
}

/// The 16-bit two's complement pattern of an integer.
pub open spec fn pattern16(v: int) -> nat {
    (v % 0x1_0000) as nat
}

/// What a WAV file with `data_len` bytes of 16-bit mono samples begins with.
#[verifier::opaque]
pub open spec fn wav_header(data_len: nat, sample_rate: nat) -> Seq<u8> {
    riff_tag() + bytes32(36 + data_len) + wave_tag() + format_tag() + bytes32(16) + bytes16(1)
        + bytes16(1) + bytes32(sample_rate) + bytes32(sample_rate * 2) + bytes16(2) + bytes16(16)
        + data_tag() + bytes32(data_len)
}

/// The little-endian 16-bit samples, one after another.
pub open spec fn pcm16_data(samples: Seq<u32>) -> Seq<u8>
    decreases samples.len(),
{
    if samples.len() == 0 {
        Seq::empty()
    } else {
        pcm16_data(samples.drop_last()) + bytes16(pattern16(pcm16(samples.last())))
    }
}

/// The length field of the sample data, which holds 32 bits.
pub open spec fn pcm16_length(samples: Seq<u32>) -> nat {
    (samples.len() * 2) % 0x1_0000_0000
}

/// A 16-bit mono WAV file of the samples.
pub open spec fn encoded_wav(samples: Seq<u32>, sample_rate: u32) -> Seq<u8> {
    wav_header(pcm16_length(samples), sample_rate as nat) + pcm16_data(samples)
}

fn read16(b: &[u8], i: usize) -> (v: u16)
    requires
        i + 2 <= b.len(),
    ensures
        v == le16(b@, i as int),
{
    b[i] as u16 + 256 * b[i + 1] as u16
}

fn read32(b: &[u8], i: usize) -> (v: u32)
    requires
        i + 4 <= b.len(),
    ensures
        v == le32(b@, i as int),
{
    read16(b, i) as u32 + 0x1_0000 * read16(b, i + 2) as u32
}

fn has_tag(b: &[u8], i: usize, t0: u8, t1: u8, t2: u8, t3: u8) -> (r: bool)
    requires
        i + 4 <= b.len(),
    ensures
        r == tagged(b@, i as int, seq![t0, t1, t2, t3]),
{
    let r: bool = b[i] == t0 && b[i + 1] == t1 && b[i + 2] == t2 && b[i + 3] == t3;
    proof {
        let part = b@.subrange(i as int, i + 4);
        let tag = seq![t0, t1, t2, t3];
        if r {
            assert(part =~= tag);
        } else if part == tag {
            assert(part[0] == t0 && part[1] == t1 && part[2] == t2 && part[3] == t3);
        }
    }
    r
}

/// Finds the layout of a WAV file.
#[verifier::rlimit(30)]
pub fn wav_layout(bytes: &[u8]) -> (r: Result<WavLayout, String>)
    ensures
        match layout_of(bytes@) {
            Ok(layout) => r == Ok::<WavLayout, String>(layout),
            Err(e) => r matches Err(m) && m@ == e,
        },
        r matches Ok(layout) ==> {
            &&& layout.start <= layout.end <= bytes@.len()
            &&& supported(layout.encoding as nat, layout.bits as nat)
            &&& MIN_SAMPLE_RATE <= layout.sample_rate <= MAX_SAMPLE_RATE
            &&& MIN_DURATION_SECONDS * layout.sample_rate <= frames_of(layout)
            &&& frames_of(layout) <= MAX_DURATION_SECONDS * layout.sample_rate
        },
{
    if bytes.len() < 12 || !has_tag(bytes, 0, 0x52, 0x49, 0x46, 0x46) || !has_tag(
        bytes,
        8,
        0x57,
        0x41,
        0x56,
        0x45,
    ) {
        return Err("Selected file is not a valid RIFF/WAVE file".to_owned());
    }
    let mut offset: usize = 12;
    let mut format: Option<(usize, usize)> = None;
    let mut data: Option<(usize, usize)> = None;
    while offset <= bytes.len() && bytes.len() - offset >= 8
        invariant
            12 <= bytes@.len(),
            tagged(bytes@, 0, riff_tag()),
            tagged(bytes@, 8, wave_tag()),
            format matches Some(f) ==> f.0 <= f.1 <= bytes@.len(),
            data matches Some(d) ==> d.0 <= d.1 <= bytes@.len(),
            walked(bytes@, 12, Found { format: None, data: None }) == walked(
                bytes@,
                offset as int,
                Found { format: spans(format), data: spans(data) },
            ),
        decreases bytes@.len() + 1 - offset,
    {
        let ghost before = Found { format: spans(format), data: spans(data) };
        let ghost at = offset as int;
        let size: u32 = read32(bytes, offset + 4);
        let start: usize = offset + 8;
        let end: usize = match start.checked_add(size as usize) {
            Some(end) => end,
            None => {
                return Err("WAV chunk size overflow".to_owned());
            },
        };
        if end > bytes.len() {
            return Err("Selected WAV contains a truncated chunk".to_owned());
        }
        if has_tag(bytes, offset, 0x66, 0x6d, 0x74, 0x20) {
            format = Some((start, end));
        } else if has_tag(bytes, offset, 0x64, 0x61, 0x74, 0x61) {
            data = Some((start, end));
        }
        offset = end.saturating_add((size % 2) as usize);
        proof {
            let now = Found { format: spans(format), data: spans(data) };
            let next = end + size as nat % 2;
            assert(walked(bytes@, at, before) == walked(bytes@, next, now));
            if offset != next {
                assert(walked(bytes@, next, now) == Ok::<Found, Seq<char>>(now));
                assert(walked(bytes@, offset as int, now) == Ok::<Found, Seq<char>>(now));
            }
        }
    }
    let (fs, fe) = match format {
        Some(f) => f,
        None => {
            return Err("Selected WAV has no format chunk".to_owned());
        },
    };
    let (ds, de) = match data {
        Some(d) => d,
        None => {
            return Err("Selected WAV has no audio data".to_owned());
        },
    };
    if fe - fs < 16 {
        return Err("Selected WAV has an invalid format chunk".to_owned());
    }
    let mut encoding: u16 = read16(bytes, fs);
    if encoding == 0xfffe && fe - fs >= 40 {
        encoding = read16(bytes, fs + 24);
    }
    let channels: u16 = read16(bytes, fs + 2);
    let sample_rate: u32 = read32(bytes, fs + 4);
    let block: usize = read16(bytes, fs + 12) as usize;
    let bits: u16 = read16(bytes, fs + 14);
    if channels != 1 {
        return Err("Voice WAV must be mono".to_owned());
    }
    if sample_rate < MIN_SAMPLE_RATE || sample_rate > MAX_SAMPLE_RATE {
        return Err("Voice WAV sample rate must be between 8 and 96 kHz".to_owned());
    }
    let bytes_per_sample: usize = (bits as usize + 7) / 8;
    if block != bytes_per_sample || block == 0 || (de - ds) % block != 0 {
        return Err("Voice WAV has invalid sample alignment".to_owned());
    }
    if !((encoding == 1 && (bits == 8 || bits == 16 || bits == 24 || bits == 32)) || (encoding == 3
        && bits == 32)) {
        return Err("Voice WAV must contain PCM or 32-bit float audio".to_owned());
    }
    // The duration in seconds lies between the limits exactly when the frames do:
    // at these rates a quotient off a limit is off by far more than a rounding error.
    let frames: usize = (de - ds) / block;
    if frames < (MIN_DURATION_SECONDS * sample_rate) as usize || frames > (MAX_DURATION_SECONDS
        * sample_rate) as usize {
        return Err("Voice WAV must be between 2 and 30 seconds long".to_owned());
    }
    Ok(WavLayout { sample_rate, encoding, bits, start: ds, end: de })
}

spec fn spans(s: Option<(usize, usize)>) -> Option<(int, int)> {
    match s {
        Some(p) => Some((p.0 as int, p.1 as int)),
        None => None,
    }
}

fn to_signed(v: u32, half: u32) -> (r: i32)
    requires
        0 < half <= 0x8000_0000,
        v < 2 * half,
    ensures
        r == twos_complement(v as nat, half as nat),
{
    if v < half {
        v as i32
    } else {
        (v as i64 - 2 * half as i64) as i32
    }
}

fn read_sample(b: &[u8], i: usize, encoding: u16, bits: u16) -> (x: u32)
    requires
        supported(encoding as nat, bits as nat),
        i + sample_bytes(bits as nat) <= b.len(),
    ensures
        x == stored_sample(b@, i as int, encoding, bits),
{
    if encoding == 3 {
        read32(b, i)
    } else if bits == 8 {
        binary32::quotient(
            binary32::difference(binary32::from_unsigned(b[i] as u32), SCALE_8),
            SCALE_8,
        )
    } else if bits == 16 {
        let v: i32 = to_signed(read16(b, i) as u32, 0x8000);
        binary32::quotient(binary32::from_signed(v), SCALE_16)
    } else if bits == 24 {
        let v: i32 = to_signed(read16(b, i) as u32 + 0x1_0000 * b[i + 2] as u32, 0x80_0000);
        binary32::quotient(binary32::from_signed(v), SCALE_24)
    } else {
        let v: i32 = to_signed(read32(b, i), 0x8000_0000);
        binary32::quotient(binary32::from_signed(v), SCALE_32)
    }
}

/// Decodes a mono WAV file of 8, 16, 24 or 32-bit integers or of binary32 samples.
pub fn decode_wav(bytes: &[u8]) -> (r: Result<DecodedWav, String>)
    ensures
        match decoded(bytes@) {
            Ok((sample_rate, samples)) => {
                &&& r matches Ok(wav)
                &&& wav.sample_rate == sample_rate
                &&& wav.samples@ == samples
            },
            Err(e) => r matches Err(m) && m@ == e,
        },
{
    let layout: WavLayout = match wav_layout(bytes) {
        Ok(layout) => layout,
        Err(e) => {
            return Err(e);
        },
    };
    let block: usize = (layout.bits as usize + 7) / 8;
    let frames: usize = (layout.end - layout.start) / block;
    let ghost stored = stored_samples(bytes@, layout);
    assert(frames * block <= layout.end - layout.start) by (nonlinear_arith)
        requires
            frames == (layout.end - layout.start) / (block as int),
            block > 0,
            layout.start <= layout.end,
    ;
    let mut samples: Vec<u32> = Vec::with_capacity(frames);
    let mut k: usize = 0;
    while k < frames
        invariant
            k <= frames,
            frames == stored.len(),
            layout.start + frames * block <= layout.end <= bytes.len(),
            block == sample_bytes(layout.bits as nat),
            supported(layout.encoding as nat, layout.bits as nat),
            layout_of(bytes@) == Ok::<WavLayout, Seq<char>>(layout),
            stored == stored_samples(bytes@, layout),
            samples@ == binary32::all_limited(stored.take(k as int)),
            forall|i: int| 0 <= i < k ==> binary32::finite(#[trigger] stored[i]),
        decreases frames - k,
    {
        assert(k * block + block <= frames * block) by (nonlinear_arith)
            requires
                k + 1 <= frames,
        ;
        let x: u32 = read_sample(bytes, layout.start + k * block, layout.encoding, layout.bits);
        assert(x == stored[k as int]);
        if !binary32::is_finite(x) {
            return Err("Voice WAV contains non-finite samples".to_owned());
        }
        samples.push(binary32::limit(x));
        k = k + 1;
        assert(samples@ =~= binary32::all_limited(stored.take(k as int)));
    }
    assert(stored.take(frames as int) =~= stored);
    if is_too_quiet(&samples) {
        return Err("Voice WAV is silent or too quiet to clone".to_owned());
    }
    Ok(DecodedWav { sample_rate: layout.sample_rate, samples })
}

fn is_too_quiet(samples: &Vec<u32>) -> (r: bool)
    requires
        samples@.len() <= u32::MAX,
    ensures
        r == too_quiet(samples@),
{
    let mut reached: bool = false;
    let mut total: u32 = 0;
    let mut i: usize = 0;
    while i < samples.len()
        invariant
            i <= samples@.len(),
            total == energy(samples@.take(i as int)),
            reached <==> exists|j: int|
                0 <= j < i && binary32::magnitude(#[trigger] samples@[j]) >= PEAK_FLOOR,
        decreases samples@.len() - i,
    {
        let x: u32 = samples[i];
        if binary32::absolute(x) >= PEAK_FLOOR {
            reached = true;
        }
        total = binary32::sum(total, binary32::product(x, x));
        assert(samples@.take(i + 1).drop_last() =~= samples@.take(i as int));
        i = i + 1;
    }
    assert(samples@.take(i as int) =~= samples@);
    if !reached {
        return true;
    }
    let mean: u32 = binary32::quotient(total, binary32::from_unsigned(samples.len() as u32));
    binary32::is_less(binary32::root(mean), RMS_FLOOR)
}

/// A limited sample scaled to 16 bits does not leave them.
pub proof fn lemma_pcm16_range(x: u32)
    ensures
        ({
            let scaled = binary32::product_of(binary32::limited(x), PCM16_PEAK);
            binary32::is_nan(scaled) || binary32::magnitude(scaled) <= PCM16_PEAK
        }),
        -0x7fff <= pcm16(x) <= 0x7fff,
{
    let y = binary32::limited(x);
    let scaled = binary32::product_of(y, PCM16_PEAK);
    if !binary32::is_nan(y) {
        let u = binary32::absolute_units(y);
        let top = binary32::absolute_units(PCM16_PEAK);
        let one = binary32::one_units();
        lemma2_to64();
        lemma_pow2_pos(149);
        // One is 2^149 units, and the peak is 32767 times that.
        assert(rounding::units(binary32::ONE as nat) == one) by {
            lemma_pow2_adds(23, 126);
        }
        assert(top == 0x7fff * one) by {
            lemma_pow2_adds(9, 140);
            let p = pow2(140);
            assert(top == 0xff_fe00 * p);
            assert(0xff_fe00 * p == 0x7fff * (0x200 * p)) by (nonlinear_arith);
        }
        rounding::lemma_units_are_monotone(binary32::magnitude(y) as nat, binary32::ONE as nat);
        assert(u * top <= top * one) by (nonlinear_arith)
            requires
                u <= one,
        ;
        rounding::lemma_nearest_is_monotone(u * top, top * one, one);
        rounding::lemma_nearest_on_grid(PCM16_PEAK as nat, one);
        rounding::lemma_units_are_monotone(
            binary32::magnitude(scaled) as nat,
            PCM16_PEAK as nat,
        );
        let v = binary32::absolute_units(scaled);
        let m = (2 * v + one) / (2 * one);
        assert(m <= 0x7fff) by (nonlinear_arith)
            requires
                m == (2 * v + one) / (2 * one),
                v <= 0x7fff * one,
                one > 0,
        ;
    }
}

fn to_pcm16(x: u32) -> (v: i16)
    ensures
        v == pcm16(x),
{
    proof {
        lemma_pcm16_range(x);
    }
    let scaled: u32 = binary32::product(binary32::limit(x), PCM16_PEAK);
    if binary32::absolute(scaled) > rounding::INFINITE {
        0
    } else {
        binary32::to_integer(scaled) as i16
    }
}

fn write16(out: &mut Vec<u8>, v: u16)
    ensures
        final(out)@ == old(out)@ + bytes16(v as nat),
{
    out.push((v % 256) as u8);
    out.push((v / 0x100) as u8);
    assert(out@ =~= old(out)@ + bytes16(v as nat));
}

fn write32(out: &mut Vec<u8>, v: u32)
    ensures
        final(out)@ == old(out)@ + bytes32(v as nat),
{
    out.push((v % 256) as u8);
    out.push((v / 0x100 % 256) as u8);
    out.push((v / 0x1_0000 % 256) as u8);
    out.push((v / 0x100_0000) as u8);
    assert(out@ =~= old(out)@ + bytes32(v as nat));
}

fn write_tag(out: &mut Vec<u8>, t0: u8, t1: u8, t2: u8, t3: u8)
    ensures
        final(out)@ == old(out)@ + seq![t0, t1, t2, t3],
{
    out.push(t0);
    out.push(t1);
    out.push(t2);
    out.push(t3);
    assert(out@ =~= old(out)@ + seq![t0, t1, t2, t3]);
}

#[verifier::rlimit(30)]
fn write_samples(out: &mut Vec<u8>, samples: &[u32])
    ensures
        final(out)@ == old(out)@ + pcm16_data(samples@),
{
    let ghost header = out@;
    let mut i: usize = 0;
    assert(samples@.take(0) =~= Seq::empty());
    assert(out@ =~= header + pcm16_data(samples@.take(0)));
    while i < samples.len()
        invariant
            i <= samples@.len(),
            out@ == header + pcm16_data(samples@.take(i as int)),
        decreases samples@.len() - i,
    {
        let v: i16 = to_pcm16(samples[i]);
        let pattern: u16 = if v < 0 { (v as i32 + 0x1_0000) as u16 } else { v as u16 };
        let ghost done = pcm16_data(samples@.take(i as int));
        let ghost next = bytes16(pattern16(pcm16(samples@[i as int])));
        write16(out, pattern);
        assert(pcm16_data(samples@.take(i + 1)) == done + next) by {
            assert(samples@.take(i + 1).drop_last() =~= samples@.take(i as int));
        }
        assert(header + done + next =~= header + (done + next));
        i = i + 1;
    }
    assert(samples@.take(i as int) =~= samples@);
}

/// Encodes samples as a 16-bit mono WAV file.
#[verifier::rlimit(30)]
pub fn encode_pcm16_wav(samples: &[u32], sample_rate: u32) -> (out: Vec<u8>)
    requires
        samples@.len() * 2 <= usize::MAX,
        pcm16_length(samples@) + 36 <= u32::MAX,
        sample_rate * 2 <= u32::MAX,
    ensures
        out@ == encoded_wav(samples@, sample_rate),
{
    let data_len: u32 = ((samples.len() * 2) as u64 % 0x1_0000_0000) as u32;
    let mut out: Vec<u8> = Vec::new();
    write_tag(&mut out, 0x52, 0x49, 0x46, 0x46);
    write32(&mut out, 36 + data_len);
    write_tag(&mut out, 0x57, 0x41, 0x56, 0x45);
    write_tag(&mut out, 0x66, 0x6d, 0x74, 0x20);
    write32(&mut out, 16);
    write16(&mut out, 1);
    write16(&mut out, 1);
    write32(&mut out, sample_rate);
    write32(&mut out, sample_rate * 2);
    write16(&mut out, 2);
    write16(&mut out, 16);
    write_tag(&mut out, 0x64, 0x61, 0x74, 0x61);
    write32(&mut out, data_len);
    assert(out@ =~= wav_header(pcm16_length(samples@), sample_rate as nat)) by {
        reveal(wav_header);
    }
    write_samples(&mut out, samples);
    out
}

/// What is read back of a sample that was written as a 16-bit integer.
pub open spec fn requantized(x: u32) -> u32 {
    binary32::quotient_of(binary32::integer(pcm16(x)), SCALE_16)
}

/// Where the fields of a header stand.
pub proof fn lemma_wav_header_fields(data_len: nat, sample_rate: nat)
    ensures
        ({
            let h = wav_header(data_len, sample_rate);
            &&& h.len() == 44
            &&& h.subrange(0, 4) == riff_tag()
            &&& h.subrange(4, 8) == bytes32(36 + data_len)
            &&& h.subrange(8, 12) == wave_tag()
            &&& h.subrange(12, 16) == format_tag()
            &&& h.subrange(16, 20) == bytes32(16)
            &&& h.subrange(20, 22) == bytes16(1)
            &&& h.subrange(22, 24) == bytes16(1)
            &&& h.subrange(24, 28) == bytes32(sample_rate)
            &&& h.subrange(28, 32) == bytes32(sample_rate * 2)
            &&& h.subrange(32, 34) == bytes16(2)
            &&& h.subrange(34, 36) == bytes16(16)
            &&& h.subrange(36, 40) == data_tag()
            &&& h.subrange(40, 44) == bytes32(data_len)
        }),
{
    reveal(wav_header);
    let h = wav_header(data_len, sample_rate);
    assert(h.len() == 44);
    assert(h.subrange(0, 4) =~= riff_tag());
    assert(h.subrange(4, 8) =~= bytes32(36 + data_len));
    assert(h.subrange(8, 12) =~= wave_tag());
    assert(h.subrange(12, 16) =~= format_tag());
    assert(h.subrange(16, 20) =~= bytes32(16));
    assert(h.subrange(20, 22) =~= bytes16(1));
    assert(h.subrange(22, 24) =~= bytes16(1));
    assert(h.subrange(24, 28) =~= bytes32(sample_rate));
    assert(h.subrange(28, 32) =~= bytes32(sample_rate * 2));
    assert(h.subrange(32, 34) =~= bytes16(2));
    assert(h.subrange(34, 36) =~= bytes16(16));
    assert(h.subrange(36, 40) =~= data_tag());
    assert(h.subrange(40, 44) =~= bytes32(data_len));
}

/// The fields of a header stand where a reader looks for them.
proof fn lemma_wav_header(data_len: nat, sample_rate: nat)
    requires
        data_len + 36 < 0x1_0000_0000,
        sample_rate * 2 < 0x1_0000_0000,
    ensures
        ({
            let h = wav_header(data_len, sample_rate);
            &&& h.len() == 44
            &&& h.subrange(0, 4) == riff_tag()
            &&& h.subrange(8, 12) == wave_tag()
            &&& h.subrange(12, 16) == format_tag()
            &&& le32(h, 16) == 16
            &&& le16(h, 20) == 1
            &&& le16(h, 22) == 1
            &&& le32(h, 24) == sample_rate
            &&& le16(h, 32) == 2
            &&& le16(h, 34) == 16
            &&& h.subrange(36, 40) == data_tag()
            &&& le32(h, 40) == data_len
        }),
{
    let h = wav_header(data_len, sample_rate);
    lemma_wav_header_fields(data_len, sample_rate);
    lemma_read_written32(h, 16, 16);
    lemma_read_written16(h, 20, 1);
    lemma_read_written16(h, 22, 1);
    lemma_read_written32(h, 24, sample_rate);
    lemma_read_written16(h, 32, 2);
    lemma_read_written16(h, 34, 16);
    lemma_read_written32(h, 40, data_len);
}

proof fn lemma_read_written16(b: Seq<u8>, i: int, v: nat)
    requires
        0 <= i,
        i + 2 <= b.len(),
        b.subrange(i, i + 2) == bytes16(v),
        v < 0x1_0000,
    ensures
        le16(b, i) == v,
{
    let part = b.subrange(i, i + 2);
    assert(part[0] == b[i] && part[1] == b[i + 1]);
}

proof fn lemma_read_written32(b: Seq<u8>, i: int, v: nat)
    requires
        0 <= i,
        i + 4 <= b.len(),
        b.subrange(i, i + 4) == bytes32(v),
        v < 0x1_0000_0000,
    ensures
        le32(b, i) == v,
{
    let part = b.subrange(i, i + 4);
    assert(part[0] == b[i] && part[1] == b[i + 1] && part[2] == b[i + 2] && part[3] == b[i + 3]);
}

/// Where the bytes of each 16-bit sample stand.
pub proof fn lemma_pcm16_data(samples: Seq<u32>)
    ensures
        pcm16_data(samples).len() == 2 * samples.len(),
        forall|k: int|
            0 <= k < samples.len() ==> #[trigger] pcm16_data(samples).subrange(2 * k, 2 * k + 2)
                == bytes16(pattern16(pcm16(samples[k]))),
    decreases samples.len(),
{
    if samples.len() > 0 {
        let init = samples.drop_last();
        lemma_pcm16_data(init);
        let d = pcm16_data(samples);
        let e = pcm16_data(init);
        assert forall|k: int| 0 <= k < samples.len() implies #[trigger] d.subrange(2 * k, 2 * k + 2)
            == bytes16(pattern16(pcm16(samples[k]))) by {
            if k < init.len() {
                assert(d.subrange(2 * k, 2 * k + 2) =~= e.subrange(2 * k, 2 * k + 2));
            } else {
                assert(d.subrange(2 * k, 2 * k + 2) =~= bytes16(pattern16(pcm16(samples.last()))));
            }
        }
    }
}

/// How long an encoded recording is.
pub proof fn lemma_encoded_len(samples: Seq<u32>, sample_rate: u32)
    ensures
        encoded_wav(samples, sample_rate).len() == 44 + 2 * samples.len(),
{
    lemma_wav_header_fields(pcm16_length(samples), sample_rate as nat);
    lemma_pcm16_data(samples);
}

/// A 16-bit integer read as a sample stays within full scale.
pub proof fn lemma_requantized_is_limited(x: u32)
    ensures
        binary32::finite(requantized(x)),
        binary32::limited(requantized(x)) == requantized(x),
{
    lemma_pcm16_range(x);
    let v = pcm16(x);
    let a: nat = if v < 0 { (-v) as nat } else { v as nat };
    let one = binary32::one_units();
    let whole = binary32::absolute_units(SCALE_16);
    lemma2_to64();
    lemma_pow2_pos(149);
    assert(whole == 0x8000 * one) by {
        lemma_pow2_adds(23, 141);
        lemma_pow2_adds(15, 149);
    }
    assert(rounding::units(binary32::ONE as nat) == one) by {
        lemma_pow2_adds(23, 126);
    }
    let i = binary32::integer(v);
    assert(a * one <= whole * 1) by (nonlinear_arith)
        requires
            a <= 0x8000,
            whole == 0x8000 * one,
    ;
    rounding::lemma_nearest_is_monotone((a * one) as nat, whole * 1, 1);
    rounding::lemma_nearest_on_grid(SCALE_16 as nat, 1);
    assert(binary32::magnitude(i) == rounding::nearest((a * one) as nat, 1));
    rounding::lemma_units_are_monotone(binary32::magnitude(i) as nat, SCALE_16 as nat);
    let u = binary32::absolute_units(i);
    assert(u * one <= one * whole) by (nonlinear_arith)
        requires
            u <= whole,
    ;
    assert(whole > 0);
    rounding::lemma_nearest_is_monotone(u * one, one * whole, whole);
    rounding::lemma_nearest_on_grid(binary32::ONE as nat, whole);
}

/// The layout of an encoded recording of acceptable length.
proof fn lemma_layout_of_encoded(samples: Seq<u32>, sample_rate: u32)
    requires
        MIN_SAMPLE_RATE <= sample_rate <= MAX_SAMPLE_RATE,
        MIN_DURATION_SECONDS * sample_rate <= samples.len() <= MAX_DURATION_SECONDS * sample_rate,
    ensures
        layout_of(encoded_wav(samples, sample_rate)) == Ok::<WavLayout, Seq<char>>(
            WavLayout {
                sample_rate,
                encoding: 1,
                bits: 16,
                start: 44,
                end: (44 + 2 * samples.len()) as usize,
            },
        ),
{
    let size = 2 * samples.len();
    let h = wav_header(size, sample_rate as nat);
    let d = pcm16_data(samples);
    let b = encoded_wav(samples, sample_rate);
    assert(pcm16_length(samples) == size);
    assert(b == h + d);
    lemma_wav_header(size, sample_rate as nat);
    lemma_pcm16_data(samples);
    assert(forall|i: int| 0 <= i < 44 ==> b[i] == h[i]);
    assert(b.subrange(0, 4) =~= h.subrange(0, 4));
    assert(b.subrange(8, 12) =~= h.subrange(8, 12));
    assert(b.subrange(12, 16) =~= h.subrange(12, 16));
    assert(b.subrange(36, 40) =~= h.subrange(36, 40));
    assert(format_tag()[0] != data_tag()[0]);
    let none = Found { format: None, data: None };
    let one = Found { format: Some((20int, 36int)), data: None };
    let both = Found { format: Some((20int, 36int)), data: Some((44int, (44 + size) as int)) };
    assert(walked(b, 12, none) == walked(b, 36, one));
    assert(walked(b, 36, one) == walked(b, (44 + size) as int, both));
    assert(walked(b, (44 + size) as int, both) == Ok::<Found, Seq<char>>(both));
}

/// A 16-bit integer is read back.
proof fn lemma_read_pcm16(b: Seq<u8>, i: int, v: int)
    requires
        0 <= i,
        i + 2 <= b.len(),
        -0x8000 <= v < 0x8000,
        b.subrange(i, i + 2) == bytes16(pattern16(v)),
    ensures
        stored_sample(b, i, 1, 16) == binary32::quotient_of(binary32::integer(v), SCALE_16),
{
    lemma_read_written16(b, i, pattern16(v));
    assert(twos_complement(pattern16(v), 0x8000) == v);
}

/// A 16-bit sample is read back from behind a header.
proof fn lemma_stored_pcm16(h: Seq<u8>, samples: Seq<u32>, k: int)
    requires
        h.len() == 44,
        0 <= k < samples.len(),
    ensures
        stored_sample(h + pcm16_data(samples), 44 + k * 2, 1, 16) == requantized(samples[k]),
{
    let d = pcm16_data(samples);
    let b = h + d;
    assert(b.subrange(44 + 2 * k, 44 + 2 * k + 2) == bytes16(pattern16(pcm16(samples[k])))) by {
        lemma_pcm16_data(samples);
        assert(b.subrange(44 + 2 * k, 44 + 2 * k + 2) =~= d.subrange(2 * k, 2 * k + 2));
    }
    assert(b.len() == 44 + 2 * samples.len()) by {
        lemma_pcm16_data(samples);
    }
    lemma_pcm16_range(samples[k]);
    lemma_read_pcm16(b, 44 + 2 * k, pcm16(samples[k]));
}

/// All samples are read back from behind a header.
proof fn lemma_stored_samples_of_encoded(h: Seq<u8>, samples: Seq<u32>, layout: WavLayout)
    requires
        h.len() == 44,
        layout.encoding == 1,
        layout.bits == 16,
        layout.start == 44,
        layout.end == 44 + 2 * samples.len(),
    ensures
        stored_samples(h + pcm16_data(samples), layout) == samples.map_values(
            |x: u32| requantized(x),
        ),
{
    let b = h + pcm16_data(samples);
    let kept = samples.map_values(|x: u32| requantized(x));
    let stored = stored_samples(b, layout);
    assert(frames_of(layout) == samples.len());
    assert forall|k: int| 0 <= k < samples.len() implies #[trigger] stored[k] == kept[k] by {
        lemma_stored_pcm16(h, samples, k);
    }
    assert(stored =~= kept);
}

/// Samples that are already limited decode as they are stored.
proof fn lemma_decoded_of_layout(b: Seq<u8>, layout: WavLayout, samples: Seq<u32>)
    requires
        layout_of(b) == Ok::<WavLayout, Seq<char>>(layout),
        stored_samples(b, layout) == samples,
        forall|k: int|
            0 <= k < samples.len() ==> binary32::finite(#[trigger] samples[k])
                && binary32::limited(samples[k]) == samples[k],
    ensures
        decoded(b) == if too_quiet(samples) {
            Err::<(u32, Seq<u32>), Seq<char>>("Voice WAV is silent or too quiet to clone"@)
        } else {
            Ok((layout.sample_rate, samples))
        },
{
    assert(binary32::all_limited(samples) =~= samples);
}

/// The samples of an encoded recording are the 16-bit forms of what was written.
proof fn lemma_samples_of_encoded(samples: Seq<u32>, sample_rate: u32, layout: WavLayout)
    requires
        samples.len() * 2 + 36 < 0x1_0000_0000,
        sample_rate * 2 < 0x1_0000_0000,
        layout.encoding == 1,
        layout.bits == 16,
        layout.start == 44,
        layout.end == 44 + 2 * samples.len(),
    ensures
        stored_samples(encoded_wav(samples, sample_rate), layout) == samples.map_values(
            |x: u32| requantized(x),
        ),
{
    let size = 2 * samples.len();
    assert(pcm16_length(samples) == size);
    lemma_wav_header(size, sample_rate as nat);
    lemma_stored_samples_of_encoded(wav_header(size, sample_rate as nat), samples, layout);
}

/// The 16-bit forms of samples are finite and within full scale.
proof fn lemma_all_requantized(samples: Seq<u32>, kept: Seq<u32>)
    requires
        kept == samples.map_values(|x: u32| requantized(x)),
    ensures
        forall|k: int|
            0 <= k < kept.len() ==> binary32::finite(#[trigger] kept[k]) && binary32::limited(kept[k])
                == kept[k],
{
    assert forall|k: int| 0 <= k < kept.len() implies binary32::finite(#[trigger] kept[k])
        && binary32::limited(kept[k]) == kept[k] by {
        lemma_requantized_is_limited(samples[k]);
    }
}

/// A recording of acceptable rate and length that is written out decodes again: at the
/// same rate, to as many samples, each of them the 16-bit form of what was written.
/// The one exception is a recording that these 16-bit forms make too quiet.
pub proof fn law_encoded_wav_decodes(samples: Seq<u32>, sample_rate: u32)
    requires
        MIN_SAMPLE_RATE <= sample_rate <= MAX_SAMPLE_RATE,
        MIN_DURATION_SECONDS * sample_rate <= samples.len() <= MAX_DURATION_SECONDS * sample_rate,
    ensures
        ({
            let kept = samples.map_values(|x: u32| requantized(x));
            decoded(encoded_wav(samples, sample_rate)) == if too_quiet(kept) {
                Err::<(u32, Seq<u32>), Seq<char>>("Voice WAV is silent or too quiet to clone"@)
            } else {
                Ok((sample_rate, kept))
            }
        }),
{
    let kept = samples.map_values(|x: u32| requantized(x));
    let layout = WavLayout {
        sample_rate,
        encoding: 1,
        bits: 16,
        start: 44,
        end: (44 + 2 * samples.len()) as usize,
    };
    lemma_layout_of_encoded(samples, sample_rate);
    lemma_samples_of_encoded(samples, sample_rate, layout);
    lemma_all_requantized(samples, kept);
    lemma_decoded_of_layout(encoded_wav(samples, sample_rate), layout, kept);
}

/// The chunks found lie within the file.
proof fn lemma_walked(b: Seq<u8>, offset: int, found: Found)
    requires
        0 <= offset,
        found.format matches Some(f) ==> 0 <= f.0 <= f.1 <= b.len(),
        found.data matches Some(d) ==> 0 <= d.0 <= d.1 <= b.len(),
    ensures
        walked(b, offset, found) matches Ok(now) ==> {
            &&& now.format matches Some(f) ==> 0 <= f.0 <= f.1 <= b.len()
            &&& now.data matches Some(d) ==> 0 <= d.0 <= d.1 <= b.len()
        },
    decreases b.len() + 1 - offset,
{
    if offset + 8 <= b.len() {
        let size = le32(b, offset + 4);
        let start = offset + 8;
        let end = start + size;
        if end <= usize::MAX && end <= b.len() {
            let now = if tagged(b, offset, format_tag()) {
                Found { format: Some((start, end)), data: found.data }
            } else if tagged(b, offset, data_tag()) {
                Found { format: found.format, data: Some((start, end)) }
            } else {
                found
            };
            lemma_walked(b, end + size % 2, now);
        }
    }
}

/// Whatever decodes has an acceptable rate and an acceptable length, and its samples are
/// finite and within full scale.
pub proof fn law_decoded_recording_is_acceptable(b: Seq<u8>)
    requires
        b.len() <= usize::MAX,
    ensures
        decoded(b) matches Ok((sample_rate, samples)) ==> {
            &&& MIN_SAMPLE_RATE <= sample_rate <= MAX_SAMPLE_RATE
            &&& MIN_DURATION_SECONDS * sample_rate <= samples.len()
            &&& samples.len() <= MAX_DURATION_SECONDS * sample_rate
            &&& forall|i: int|
                0 <= i < samples.len() ==> binary32::magnitude(#[trigger] samples[i])
                    <= binary32::ONE
        },
{
    if decoded(b) is Ok {
        lemma_walked(b, 12, Found { format: None, data: None });
        let layout = layout_of(b)->Ok_0;
        let stored = stored_samples(b, layout);
        let samples = binary32::all_limited(stored);
        assert forall|i: int| 0 <= i < samples.len() implies binary32::magnitude(
            #[trigger] samples[i],
        ) <= binary32::ONE by {
            assert(binary32::finite(stored[i]));
        }
    }
}

} // verus!
