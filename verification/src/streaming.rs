//! Assembly of generated speech into playback buffers.
//!
//! The speech generator hands over independent blocks of samples while it works.  They
//! are queued for playback as they come, without their leading silence and with a
//! short suffix kept back, so that the utterance can be faded out once its end is
//! known.

use vstd::prelude::*;
use vstd::arithmetic::power2::*;

use crate::binary32;
use crate::fidelity;
use crate::rounding;
use crate::text;

verus! {

/// Sample rate of generated speech.
pub const SAMPLE_RATE: u32 = 24_000;

/// Silence put before every utterance, so that the device has opened when it begins.
pub const SENTENCE_LEAD_IN_SAMPLES: usize = 480;

/// Length of the fade at the end of an utterance.
pub const FADE_OUT_SAMPLES: usize = 240;

/// Number of samples kept back until the next block.
pub const STREAM_TAIL_SAMPLES: usize = FADE_OUT_SAMPLES * 2;

/// Window over which sustained audio is measured: 10 ms.
pub const WINDOW: usize = 240;

/// The length of the window as a sample.
pub const WINDOW_LENGTH: u32 = 0x4370_0000;

/// Audio kept before the window in which sustained audio was found: 50 ms.
pub const RETAIN: usize = 1_200;

/// Root mean square from which audio counts as sustained: 0.002.
pub const THRESHOLD: u32 = 0x3b03_126f;

/// A silent stretch.
pub open spec fn silence(len: nat) -> Seq<u32> {
    Seq::new(len, |i: int| 0u32)
}

/// The energy in the window that ends with sample `i`, kept up sample by sample.
pub open spec fn window_energy(samples: Seq<u32>, i: int) -> u32
    decreases i,
{
    let before = if i <= 0 {
        0u32
    } else {
        window_energy(samples, i - 1)
    };
    let added = binary32::sum_of(before, binary32::product_of(samples[i], samples[i]));
    if i >= WINDOW {
        let expired = samples[i - WINDOW];
        binary32::difference_of(added, binary32::product_of(expired, expired))
    } else {
        added
    }
}

/// Whether the window that ends with sample `i` is complete and holds sustained audio.
pub open spec fn sustained(samples: Seq<u32>, i: int) -> bool {
    &&& i + 1 >= WINDOW
    &&& binary32::at_least(
        binary32::quotient_of(window_energy(samples, i), WINDOW_LENGTH),
        binary32::product_of(THRESHOLD, THRESHOLD),
    )
}

/// The first sample from `i` on at which a window of sustained audio ends.
pub open spec fn first_sustained(samples: Seq<u32>, i: int) -> Option<int>
    decreases samples.len() - i,
{
    if i >= samples.len() {
        None
    } else if sustained(samples, i) {
        Some(i)
    } else {
        first_sustained(samples, i + 1)
    }
}

/// Length of the silence that closes an utterance: together with the lead-in of the next
/// one it makes up the silence between them.
pub open spec fn closing_len(silence_buf_len: nat) -> nat {
    if silence_buf_len > SENTENCE_LEAD_IN_SAMPLES {
        (silence_buf_len - SENTENCE_LEAD_IN_SAMPLES) as nat
    } else {
        0
    }
}

/// Where sustained audio begins, with what is kept before it.
pub open spec fn leading_start(samples: Seq<u32>) -> Option<int> {
    match first_sustained(samples, 0) {
        Some(i) => Some(
            if i + 1 - WINDOW >= RETAIN {
                i + 1 - WINDOW - RETAIN
            } else {
                0
            },
        ),
        None => None,
    }
}

/// What an assembler holds.
pub struct StreamState {
    /// Samples that were received and not queued.
    pub pending: Seq<u32>,
    /// Samples received in blocks.
    pub callback_samples: nat,
    /// Blocks received.
    pub callback_count: nat,
    /// Samples queued for playback.
    pub queued_samples: nat,
}

/// Nothing received yet.
pub open spec fn fresh() -> StreamState {
    StreamState {
        pending: Seq::empty(),
        callback_samples: 0,
        callback_count: 0,
        queued_samples: 0,
    }
}

impl StreamState {
    /// While blocks come in: what was queued and what is pending was received, and
    /// nothing was received without a block.
    pub open spec fn wf(self) -> bool {
        &&& self.queued_samples + self.pending.len() <= self.callback_samples
        &&& self.callback_count == 0 ==> self.callback_samples == 0
    }

    /// After another block.
    pub open spec fn received(self, samples: Seq<u32>) -> StreamState {
        StreamState {
            pending: self.pending + samples,
            callback_samples: self.callback_samples + samples.len(),
            callback_count: self.callback_count + 1,
            queued_samples: self.queued_samples,
        }
    }

    /// Which part of the pending samples can be queued now: all but the retained suffix,
    /// and at the beginning only once audio is found, without the silence before it.
    pub open spec fn emission(self) -> Option<(int, int)> {
        let end = self.pending.len() - STREAM_TAIL_SAMPLES;
        if end <= 0 {
            None
        } else if self.queued_samples == 0 {
            match leading_start(self.pending.take(end)) {
                Some(start) => Some((start, end)),
                None => None,
            }
        } else {
            Some((0, end))
        }
    }

    /// The silence that goes before what is queued next.
    pub open spec fn lead_in(self) -> Seq<u32> {
        silence(
            if self.queued_samples == 0 {
                SENTENCE_LEAD_IN_SAMPLES as nat
            } else {
                0
            },
        )
    }

    /// The buffer for a part of the pending samples.
    pub open spec fn buffer(self, part: (int, int)) -> Seq<u32> {
        self.lead_in() + binary32::all_limited(self.pending.subrange(part.0, part.1))
    }

    /// After a part of the pending samples was queued.
    pub open spec fn emitted(self, part: (int, int)) -> StreamState {
        StreamState {
            pending: self.pending.skip(part.1),
            callback_samples: self.callback_samples,
            callback_count: self.callback_count,
            queued_samples: self.queued_samples + (part.1 - part.0) as nat,
        }
    }

    /// Whether a complete waveform of `len` samples contradicts the blocks.
    pub open spec fn mismatched(self, len: nat) -> bool {
        self.callback_count != 0 && self.callback_samples != len
    }

    /// At the end of the utterance: a generator that handed over no blocks has only the
    /// complete waveform.
    pub open spec fn completed(self, complete: Seq<u32>) -> StreamState {
        if self.callback_count == 0 {
            StreamState {
                pending: self.pending + complete,
                callback_samples: complete.len(),
                callback_count: self.callback_count,
                queued_samples: self.queued_samples,
            }
        } else {
            self
        }
    }

    /// Where the last part to be queued begins.
    pub open spec fn final_start(self) -> int {
        if self.queued_samples == 0 {
            match leading_start(self.pending) {
                Some(start) => start,
                None => 0,
            }
        } else {
            0
        }
    }

    /// The last part before it is faded out.
    pub open spec fn final_audio(self) -> Seq<u32> {
        binary32::all_limited(self.pending.skip(self.final_start()))
    }

    /// The last buffer.
    pub open spec fn final_buffer(self, faded: Seq<u32>, silence_buf_len: nat) -> Seq<u32> {
        self.lead_in() + faded + silence(closing_len(silence_buf_len))
    }

    /// After the last buffer was queued.
    pub open spec fn finished(self, queued: bool) -> StreamState {
        StreamState {
            pending: Seq::empty(),
            callback_samples: self.callback_samples,
            callback_count: self.callback_count,
            queued_samples: if queued {
                self.queued_samples + (self.pending.len() - self.final_start()) as nat
            } else {
                self.queued_samples
            },
        }
    }
}

/// Why a complete waveform is refused.
pub open spec fn mismatch_message(received: nat, contained: nat) -> Seq<char> {
    "Pocket TTS callback contract mismatch: callbacks yielded "@ + text::decimal_of(received)
        + " samples, final audio contained "@ + text::decimal_of(contained)
}

/// Sustained audio is found only where a whole window fits.
proof fn lemma_first_sustained(samples: Seq<u32>, i: int)
    requires
        0 <= i,
    ensures
        first_sustained(samples, i) matches Some(j) ==> i <= j < samples.len() && j + 1 >= WINDOW,
    decreases samples.len() - i,
{
    if i < samples.len() && !sustained(samples, i) {
        lemma_first_sustained(samples, i + 1);
    }
}

/// Sustained audio begins a window or more before the end.
proof fn lemma_leading_start(samples: Seq<u32>)
    ensures
        leading_start(samples) matches Some(start) ==> 0 <= start && start + WINDOW
            <= samples.len(),
{
    lemma_first_sustained(samples, 0);
}

/// Finds where sustained audio begins, 50 ms of what comes before it kept.  A window
/// of 10 ms rejects isolated noise; the fixed threshold does not depend on how loud the
/// rest is.
#[verifier::rlimit(30)]
pub fn leading_audio_start(samples: &[u32]) -> (r: Option<usize>)
    ensures
        match leading_start(samples@) {
            Some(start) => r matches Some(s) && s == start,
            None => r is None,
        },
{
    let floor: u32 = binary32::product(THRESHOLD, THRESHOLD);
    let mut energy: u32 = 0;
    let mut index: usize = 0;
    while index < samples.len()
        invariant
            index <= samples@.len(),
            floor == binary32::product_of(THRESHOLD, THRESHOLD),
            energy == if index == 0 {
                0u32
            } else {
                window_energy(samples@, index - 1)
            },
            first_sustained(samples@, 0) == first_sustained(samples@, index as int),
        decreases samples@.len() - index,
    {
        let sample: u32 = samples[index];
        energy = binary32::sum(energy, binary32::product(sample, sample));
        if index >= WINDOW {
            let expired: u32 = samples[index - WINDOW];
            energy = binary32::difference(energy, binary32::product(expired, expired));
        }
        assert(energy == window_energy(samples@, index as int));
        if index >= WINDOW - 1 && binary32::is_at_least(
            binary32::quotient(energy, WINDOW_LENGTH),
            floor,
        ) {
            let begin: usize = index - (WINDOW - 1);
            return Some(begin.saturating_sub(RETAIN));
        }
        index = index + 1;
    }
    None
}

/// Samples limited to full scale.
pub fn clamp_to_full_scale(samples: &[u32]) -> (out: Vec<u32>)
    ensures
        out@ == binary32::all_limited(samples@),
{
    let mut out: Vec<u32> = Vec::new();
    append_limited(&mut out, samples);
    assert(out@ =~= binary32::all_limited(samples@));
    out
}

fn append_limited(out: &mut Vec<u32>, samples: &[u32])
    ensures
        final(out)@ == old(out)@ + binary32::all_limited(samples@),
{
    let ghost before = out@;
    let mut i: usize = 0;
    while i < samples.len()
        invariant
            i <= samples@.len(),
            out@ =~= before + binary32::all_limited(samples@.take(i as int)),
        decreases samples@.len() - i,
    {
        out.push(binary32::limit(samples[i]));
        i = i + 1;
    }
    assert(samples@.take(i as int) =~= samples@);
}

fn append_silence(out: &mut Vec<u32>, len: usize)
    ensures
        final(out)@ == old(out)@ + silence(len as nat),
{
    let ghost before = out@;
    let mut i: usize = 0;
    while i < len
        invariant
            i <= len,
            out@ =~= before + silence(i as nat),
        decreases len - i,
    {
        out.push(0);
        i = i + 1;
    }
}

/// A buffer that is ready to be queued, and the part of the pending samples it holds.
pub struct Emission {
    pub buffer: Vec<u32>,
    pub start: usize,
    pub end: usize,
}

/// Collects the blocks of one utterance and queues them for playback.
#[derive(Debug)]
pub struct PocketStreamAssembler {
    pub pending: Vec<u32>,
    pub callback_samples: usize,
    pub callback_count: usize,
    pub queued_samples: usize,
}

impl View for PocketStreamAssembler {
    type V = StreamState;

    open spec fn view(&self) -> StreamState {
        StreamState {
            pending: self.pending@,
            callback_samples: self.callback_samples as nat,
            callback_count: self.callback_count as nat,
            queued_samples: self.queued_samples as nat,
        }
    }
}

impl Default for PocketStreamAssembler {
    fn default() -> (r: Self)
        ensures
            r@ == fresh(),
            r@.wf(),
    {
        PocketStreamAssembler {
            pending: Vec::new(),
            callback_samples: 0,
            callback_count: 0,
            queued_samples: 0,
        }
    }
}

impl PocketStreamAssembler {
    /// Whether another `n` samples can be counted.
    pub open spec fn has_room(self, n: nat) -> bool {
        &&& self.callback_count < usize::MAX
        &&& self.callback_samples + n <= usize::MAX
        &&& self.queued_samples + self.pending@.len() + n <= usize::MAX
    }

    /// Takes in a block and says what can be queued now.
    pub fn receive(&mut self, samples: &[u32]) -> (r: Option<Emission>)
        requires
            old(self).has_room(samples@.len()),
        ensures
            samples@.len() == 0 ==> r is None && final(self)@ == old(self)@,
            samples@.len() > 0 ==> {
                &&& final(self)@ == old(self)@.received(samples@)
                &&& match final(self)@.emission() {
                    Some(part) => {
                        &&& r matches Some(e)
                        &&& (e.start as int, e.end as int) == part
                        &&& e.buffer@ == final(self)@.buffer(part)
                        &&& e.start < e.end <= final(self)@.pending.len()
                        &&& final(self).queued_samples + final(self)@.pending.len() <= usize::MAX
                    },
                    None => r is None,
                }
            },
    {
        if samples.len() == 0 {
            return None;
        }
        self.callback_count = self.callback_count + 1;
        self.callback_samples = self.callback_samples + samples.len();
        self.pending.extend_from_slice(samples);
        assert(self.pending@ =~= old(self).pending@ + samples@);
        let end: usize = self.pending.len().saturating_sub(STREAM_TAIL_SAMPLES);
        if end == 0 {
            return None;
        }
        let start: usize = if self.queued_samples == 0 {
            let head: &[u32] = vstd::slice::slice_subrange(self.pending.as_slice(), 0, end);
            assert(head@ =~= self.pending@.take(end as int));
            proof {
                lemma_leading_start(head@);
            }
            match leading_audio_start(head) {
                Some(start) => start,
                // Silence is not playback: it is kept until a later block brings audio.
                None => {
                    return None;
                },
            }
        } else {
            0
        };
        let mut buffer: Vec<u32> = Vec::new();
        if self.queued_samples == 0 {
            append_silence(&mut buffer, SENTENCE_LEAD_IN_SAMPLES);
        }
        append_limited(
            &mut buffer,
            vstd::slice::slice_subrange(self.pending.as_slice(), start, end),
        );
        assert(buffer@ =~= self@.buffer((start as int, end as int)));
        Some(Emission { buffer, start, end })
    }

    /// Takes note of how queueing a part of the pending samples went: a part that could
    /// not be queued stays pending.
    pub fn settle(&mut self, start: usize, end: usize, answer: Result<(), String>) -> (r: Result<
        (),
        String,
    >)
        requires
            start <= end <= old(self).pending@.len(),
            old(self).queued_samples + old(self).pending@.len() <= usize::MAX,
        ensures
            r == answer,
            final(self)@ == match answer {
                Ok(_) => old(self)@.emitted((start as int, end as int)),
                Err(_) => old(self)@,
            },
    {
        if answer.is_ok() {
            self.queued_samples = self.queued_samples + (end - start);
            let rest: Vec<u32> = self.pending.split_off(end);
            self.pending = rest;
            assert(self.pending@ =~= old(self).pending@.skip(end as int));
        }
        answer
    }

    /// Takes in a block and queues what can be queued.  Nothing is handed to `enqueue` but
    /// that one buffer, and where nothing can be queued it is not called.
    pub fn push<F>(&mut self, samples: &[u32], enqueue: F) -> (r: Result<(), String>) where
        F: FnOnce(Vec<u32>) -> Result<(), String>,

        requires
            old(self).has_room(samples@.len()),
            forall|buffer: Vec<u32>|
                samples@.len() > 0 && (old(self)@.received(samples@).emission() matches Some(part)
                    && buffer@ == old(self)@.received(samples@).buffer(part))
                    ==> #[trigger] call_requires(enqueue, (buffer,)),
        ensures
            samples@.len() == 0 ==> r is Ok && final(self)@ == old(self)@,
            samples@.len() > 0 ==> match old(self)@.received(samples@).emission() {
                None => r is Ok && final(self)@ == old(self)@.received(samples@),
                Some(part) => exists|buffer: Vec<u32>, answer: Result<(), String>|
                    {
                        &&& #[trigger] call_ensures(enqueue, (buffer,), answer)
                        &&& buffer@ == old(self)@.received(samples@).buffer(part)
                        &&& r == answer
                        &&& final(self)@ == match answer {
                            Ok(_) => old(self)@.received(samples@).emitted(part),
                            Err(_) => old(self)@.received(samples@),
                        }
                    },
            },
            old(self)@.wf() ==> final(self)@.wf(),
    {
        proof {
            if old(self)@.wf() && samples@.len() > 0 {
                law_blocks_keep_the_state_well_formed(old(self)@, samples@);
            }
        }
        match self.receive(samples) {
            None => Ok(()),
            Some(emission) => {
                let start: usize = emission.start;
                let end: usize = emission.end;
                let answer = enqueue(emission.buffer);
                self.settle(start, end, answer)
            },
        }
    }

    /// Takes in the complete waveform and hands out the last part, to be faded out.  A
    /// waveform that is not as long as the blocks together is refused.
    pub fn complete(&mut self, complete_samples: &[u32]) -> (r: Result<Vec<u32>, String>)
        requires
            old(self)@.callback_count == 0 ==> old(self).pending@.len() + complete_samples@.len()
                <= usize::MAX,
        ensures
            match r {
                Ok(audio) => {
                    &&& !old(self)@.mismatched(complete_samples@.len())
                    &&& final(self)@ == old(self)@.completed(complete_samples@)
                    &&& audio@ == final(self)@.final_audio()
                },
                Err(e) => {
                    &&& old(self)@.mismatched(complete_samples@.len())
                    &&& final(self)@ == old(self)@
                    &&& e@ == mismatch_message(
                        old(self)@.callback_samples,
                        complete_samples@.len(),
                    )
                },
            },
    {
        if self.callback_count == 0 {
            self.pending.extend_from_slice(complete_samples);
            self.callback_samples = complete_samples.len();
            assert(self.pending@ =~= old(self).pending@ + complete_samples@);
        } else if self.callback_samples != complete_samples.len() {
            let received: String = text::decimal(self.callback_samples as u64);
            let contained: String = text::decimal(complete_samples.len() as u64);
            let first: String = text::joined3(
                "Pocket TTS callback contract mismatch: callbacks yielded ",
                received.as_str(),
                " samples, final audio contained ",
            );
            return Err(text::joined(first.as_str(), contained.as_str()));
        }
        let start: usize = self.last_start();
        let tail: &[u32] = vstd::slice::slice_subrange(
            self.pending.as_slice(),
            start,
            self.pending.len(),
        );
        assert(tail@ =~= self.pending@.skip(start as int));
        Ok(clamp_to_full_scale(tail))
    }

    fn last_start(&self) -> (start: usize)
        ensures
            start == self@.final_start(),
            start <= self.pending@.len(),
    {
        if self.queued_samples == 0 {
            proof {
                lemma_leading_start(self.pending@);
            }
            match leading_audio_start(self.pending.as_slice()) {
                Some(start) => start,
                None => 0,
            }
        } else {
            0
        }
    }

    /// The last buffer, made of the faded last part; nothing where nothing is left.
    pub fn last_buffer(&self, faded: &[u32], silence_buf_len: usize) -> (r: Option<Vec<u32>>)
        ensures
            match r {
                Some(buffer) => {
                    &&& faded@.len() > 0
                    &&& buffer@ == self@.final_buffer(faded@, silence_buf_len as nat)
                },
                None => faded@.len() == 0,
            },
    {
        if faded.len() == 0 {
            return None;
        }
        let mut buffer: Vec<u32> = Vec::new();
        if self.queued_samples == 0 {
            append_silence(&mut buffer, SENTENCE_LEAD_IN_SAMPLES);
        }
        assert(buffer@ =~= self@.lead_in());
        buffer.extend_from_slice(faded);
        assert(buffer@ =~= self@.lead_in() + faded@);
        append_silence(&mut buffer, silence_buf_len.saturating_sub(SENTENCE_LEAD_IN_SAMPLES));
        Some(buffer)
    }

    /// Takes note of how queueing the last buffer went: `None` where there was none.
    pub fn conclude(&mut self, answer: Option<Result<(), String>>) -> (r: Result<(), String>)
        requires
            old(self).queued_samples + old(self).pending@.len() <= usize::MAX,
        ensures
            match answer {
                None => r is Ok && final(self)@ == old(self)@.finished(false),
                Some(result) => {
                    &&& r == result
                    &&& final(self)@ == match result {
                        Ok(_) => old(self)@.finished(true),
                        Err(_) => old(self)@,
                    }
                },
            },
    {
        let result: Result<(), String> = match answer {
            None => Ok(()),
            Some(result) => {
                if result.is_err() {
                    return result;
                }
                let start: usize = self.last_start();
                self.queued_samples = self.queued_samples + (self.pending.len() - start);
                result
            },
        };
        self.pending.clear();
        result
    }

    /// Queues what is left, faded out, or the complete waveform where no blocks were
    /// handed over.  Nothing is handed to `enqueue` but that one buffer, and where nothing
    /// is left or the waveform is refused it is not called.
    pub fn finish<G, F>(
        &mut self,
        complete_samples: &[u32],
        silence_buf_len: usize,
        fade_out: G,
        enqueue: F,
    ) -> (r: Result<(), String>) where
        G: FnOnce(Vec<u32>) -> Vec<u32>,
        F: FnOnce(Vec<u32>) -> Result<(), String>,

        requires
            old(self)@.callback_count == 0 ==> old(self).queued_samples + old(self).pending@.len()
                + complete_samples@.len() <= usize::MAX,
            old(self).queued_samples + old(self).pending@.len() <= usize::MAX,
            forall|audio: Vec<u32>|
                !old(self)@.mismatched(complete_samples@.len()) && audio@ == old(self)@.completed(
                    complete_samples@,
                ).final_audio() ==> #[trigger] call_requires(fade_out, (audio,)),
            forall|audio: Vec<u32>, faded: Vec<u32>, buffer: Vec<u32>|
                !old(self)@.mismatched(complete_samples@.len()) && #[trigger] call_ensures(
                    fade_out,
                    (audio,),
                    faded,
                ) && audio@ == old(self)@.completed(complete_samples@).final_audio() && faded@.len()
                    > 0 && buffer@ == old(self)@.completed(complete_samples@).final_buffer(
                    faded@,
                    silence_buf_len as nat,
                ) ==> #[trigger] call_requires(enqueue, (buffer,)),
        ensures
            old(self)@.mismatched(complete_samples@.len()) ==> {
                &&& r matches Err(e)
                &&& e@ == mismatch_message(old(self)@.callback_samples, complete_samples@.len())
                &&& final(self)@ == old(self)@
            },
            !old(self)@.mismatched(complete_samples@.len()) ==> {
                let ended = old(self)@.completed(complete_samples@);
                exists|audio: Vec<u32>, faded: Vec<u32>|
                    {
                        &&& #[trigger] call_ensures(fade_out, (audio,), faded)
                        &&& audio@ == ended.final_audio()
                        &&& faded@.len() == 0 ==> r is Ok && final(self)@ == ended.finished(false)
                        &&& faded@.len() > 0 ==> exists|
                            buffer: Vec<u32>,
                            answer: Result<(), String>,
                        |
                            {
                                &&& #[trigger] call_ensures(enqueue, (buffer,), answer)
                                &&& buffer@ == ended.final_buffer(faded@, silence_buf_len as nat)
                                &&& r == answer
                                &&& final(self)@ == match answer {
                                    Ok(_) => ended.finished(true),
                                    Err(_) => ended,
                                }
                            }
                    }
            },
    {
        let audio: Vec<u32> = match self.complete(complete_samples) {
            Ok(audio) => audio,
            Err(e) => {
                return Err(e);
            },
        };
        let ghost ended = self@;
        let ghost handed = audio;
        let faded: Vec<u32> = fade_out(audio);
        assert(call_ensures(fade_out, (handed,), faded));
        match self.last_buffer(faded.as_slice(), silence_buf_len) {
            None => self.conclude(None),
            Some(buffer) => {
                let ghost queued = buffer;
                let answer = enqueue(buffer);
                assert(call_ensures(enqueue, (queued,), answer));
                let r = self.conclude(Some(answer));
                assert(queued@ == ended.final_buffer(faded@, silence_buf_len as nat));
                r
            },
        }
    }
}

/// All blocks, one after another.
pub open spec fn all_samples(blocks: Seq<Seq<u32>>) -> Seq<u32>
    decreases blocks.len(),
{
    if blocks.len() == 0 {
        Seq::empty()
    } else {
        all_samples(blocks.drop_last()) + blocks.last()
    }
}

/// What pushing a block does while every buffer can be queued: the state after it, and
/// everything queued so far.
pub open spec fn pushed(state: StreamState, queued: Seq<u32>, block: Seq<u32>) -> (
    StreamState,
    Seq<u32>,
) {
    if block.len() == 0 {
        (state, queued)
    } else {
        let now = state.received(block);
        match now.emission() {
            None => (now, queued),
            Some(part) => (now.emitted(part), queued + now.buffer(part)),
        }
    }
}

/// What pushing blocks one after another does.
pub open spec fn streamed(blocks: Seq<Seq<u32>>) -> (StreamState, Seq<u32>)
    decreases blocks.len(),
{
    if blocks.len() == 0 {
        (fresh(), Seq::empty())
    } else {
        let (state, queued) = streamed(blocks.drop_last());
        pushed(state, queued, blocks.last())
    }
}

/// How a state and what was queued relate to the samples received: nothing is queued
/// and all of it is pending; or what is queued is a lead-in and the samples from `start`,
/// where audio begins, in order and limited to full scale, and what is pending is the
/// retained suffix behind them.
pub open spec fn in_order(state: StreamState, queued: Seq<u32>, total: Seq<u32>, start: int) -> bool {
    let cut = total.len() - state.pending.len();
    &&& state.callback_samples == total.len()
    &&& 0 <= start <= cut
    &&& state.queued_samples == cut - start
    &&& state.pending == total.skip(cut)
    &&& if state.queued_samples == 0 {
        &&& cut == 0
        &&& queued.len() == 0
    } else {
        &&& leading_start(total) == Some(start)
        &&& state.pending.len() == STREAM_TAIL_SAMPLES
        &&& queued == silence(SENTENCE_LEAD_IN_SAMPLES as nat) + binary32::all_limited(
            total.subrange(start, cut),
        )
    }
}

/// Limiting samples to full scale goes sample by sample.
proof fn lemma_limited_parts(a: Seq<u32>, b: Seq<u32>)
    ensures
        binary32::all_limited(a + b) == binary32::all_limited(a) + binary32::all_limited(b),
{
    assert(binary32::all_limited(a + b) =~= binary32::all_limited(a) + binary32::all_limited(b));
}

/// The energy of a window does not depend on what follows it.
proof fn lemma_window_energy_of_prefix(head: Seq<u32>, rest: Seq<u32>, i: int)
    requires
        0 <= i < head.len(),
    ensures
        window_energy(head + rest, i) == window_energy(head, i),
    decreases i,
{
    if i > 0 {
        lemma_window_energy_of_prefix(head, rest, i - 1);
    }
}

/// Neither does the place where audio is found first.
proof fn lemma_first_sustained_of_prefix(head: Seq<u32>, rest: Seq<u32>, i: int)
    requires
        0 <= i,
        first_sustained(head, i) is Some,
    ensures
        first_sustained(head + rest, i) == first_sustained(head, i),
    decreases head.len() - i,
{
    lemma_window_energy_of_prefix(head, rest, i);
    if !sustained(head, i) {
        lemma_first_sustained_of_prefix(head, rest, i + 1);
    }
}

/// Once audio is found, what follows it, however loud, does not move its beginning: quiet
/// speech before a loud segment is not cut.
pub proof fn law_onset_ignores_what_follows(head: Seq<u32>, rest: Seq<u32>)
    requires
        leading_start(head) is Some,
    ensures
        leading_start(head + rest) == leading_start(head),
{
    lemma_first_sustained_of_prefix(head, rest, 0);
}

/// One more block keeps the order.
proof fn lemma_pushed_in_order(
    state: StreamState,
    queued: Seq<u32>,
    total: Seq<u32>,
    start: int,
    block: Seq<u32>,
) -> (next: int)
    requires
        in_order(state, queued, total, start),
    ensures
        in_order(
            pushed(state, queued, block).0,
            pushed(state, queued, block).1,
            total + block,
            next,
        ),
{
    let more = total + block;
    if block.len() == 0 {
        assert(more =~= total);
        start
    } else {
        let now = state.received(block);
        let cut = total.len() - state.pending.len();
        assert(now.pending =~= more.skip(cut));
        match now.emission() {
            None => {
                assert(state.queued_samples == 0);
                assert(more.subrange(start, cut) =~= total.subrange(start, cut));
                start
            },
            Some(part) => {
                let after = now.emitted(part);
                let end = part.1;
                lemma_leading_start(now.pending.take(end));
                let first = if state.queued_samples == 0 {
                    part.0
                } else {
                    start
                };
                assert(after.pending =~= more.skip(cut + end));
                if state.queued_samples == 0 {
                    let head = now.pending.take(end);
                    law_onset_ignores_what_follows(head, after.pending);
                    assert(head + after.pending =~= more);
                    assert(now.pending.subrange(part.0, end) =~= more.subrange(part.0, end));
                    assert(queued + now.buffer(part) =~= silence(SENTENCE_LEAD_IN_SAMPLES as nat)
                        + binary32::all_limited(more.subrange(part.0, end)));
                } else {
                    law_onset_ignores_what_follows(total, block);
                    let old_part = total.subrange(start, cut);
                    let new_part = now.pending.subrange(0, end);
                    assert(old_part + new_part =~= more.subrange(start, cut + end));
                    lemma_limited_parts(old_part, new_part);
                    assert(queued + now.buffer(part) =~= silence(SENTENCE_LEAD_IN_SAMPLES as nat)
                        + binary32::all_limited(more.subrange(start, cut + end)));
                }
                first
            },
        }
    }
}

/// Blocks are queued in the order in which they came: what is queued is one lead-in,
/// then the received samples from where audio begins, each once and limited to full
/// scale; what is not queued yet is exactly what follows, and once playback has begun it
/// is the retained suffix.
pub proof fn law_blocks_are_queued_in_order(blocks: Seq<Seq<u32>>) -> (start: int)
    ensures
        in_order(streamed(blocks).0, streamed(blocks).1, all_samples(blocks), start),
        streamed(blocks).0.wf(),
        streamed(blocks).0.callback_count == 0 ==> all_samples(blocks).len() == 0,
    decreases blocks.len(),
{
    if blocks.len() == 0 {
        assert(all_samples(blocks).skip(0) =~= fresh().pending);
        0
    } else {
        let init = blocks.drop_last();
        let before = law_blocks_are_queued_in_order(init);
        let (state, queued) = streamed(init);
        lemma_pushed_in_order(state, queued, all_samples(init), before, blocks.last())
    }
}

/// Where an utterance begins to be played: where audio begins in it, or at its very
/// beginning where none is found.
pub open spec fn utterance_start(speech: Seq<u32>) -> int {
    match leading_start(speech) {
        Some(start) => start,
        None => 0,
    }
}

/// An utterance whose buffers could all be queued is played whole: one lead-in, then the
/// speech from its start on in order, the part from `cut` on in its faded form, then the
/// closing silence.  The speech is what the blocks held, or the complete waveform where
/// there were none, and the samples counted as queued are those from the start on.
pub proof fn law_utterance_is_played_whole(
    blocks: Seq<Seq<u32>>,
    complete: Seq<u32>,
    faded: Seq<u32>,
    silence_buf_len: nat,
) -> (cut: int)
    requires
        !streamed(blocks).0.mismatched(complete.len()),
        faded.len() > 0,
    ensures
        ({
            let (state, queued) = streamed(blocks);
            let ended = state.completed(complete);
            let speech = if state.callback_count == 0 {
                complete
            } else {
                all_samples(blocks)
            };
            let start = utterance_start(speech);
            &&& 0 <= start <= cut <= speech.len()
            &&& speech.len() == complete.len()
            &&& cut == start || cut == speech.len() - STREAM_TAIL_SAMPLES
            &&& ended.final_audio() == binary32::all_limited(speech.skip(cut))
            &&& queued + ended.final_buffer(faded, silence_buf_len) == silence(
                SENTENCE_LEAD_IN_SAMPLES as nat,
            ) + binary32::all_limited(speech.subrange(start, cut)) + faded + silence(
                closing_len(silence_buf_len),
            )
            &&& ended.finished(true).queued_samples == speech.len() - start
        }),
{
    let first = law_blocks_are_queued_in_order(blocks);
    let (state, queued) = streamed(blocks);
    let total = all_samples(blocks);
    let ended = state.completed(complete);
    let speech = if state.callback_count == 0 {
        complete
    } else {
        total
    };
    let lead = silence(SENTENCE_LEAD_IN_SAMPLES as nat);
    let closing = silence(closing_len(silence_buf_len));
    if state.queued_samples == 0 {
        let start = ended.final_start();
        assert(ended.pending =~= speech);
        lemma_leading_start(speech);
        assert(binary32::all_limited(speech.subrange(start, start)) =~= Seq::empty());
        assert(queued + ended.final_buffer(faded, silence_buf_len) =~= lead
            + binary32::all_limited(speech.subrange(start, start)) + faded + closing);
        start
    } else {
        let cut = total.len() - state.pending.len();
        assert(ended.pending.skip(0) =~= speech.skip(cut));
        assert(ended.lead_in() =~= Seq::empty());
        assert(queued + ended.final_buffer(faded, silence_buf_len) =~= lead
            + binary32::all_limited(speech.subrange(first, cut)) + faded + closing);
        cut
    }
}

/// Whether a fade changes nothing but the last samples of an utterance.
pub open spec fn fades_the_end(fade: spec_fn(Seq<u32>) -> Seq<u32>) -> bool {
    &&& forall|a: Seq<u32>| (#[trigger] fade(a)).len() == a.len()
    &&& forall|a: Seq<u32>, b: Seq<u32>|
        b.len() >= FADE_OUT_SAMPLES ==> #[trigger] fade(a + b) == a + fade(b)
}

/// All that is played of an utterance whose buffers could all be queued, and how many of
/// its samples are counted as queued.
pub open spec fn played(
    blocks: Seq<Seq<u32>>,
    complete: Seq<u32>,
    fade: spec_fn(Seq<u32>) -> Seq<u32>,
    silence_buf_len: nat,
) -> (Seq<u32>, nat) {
    let (state, queued) = streamed(blocks);
    let ended = state.completed(complete);
    let faded = fade(ended.final_audio());
    if faded.len() > 0 {
        (
            queued + ended.final_buffer(faded, silence_buf_len),
            ended.finished(true).queued_samples,
        )
    } else {
        (queued, ended.finished(false).queued_samples)
    }
}

/// What is played of an utterance does not depend on the blocks in which it came: it is
/// one lead-in, the speech from its start on with its end faded once, and one closing
/// silence, however the speech was split, and also where it came only as a whole.
pub proof fn law_blocks_do_not_change_what_is_played(
    blocks: Seq<Seq<u32>>,
    complete: Seq<u32>,
    fade: spec_fn(Seq<u32>) -> Seq<u32>,
    silence_buf_len: nat,
)
    requires
        complete.len() > 0,
        all_samples(blocks) == complete || all_samples(blocks).len() == 0,
        fades_the_end(fade),
    ensures
        played(blocks, complete, fade, silence_buf_len) == (
            silence(SENTENCE_LEAD_IN_SAMPLES as nat) + fade(
                binary32::all_limited(complete.skip(utterance_start(complete))),
            ) + silence(closing_len(silence_buf_len)),
            (complete.len() - utterance_start(complete)) as nat,
        ),
        played(blocks, complete, fade, silence_buf_len) == played(
            Seq::empty(),
            complete,
            fade,
            silence_buf_len,
        ),
{
    lemma_played(blocks, complete, fade, silence_buf_len);
    assert(all_samples(Seq::<Seq<u32>>::empty()) =~= Seq::empty());
    lemma_played(Seq::empty(), complete, fade, silence_buf_len);
}

/// What is played, from the whole utterance.
proof fn lemma_played(
    blocks: Seq<Seq<u32>>,
    complete: Seq<u32>,
    fade: spec_fn(Seq<u32>) -> Seq<u32>,
    silence_buf_len: nat,
)
    requires
        complete.len() > 0,
        all_samples(blocks) == complete || all_samples(blocks).len() == 0,
        fades_the_end(fade),
    ensures
        played(blocks, complete, fade, silence_buf_len) == (
            silence(SENTENCE_LEAD_IN_SAMPLES as nat) + fade(
                binary32::all_limited(complete.skip(utterance_start(complete))),
            ) + silence(closing_len(silence_buf_len)),
            (complete.len() - utterance_start(complete)) as nat,
        ),
{
    let first = law_blocks_are_queued_in_order(blocks);
    let (state, queued) = streamed(blocks);
    let ended = state.completed(complete);
    let faded = fade(ended.final_audio());
    let start = utterance_start(complete);
    lemma_leading_start(complete);
    lemma_blocks_are_counted(blocks);
    if state.callback_count == 0 {
        assert(state.pending =~= Seq::empty());
        assert(ended.pending =~= complete);
    } else {
        assert(all_samples(blocks).len() > 0);
        if state.queued_samples == 0 {
            assert(ended.pending =~= complete);
        }
    }
    if state.queued_samples == 0 {
        assert(faded.len() > 0);
        assert(queued =~= Seq::empty());
    } else {
        assert(all_samples(blocks) == complete);
    }
    let cut = law_utterance_is_played_whole(blocks, complete, faded, silence_buf_len);
    let kept = complete.subrange(start, cut);
    let tail = complete.skip(cut);
    assert(kept + tail =~= complete.skip(start));
    lemma_limited_parts(kept, tail);
    let a = binary32::all_limited(kept);
    let b = binary32::all_limited(tail);
    let lead = silence(SENTENCE_LEAD_IN_SAMPLES as nat);
    let closing = silence(closing_len(silence_buf_len));
    if cut == start {
        assert(a =~= Seq::empty());
        assert(a + b =~= b);
        assert(lead + a + faded + closing =~= lead + faded + closing);
    } else {
        assert(fade(a + b) == a + fade(b));
        assert(lead + a + faded + closing =~= lead + (a + faded) + closing);
    }
}

/// A block is counted exactly where it holds samples.
proof fn lemma_blocks_are_counted(blocks: Seq<Seq<u32>>)
    ensures
        streamed(blocks).0.callback_count == 0 <==> all_samples(blocks).len() == 0,
    decreases blocks.len(),
{
    if blocks.len() > 0 {
        lemma_blocks_are_counted(blocks.drop_last());
    }
}

/// The tail is not played twice: finishing an utterance that came in blocks once more
/// finds nothing to fade and changes nothing.
pub proof fn law_finishing_again_queues_nothing(
    state: StreamState,
    queued: bool,
    complete: Seq<u32>,
)
    requires
        state.callback_count > 0,
    ensures
        ({
            let done = state.finished(queued);
            &&& done.mismatched(complete.len()) == state.mismatched(complete.len())
            &&& done.completed(complete).final_audio() == Seq::<u32>::empty()
            &&& done.completed(complete).finished(false) == done
        }),
{
    let done = state.finished(queued);
    assert(first_sustained(done.pending, 0) is None);
    assert(done.completed(complete).final_audio() =~= Seq::empty());
}

/// Silence has no energy.
proof fn lemma_silent_window(samples: Seq<u32>, i: int)
    requires
        0 <= i < samples.len(),
        forall|j: int| 0 <= j < samples.len() ==> binary32::zero(#[trigger] samples[j]),
    ensures
        window_energy(samples, i) == 0,
    decreases i,
{
    if i > 0 {
        lemma_silent_window(samples, i - 1);
    }
    let one = binary32::one_units();
    lemma_pow2_pos(149);
    rounding::lemma_nearest_on_grid(0, one);
    rounding::lemma_nearest_on_grid(0, 1);
    assert(0 * one == 0 && 0 * 0 == 0) by (nonlinear_arith);
    assert(binary32::product_of(samples[i], samples[i]) == 0);
    if i >= WINDOW {
        let expired = samples[i - WINDOW];
        assert(binary32::product_of(expired, expired) == 0);
    }
}

/// The least energy that counts as audio is not zero.
proof fn lemma_threshold_is_positive()
    ensures
        !binary32::at_least(0, binary32::product_of(THRESHOLD, THRESHOLD)),
{
    let one = binary32::one_units();
    let u = binary32::absolute_units(THRESHOLD);
    lemma2_to64();
    lemma_pow2_pos(149);
    assert(u == 0x83_126f * pow2(117));
    lemma_pow2_adds(117, 117);
    lemma_pow2_adds(149, 85);
    lemma_pow2_pos(85);
    assert(1 * one <= u * u) by (nonlinear_arith)
        requires
            u == 0x83_126f * pow2(117),
            pow2(117) * pow2(117) == one * pow2(85),
            pow2(85) >= 1,
            one > 0,
    {
        assert(u * u == (0x83_126f * 0x83_126f) * (one * pow2(85)));
        assert(one * pow2(85) >= one);
    }
    rounding::lemma_nearest_on_grid(1, one);
    rounding::lemma_nearest_is_monotone(1 * one, u * u, one);
}

/// Silence is not queued ahead of speech: in silent samples no audio is found.
pub proof fn law_silence_holds_no_onset(samples: Seq<u32>)
    requires
        forall|j: int| 0 <= j < samples.len() ==> binary32::zero(#[trigger] samples[j]),
    ensures
        leading_start(samples) is None,
{
    lemma_silence_is_not_sustained(samples, 0);
}

/// No window of silence holds sustained audio.
proof fn lemma_silence_is_not_sustained(samples: Seq<u32>, i: int)
    requires
        0 <= i,
        forall|j: int| 0 <= j < samples.len() ==> binary32::zero(#[trigger] samples[j]),
    ensures
        first_sustained(samples, i) is None,
    decreases samples.len() - i,
{
    if i < samples.len() {
        lemma_silent_window(samples, i);
        lemma_threshold_is_positive();
        let window = binary32::absolute_units(WINDOW_LENGTH);
        assert(window > 0) by {
            lemma2_to64();
            lemma_pow2_pos(133);
            assert(window == 0xf0_0000 * pow2(133));
        }
        assert(0 * binary32::one_units() == 0) by (nonlinear_arith);
        rounding::lemma_nearest_on_grid(0, window);
        assert(0 * window == 0) by (nonlinear_arith);
        lemma_silence_is_not_sustained(samples, i + 1);
    }
}

/// Taking in a block and queueing what can be queued keep the state well-formed, whether
/// or not the buffer could be queued.
pub proof fn law_blocks_keep_the_state_well_formed(state: StreamState, block: Seq<u32>)
    requires
        state.wf(),
        block.len() > 0,
    ensures
        state.received(block).wf(),
        state.received(block).emission() matches Some(part) ==> {
            &&& 0 <= part.0 < part.1 <= state.received(block).pending.len()
            &&& state.received(block).emitted(part).wf()
            &&& state.received(block).emitted(part).queued_samples > 0
        },
{
    let now = state.received(block);
    if let Some(part) = now.emission() {
        lemma_leading_start(now.pending.take(part.1));
    }
}

/// The search finds the first window that is loud enough, from `i` on.
proof fn lemma_search(samples: Seq<u32>, i: int)
    requires
        0 <= i,
    ensures
        match first_sustained(samples, i) {
            Some(k) => {
                &&& i <= k < samples.len()
                &&& sustained(samples, k)
                &&& forall|j: int| i <= j < k ==> !#[trigger] sustained(samples, j)
            },
            None => forall|j: int| i <= j < samples.len() ==> !#[trigger] sustained(samples, j),
        },
    decreases samples.len() - i,
{
    if i < samples.len() && !sustained(samples, i) {
        lemma_search(samples, i + 1);
    }
}

/// Audio is found wherever it stands: at the first sample, however far into the
/// recording, with which the mean energy of the last 240 samples reaches the square of
/// 0.002.  It then begins 1440 samples back, or at the very beginning.
pub proof fn law_audio_is_found_wherever_it_stands(samples: Seq<u32>, i: int)
    requires
        239 <= i < samples.len(),
        binary32::at_least(
            binary32::quotient_of(window_energy(samples, i), 0x4370_0000),
            binary32::product_of(0x3b03_126f, 0x3b03_126f),
        ),
        forall|j: int|
            239 <= j < i ==> !binary32::at_least(
                binary32::quotient_of(#[trigger] window_energy(samples, j), 0x4370_0000),
                binary32::product_of(0x3b03_126f, 0x3b03_126f),
            ),
    ensures
        leading_start(samples) == Some(
            if i >= 1_439 {
                i - 1_439
            } else {
                0
            },
        ),
{
    lemma_search(samples, 0);
    assert(sustained(samples, i));
    match first_sustained(samples, 0) {
        Some(k) => {
            assert(sustained(samples, k));
            if k < i {
                assert(window_energy(samples, k) == window_energy(samples, k));
            }
        },
        None => {},
    }
}

/// Nothing is found exactly where no 240 samples have the mean energy of audio.
pub proof fn law_nothing_is_found_only_in_quiet(samples: Seq<u32>)
    ensures
        leading_start(samples) is None <==> forall|j: int|
            239 <= j < samples.len() ==> !binary32::at_least(
                binary32::quotient_of(#[trigger] window_energy(samples, j), 0x4370_0000),
                binary32::product_of(0x3b03_126f, 0x3b03_126f),
            ),
{
    lemma_search(samples, 0);
    if leading_start(samples) is None {
        assert forall|j: int| 239 <= j < samples.len() implies !binary32::at_least(
            binary32::quotient_of(#[trigger] window_energy(samples, j), 0x4370_0000),
            binary32::product_of(0x3b03_126f, 0x3b03_126f),
        ) by {
            assert(!sustained(samples, j));
        }
    } else {
        let k = first_sustained(samples, 0)->Some_0;
        assert(sustained(samples, k));
        assert(window_energy(samples, k) == window_energy(samples, k));
    }
}

/// The energy of a window takes in the square of every sample when it comes, and gives it
/// up 240 samples later.
pub proof fn law_window_takes_in_and_gives_up_each_sample(samples: Seq<u32>, i: int)
    requires
        0 <= i < samples.len(),
    ensures
        ({
            let before = if i == 0 {
                0u32
            } else {
                window_energy(samples, i - 1)
            };
            let taken = binary32::sum_of(before, binary32::product_of(samples[i], samples[i]));
            window_energy(samples, i) == if i < 240 {
                taken
            } else {
                binary32::difference_of(
                    taken,
                    binary32::product_of(samples[i - 240], samples[i - 240]),
                )
            }
        }),
{
}

/// Giving up a silent sample changes nothing.
proof fn lemma_silent_sample_is_given_up(energy: u32, expired: u32)
    requires
        !binary32::negative(energy),
        binary32::finite(energy),
        binary32::zero(expired),
    ensures
        binary32::difference_of(energy, binary32::product_of(expired, expired)) == energy,
{
    let one = binary32::one_units();
    lemma_pow2_pos(149);
    rounding::lemma_nearest_on_grid(0, one);
    rounding::lemma_nearest_on_grid(binary32::magnitude(energy) as nat, 1);
    assert(0 * one == 0 && 0 * 0 == 0) by (nonlinear_arith);
    assert(binary32::product_of(expired, expired) == 0);
    let u = binary32::absolute_units(energy);
    assert(binary32::signed_units(binary32::SIGN) == 0);
    assert(u * 1 == u);
    if u == 0 {
        lemma_zero_units(energy);
    }
}

/// Only zero stands for no units.
proof fn lemma_zero_units(x: u32)
    requires
        binary32::finite(x),
        binary32::absolute_units(x) == 0,
    ensures
        binary32::magnitude(x) == 0,
{
    rounding::lemma_nearest_on_grid(binary32::magnitude(x) as nat, 1);
    rounding::lemma_nearest_on_grid(0, 1);
}

/// The square of a sample of 0.0021 or more.
proof fn lemma_audible_square(x: u32) -> (s: nat)
    requires
        binary32::magnitude(x) <= binary32::ONE,
        10_000 * binary32::absolute_units(x) >= 21 * binary32::one_units(),
    ensures
        ({
            let square = binary32::product_of(x, x);
            &&& !binary32::negative(square)
            &&& binary32::finite(square)
            &&& s == binary32::absolute_units(square)
            &&& s <= binary32::one_units()
            &&& 100_000_000 * s >= 440 * binary32::one_units()
        }),
{
    let one = binary32::one_units();
    let u = binary32::absolute_units(x);
    let square = binary32::product_of(x, x);
    fidelity::lemma_one();
    rounding::lemma_units_are_monotone(binary32::magnitude(x) as nat, binary32::ONE as nat);
    let n = u * u;
    assert(n <= one * one && 100_000_000 * n >= 441 * (one * one)) by (nonlinear_arith)
        requires
            n == u * u,
            u <= one,
            10_000 * u >= 21 * one,
    {
        assert((10_000 * u) * (10_000 * u) >= (21 * one) * (21 * one));
    }
    rounding::lemma_nearest_is_monotone(n, one * one, one);
    rounding::lemma_nearest_on_grid(binary32::ONE as nat, one);
    assert(binary32::magnitude(square) == rounding::nearest(n, one));
    rounding::lemma_units_are_monotone(binary32::magnitude(square) as nat, binary32::ONE as nat);
    rounding::lemma_nearest_is_close(n, one);
    let s = binary32::absolute_units(square);
    lemma2_to64();
    lemma_pow2_strictly_increases(64, 149);
    lemma2_to64_rest();
    assert(100_000_000 * s >= 440 * one) by (nonlinear_arith)
        requires
            100_000_000 * n >= 441 * (one * one),
            0x100_0000 * n <= 0x100_0000 * (s * one) + s * one + 0x80_0000 * one,
            s <= one,
            one >= 0x1_0000_0000_0000_0000,
    {
        assert(s * one <= one * one);
        assert(0x80_0000 * one * 0x1_0000_0000 <= one * one);
        assert((100_000_000 * s) * one >= (440 * one) * one);
    }
    s
}

/// The energy while the window fills with audio, behind any stretch of silence.
proof fn lemma_energy_of_onset(samples: Seq<u32>, n: int, k: int) -> (e: nat)
    requires
        0 <= n,
        0 <= k < 240,
        n + 240 <= samples.len(),
        forall|j: int| 0 <= j < n ==> binary32::zero(#[trigger] samples[j]),
        forall|j: int|
            n <= j < n + 240 ==> binary32::magnitude(#[trigger] samples[j]) <= binary32::ONE
                && 10_000 * binary32::absolute_units(samples[j]) >= 21 * binary32::one_units(),
    ensures
        ({
            let energy = window_energy(samples, n + k);
            let one = binary32::one_units();
            &&& !binary32::negative(energy)
            &&& binary32::finite(energy)
            &&& e == binary32::absolute_units(energy)
            &&& e <= (k + 1) * one
            &&& 100_000_000 * (0x100_0000 * e) + 440 * ((k + 1) * one) * (k + 1) >= 440 * ((k + 1)
                * one) * 0x100_0000
        }),
    decreases k,
{
    let one = binary32::one_units();
    let i = n + k;
    let x = samples[i];
    let s = lemma_audible_square(x);
    let square = binary32::product_of(x, x);
    let before = if i == 0 {
        0u32
    } else {
        window_energy(samples, i - 1)
    };
    let old: nat = if k > 0 {
        lemma_energy_of_onset(samples, n, k - 1)
    } else {
        if n > 0 {
            let head = samples.take(n);
            lemma_silent_window(head, n - 1);
            lemma_window_energy_of_prefix(head, samples.skip(n), n - 1);
            assert(head + samples.skip(n) =~= samples);
        }
        0
    };
    assert(old <= k * one) by (nonlinear_arith)
        requires
            old <= k * one || old == 0,
            k >= 0,
    ;
    assert(binary32::absolute_units(before) == old);
    let after = fidelity::lemma_energy_step(before, square, k as nat);
    let taken = binary32::sum_of(before, square);
    if i >= 240 {
        lemma_silent_sample_is_given_up(taken, samples[i - 240]);
    }
    law_window_takes_in_and_gives_up_each_sample(samples, i);
    lemma_onset_numbers(old, s, after, one, k as nat);
    after
}

/// One more sample of audio, in numbers.
proof fn lemma_onset_numbers(old: nat, s: nat, after: nat, one: nat, k: nat)
    by (nonlinear_arith)
    requires
        k < 240,
        old <= after,
        after <= (k + 1) * one,
        100_000_000 * s >= 440 * one,
        0x100_0000 * (old + s) <= 0x100_0000 * after + after,
        k == 0 || 100_000_000 * (0x100_0000 * old) + 440 * (k * one) * k >= 440 * (k * one)
            * 0x100_0000,
    ensures
        100_000_000 * (0x100_0000 * after) + 440 * ((k + 1) * one) * (k + 1) >= 440 * ((k + 1)
            * one) * 0x100_0000,
{
}

/// The number 240 in units.
proof fn lemma_window_units()
    ensures
        binary32::absolute_units(0x4370_0000) == 240 * binary32::one_units(),
{
    let p = pow2(133);
    lemma2_to64();
    lemma_pow2_adds(16, 133);
    assert(binary32::absolute_units(0x4370_0000) == 0xf0_0000 * p);
    assert(0x1_0000 * p == binary32::one_units());
}

/// A filled window of audio is loud enough.
proof fn lemma_full_window_is_sustained(energy: u32, e: nat)
    requires
        !binary32::negative(energy),
        binary32::finite(energy),
        e == binary32::absolute_units(energy),
        e <= 240 * binary32::one_units(),
        100_000_000 * (0x100_0000 * e) + 440 * (240 * binary32::one_units()) * 240 >= 440 * (240
            * binary32::one_units()) * 0x100_0000,
    ensures
        binary32::at_least(
            binary32::quotient_of(energy, 0x4370_0000),
            binary32::product_of(0x3b03_126f, 0x3b03_126f),
        ),
{
    let one = binary32::one_units();
    fidelity::lemma_one();
    lemma2_to64();
    lemma_pow2_strictly_increases(64, 149);
    lemma2_to64_rest();
    // The threshold.
    let t = binary32::absolute_units(0x3b03_126f);
    lemma_pow2_adds(32, 117);
    lemma_pow2_pos(117);
    let q = pow2(117);
    assert(t == 0x83_126f * q);
    assert(one == 0x1_0000_0000 * q);
    let tt = t * t;
    assert(tt <= one * one && 10_000_000 * tt <= 41 * (one * one)) by (nonlinear_arith)
        requires
            tt == t * t,
            t == 0x83_126f * q,
            one == 0x1_0000_0000 * q,
    {
        assert(tt == (0x83_126f * 0x83_126f) * (q * q));
        assert(one * one == (0x1_0000_0000 * 0x1_0000_0000) * (q * q));
    }
    rounding::lemma_nearest_is_monotone(tt, one * one, one);
    rounding::lemma_nearest_on_grid(binary32::ONE as nat, one);
    let floor = binary32::product_of(0x3b03_126f, 0x3b03_126f);
    assert(binary32::magnitude(floor) == rounding::nearest(tt, one));
    rounding::lemma_nearest_is_close(tt, one);
    rounding::lemma_units_are_monotone(binary32::magnitude(floor) as nat, binary32::ONE as nat);
    let f = binary32::absolute_units(floor);
    assert(1_000_000 * f <= 42 * one / 10) by (nonlinear_arith)
        requires
            10_000_000 * tt <= 41 * (one * one),
            0x100_0000 * (f * one) <= 0x100_0000 * tt + f * one + 0x80_0000 * one,
            f <= one,
            one >= 0x1_0000_0000_0000_0000,
    {
        assert(f * one <= one * one);
        assert(0x80_0000 * one * 0x1_0000_0000 <= one * one);
        assert((10_000_000 * f) * one <= (42 * one) * one);
    }
    // The mean.
    let d = binary32::absolute_units(0x4370_0000);
    lemma_window_units();
    assert(e * one <= one * d) by (nonlinear_arith)
        requires
            e <= d,
    ;
    rounding::lemma_nearest_is_monotone(e * one, one * d, d);
    rounding::lemma_nearest_on_grid(binary32::ONE as nat, d);
    let mean = binary32::quotient_of(energy, 0x4370_0000);
    assert(binary32::magnitude(mean) == rounding::nearest(e * one, d));
    rounding::lemma_nearest_is_close(e * one, d);
    rounding::lemma_units_are_monotone(binary32::magnitude(mean) as nat, binary32::ONE as nat);
    let m = binary32::absolute_units(mean);
    assert(1_000_000 * m > 42 * one / 10) by (nonlinear_arith)
        requires
            d == 240 * one,
            m <= one,
            0x100_0000 * (e * one) <= 0x100_0000 * (m * d) + m * d + 0x80_0000 * d,
            100_000_000 * (0x100_0000 * e) + 440 * (240 * one) * 240 >= 440 * (240 * one)
                * 0x100_0000,
            one >= 0x1_0000_0000_0000_0000,
    {
        assert((0x100_0000 * e) * one <= (0x100_0000 * (240 * m) + 240 * m + 0x80_0000 * 240)
            * one);
        assert(0x100_0000 * e <= 0x100_0000 * (240 * m) + 240 * m + 0x80_0000 * 240);
    }
    if binary32::magnitude(mean) < binary32::magnitude(floor) {
        rounding::lemma_units_are_monotone(
            binary32::magnitude(mean) as nat,
            binary32::magnitude(floor) as nat,
        );
    }
}

/// Speech behind silence is played from its very beginning, and of the silence no more
/// than 1439 samples: however long the silence is, 240 samples of 0.0021 or more that
/// follow it are found, and nothing of them is cut.
pub proof fn law_speech_behind_silence_is_not_cut(samples: Seq<u32>, n: int)
    requires
        0 <= n,
        n + 240 <= samples.len(),
        forall|j: int| 0 <= j < n ==> binary32::zero(#[trigger] samples[j]),
        forall|j: int|
            n <= j < n + 240 ==> binary32::magnitude(#[trigger] samples[j]) <= binary32::ONE
                && 10_000 * binary32::absolute_units(samples[j]) >= 21 * binary32::one_units(),
    ensures
        leading_start(samples) matches Some(start) && 0 <= start <= n <= start + 1_439,
{
    let e = lemma_energy_of_onset(samples, n, 239);
    lemma_full_window_is_sustained(window_energy(samples, n + 239), e);
    assert(sustained(samples, n + 239));
    lemma_search(samples, 0);
    let k = first_sustained(samples, 0)->Some_0;
    if k < n {
        let head = samples.take(n);
        lemma_window_energy_of_prefix(head, samples.skip(n), k);
        assert(head + samples.skip(n) =~= samples);
        lemma_silence_is_not_sustained(head, k);
        assert(sustained(head, k));
    }
}

/// Playback begins with the block that brings audio in front of the last 480 samples, and
/// not before: something is queued exactly where audio is found there.
pub proof fn law_playback_begins_once_audio_is_received(blocks: Seq<Seq<u32>>)
    ensures
        ({
            let total = all_samples(blocks);
            streamed(blocks).0.queued_samples > 0 <==> total.len() > 480 && leading_start(
                total.take(total.len() - 480),
            ) is Some
        }),
    decreases blocks.len(),
{
    if blocks.len() > 0 {
        let init = blocks.drop_last();
        let block = blocks.last();
        law_playback_begins_once_audio_is_received(init);
        let first = law_blocks_are_queued_in_order(init);
        let (state, queued) = streamed(init);
        let total = all_samples(init);
        let more = all_samples(blocks);
        if block.len() == 0 {
            assert(more =~= total);
        } else {
            let now = state.received(block);
            let head = more.take(more.len() - 480);
            if state.queued_samples == 0 {
                assert(now.pending =~= more);
                if more.len() > 480 {
                    lemma_leading_start(head);
                }
            } else {
                let old_head = total.take(total.len() - 480);
                let rest = head.skip(total.len() - 480);
                assert(old_head + rest =~= head);
                law_onset_ignores_what_follows(old_head, rest);
                if let Some(part) = now.emission() {
                    lemma_leading_start(now.pending.take(part.1));
                }
            }
        }
    }
}

/// A complete waveform contradicts the blocks exactly where they held samples, and not as
/// many.
pub proof fn law_waveforms_of_another_length_are_refused(blocks: Seq<Seq<u32>>, len: nat)
    ensures
        streamed(blocks).0.mismatched(len) <==> {
            &&& all_samples(blocks).len() > 0
            &&& len != all_samples(blocks).len()
        },
{
    let start = law_blocks_are_queued_in_order(blocks);
    lemma_blocks_are_counted(blocks);
}

/// A block that could not be queued is not lost: all of it is pending, behind what was
/// pending before, and nothing more counts as queued.
pub proof fn law_a_block_that_fails_is_kept(state: StreamState, block: Seq<u32>, i: int)
    ensures
        ({
            let now = state.received(block);
            &&& now.pending.len() == state.pending.len() + block.len()
            &&& 0 <= i < state.pending.len() ==> now.pending[i] == state.pending[i]
            &&& 0 <= i < block.len() ==> now.pending[state.pending.len() + i] == block[i]
            &&& now.queued_samples == state.queued_samples
            &&& now.callback_samples == state.callback_samples + block.len()
            &&& now.callback_count == state.callback_count + 1
        }),
{
}

/// Every sample is played once, in its place and within full scale: 480 samples of
/// silence, then the samples from where audio begins, all but the last 240 as they came,
/// and at the end the silence that is asked for beyond 480 samples.
pub proof fn law_every_sample_is_played_in_its_place(
    blocks: Seq<Seq<u32>>,
    complete: Seq<u32>,
    fade: spec_fn(Seq<u32>) -> Seq<u32>,
    silence_buf_len: nat,
    i: int,
)
    requires
        complete.len() > 0,
        all_samples(blocks) == complete || all_samples(blocks).len() == 0,
        fades_the_end(fade),
    ensures
        ({
            let (out, count) = played(blocks, complete, fade, silence_buf_len);
            let start = match leading_start(complete) {
                Some(start) => start,
                None => 0,
            };
            let speech = complete.len() - start;
            let closing = if silence_buf_len > 480 {
                silence_buf_len - 480
            } else {
                0
            };
            &&& 0 <= start < complete.len()
            &&& count == speech
            &&& out.len() == 480 + speech + closing
            &&& 0 <= i < 480 ==> out[i] == 0
            &&& 0 <= i < speech - 240 ==> out[480 + i] == binary32::limited(complete[start + i])
            &&& 480 + speech <= i < out.len() ==> out[i] == 0
        }),
{
    law_blocks_do_not_change_what_is_played(blocks, complete, fade, silence_buf_len);
    lemma_leading_start(complete);
    let start = utterance_start(complete);
    let audio = binary32::all_limited(complete.skip(start));
    let n = audio.len() as int;
    if n >= 240 {
        let a = audio.take(n - 240);
        let b = audio.skip(n - 240);
        assert(a + b =~= audio);
        assert(fade(a + b) == a + fade(b));
    }
}

/// A waveform that contradicts the blocks is refused by both lengths, in decimal.
pub proof fn law_mismatch_names_both_lengths(received: nat, contained: nat) -> (digits: (
    Seq<char>,
    Seq<char>,
))
    ensures
        text::value_of(digits.0) == received,
        text::value_of(digits.1) == contained,
        mismatch_message(received, contained)
            == "Pocket TTS callback contract mismatch: callbacks yielded "@ + digits.0
            + " samples, final audio contained "@ + digits.1,
{
    text::law_decimal_can_be_read_again(received);
    text::law_decimal_can_be_read_again(contained);
    (text::decimal_of(received), text::decimal_of(contained))
}

/// A block that could not be queued goes with the next one: what the two give together is
/// what they would have given as one.
pub proof fn law_a_failed_block_goes_with_the_next(
    state: StreamState,
    queued: Seq<u32>,
    failed: Seq<u32>,
    next: Seq<u32>,
)
    requires
        next.len() > 0,
    ensures
        ({
            let (now, heard) = pushed(state.received(failed), queued, next);
            let (whole, at_once) = pushed(state, queued, failed + next);
            &&& heard == at_once
            &&& now.pending == whole.pending
            &&& now.queued_samples == whole.queued_samples
            &&& now.callback_samples == whole.callback_samples
        }),
{
    assert(state.received(failed).received(next).pending =~= state.received(failed + next).pending);
}

/// What can be queued goes from where audio begins, or once playback has begun from the
/// first pending sample, up to the last 480; nothing can be queued where no more are
/// pending, or before playback where no audio is found in front of them.
pub proof fn law_what_can_be_queued(state: StreamState)
    ensures
        ({
            let n = state.pending.len();
            let found = leading_start(state.pending.take(n - 480));
            match state.emission() {
                Some((start, end)) => {
                    &&& end == n - 480
                    &&& 0 <= start < end
                    &&& state.queued_samples > 0 ==> start == 0
                    &&& state.queued_samples == 0 ==> found == Some(start)
                },
                None => n <= 480 || (state.queued_samples == 0 && found is None),
            }
        }),
{
    let n = state.pending.len();
    if n > 480 {
        lemma_leading_start(state.pending.take(n - 480));
    }
}

/// A buffer for a part of the pending samples holds 480 samples of silence where playback
/// has not begun, and then each sample of the part, limited to full scale.  Once it is
/// queued, what is pending is all that stood behind the part, and its samples are counted.
pub proof fn law_parts_are_queued_sample_by_sample(state: StreamState, start: int, end: int, i: int)
    requires
        0 <= start <= end <= state.pending.len(),
    ensures
        ({
            let buffer = state.buffer((start, end));
            let after = state.emitted((start, end));
            let lead: int = if state.queued_samples == 0 {
                480
            } else {
                0
            };
            &&& buffer.len() == lead + end - start
            &&& 0 <= i < lead ==> buffer[i] == 0
            &&& 0 <= i < end - start ==> buffer[lead + i] == binary32::limited(
                state.pending[start + i],
            )
            &&& after.pending.len() == state.pending.len() - end
            &&& 0 <= i < after.pending.len() ==> after.pending[i] == state.pending[end + i]
            &&& after.queued_samples == state.queued_samples + end - start
            &&& after.callback_samples == state.callback_samples
            &&& after.callback_count == state.callback_count
        }),
{
}

/// At its end an utterance that came in no blocks is the complete waveform, behind what is
/// pending; one that came in blocks is not changed.
pub proof fn law_complete_waveform_stands_in_for_blocks(
    state: StreamState,
    complete: Seq<u32>,
    i: int,
)
    ensures
        state.callback_count > 0 ==> state.completed(complete) == state,
        state.callback_count == 0 ==> {
            let ended = state.completed(complete);
            let n = state.pending.len();
            &&& ended.pending.len() == n + complete.len()
            &&& 0 <= i < n ==> ended.pending[i] == state.pending[i]
            &&& 0 <= i < complete.len() ==> ended.pending[n + i] == complete[i]
            &&& ended.callback_samples == complete.len()
            &&& ended.callback_count == 0
            &&& ended.queued_samples == state.queued_samples
        },
{
}

/// The last part goes to the last pending sample, from the first one once playback has
/// begun, and before that from where audio begins, or from the first one where none is
/// found.  Its buffer has 480 samples of silence before it where playback has not begun,
/// and behind it the silence that is asked for beyond 480 samples.  Then nothing is
/// pending.
pub proof fn law_last_part_takes_all_that_is_left(
    state: StreamState,
    faded: Seq<u32>,
    silence_buf_len: nat,
    queued: bool,
    i: int,
)
    ensures
        ({
            let start = if state.queued_samples > 0 {
                0
            } else {
                match leading_start(state.pending) {
                    Some(start) => start,
                    None => 0,
                }
            };
            let lead: int = if state.queued_samples == 0 {
                480
            } else {
                0
            };
            let closing = if silence_buf_len > 480 {
                silence_buf_len - 480
            } else {
                0
            };
            let audio = state.final_audio();
            let buffer = state.final_buffer(faded, silence_buf_len);
            let done = state.finished(queued);
            &&& 0 <= start <= state.pending.len()
            &&& audio.len() == state.pending.len() - start
            &&& 0 <= i < audio.len() ==> audio[i] == binary32::limited(state.pending[start + i])
            &&& buffer.len() == lead + faded.len() + closing
            &&& 0 <= i < lead ==> buffer[i] == 0
            &&& 0 <= i < faded.len() ==> buffer[lead + i] == faded[i]
            &&& lead + faded.len() <= i < buffer.len() ==> buffer[i] == 0
            &&& done.pending.len() == 0
            &&& done.callback_samples == state.callback_samples
            &&& done.callback_count == state.callback_count
            &&& done.queued_samples == state.queued_samples + if queued {
                audio.len()
            } else {
                0
            }
        }),
{
    lemma_leading_start(state.pending);
}

} // verus!
