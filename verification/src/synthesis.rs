//! The course of a synthesis: which model runs when, on what.

use crate::chunking::{chunks_of, string_views};
use crate::codec::{frame_budget, resolve_stream_decode_frame_budget};
use crate::config::{AppConfig, GenerationConfig, SampleMode};
use crate::error::TtsError;
use crate::float::arith::whole;
use crate::float::format::binary64;
use crate::float::number::{Binary32, Binary64};
use crate::generation::{
    assistant_random, audio_random, can_fill, can_open, fill_channel, first_channel_request, frame_if,
    generate_frame_fixed, is_ready_to_fill, is_ready_to_open, marks_repetition, next_channel_request, no_tokens, open_frame,
    opening_request, opening_step, ready_to_fill, ready_to_open, recorded, sampling_config_from_gen_config, sampling_of,
    FrameRequest, LocalRequest, Tracker,
};
use crate::models::{build_next_row, codes_fit, gather_rows, input_rows, next_row, short};
use crate::rng::{create_numpy_compatible_rng, seeded, Random, RngView};
use crate::sampling::{channel_logits, is_assistant_pick, is_audio_token};
use crate::speech_end::{
    after_frame, copy_frame, ends_speech, has_first_tokens, pushed, DetectorView,
    EndOfSpeechDetector,
};
use crate::tensor::{at_least_one, fits, has_room, holds_rows, rows_of, Tensor3};
use crate::text::chars_of;
use crate::tokenizer::{ids_of, tts_text, Tokenizer};
use crate::whitespace::{count_words, words};
use vstd::prelude::*;

verus! {

/// MOSS-TTS-Nano text-to-speech engine: all that a synthesis depends on but
/// the models.
pub struct MossTtsNano {
    pub app_config: AppConfig,
    pub tokenizer: Tokenizer,
    pub gen_config: GenerationConfig,
    pub ref_codes: Option<Tensor3>,
    pub seed: u64,
    pub voice_clone_max_text_tokens: usize,
}

/// What a synthesis waits for.
#[derive(Debug, Clone, Copy, PartialEq, Eq, Structural)]
pub enum Phase {
    /// The prompt and the text of a chunk to be read.
    Prefill,
    /// A whole frame.
    Frame,
    /// The logits for the assistant's token.
    Opening,
    /// The logits for a channel's token.
    Filling,
    /// Frames to be decoded, with more to come.
    Decode,
    /// The frame to be fed back.
    Advance,
    /// The last frames of a chunk to be decoded.
    Flush,
    /// The pause between chunks to be given out.
    Pause,
    /// Nothing more.
    Done,
}

/// What is to be done next.
pub enum Step {
    /// Run the prefill model on the input of the chunk.
    Prefill,
    /// Run the model for a whole frame.
    Frame(FrameRequest),
    /// Run the local model.
    Local(LocalRequest),
    /// Decode frames to audio.
    Decode { codes: Tensor3, frame_count: usize },
    /// Run the decode step on the frame's row.
    Advance { row: Tensor3, past_valid_length: i32 },
    /// Give out silence of a number of samples, over all channels.
    Pause { samples: usize },
    /// Nothing more.
    Finish,
}

/// What is to be done next, as plain values.
pub enum StepView {
    Prefill,
    Frame { tokens: Seq<Seq<i32>>, assistant_u: Binary32, audio_u: Seq<Binary32> },
    Local(LocalRequest),
    Decode(Seq<Seq<i32>>),
    Advance { row: Seq<i32>, past: i32 },
    Pause(nat),
    Finish,
}

/// Where a synthesis stands.
pub struct SynthView {
    pub chunks: Seq<Seq<char>>,
    pub index: nat,
    pub phase: Phase,
    pub emitted: nat,
    pub started: bool,
    pub rng: RngView,
    pub detector: DetectorView,
    pub tokens: Seq<Seq<i32>>,
    pub step: nat,
    pub past: i32,
    pub frame: Seq<i32>,
    pub pending: Seq<Seq<i32>>,
}

// --- Settings ---

impl MossTtsNano {
    pub open spec fn n_vq(self) -> nat {
        self.app_config.tts_config.n_vq as nat
    }

    pub open spec fn codebook(self) -> nat {
        self.app_config.tts_config.audio_codebook_sizes@[0] as nat
    }

    pub open spec fn rate(self) -> nat {
        self.app_config.codec_config.sample_rate as nat
    }

    pub open spec fn channels(self) -> nat {
        self.app_config.codec_config.channels as nat
    }

    /// Whether frames are made channel by channel.
    pub open spec fn by_channel(self) -> bool {
        self.gen_config.sample_mode != SampleMode::Fixed
    }

    /// Whether the sizes in the configuration can be worked with.
    pub open spec fn runnable(self) -> bool {
        &&& self.app_config.tts_config.audio_codebook_sizes@.len() > 0
        &&& self.n_vq() < usize::MAX
        &&& has_room(1, self.n_vq(), self.codebook())
        &&& has_room(1, 8, self.n_vq())
        &&& has_room(1, 1, self.n_vq() + 1)
        &&& self.by_channel() ==> 0 < self.n_vq() < i32::MAX
        &&& pause_samples(self.rate(), 0) * self.channels() <= usize::MAX
        &&& pause_samples(self.rate(), 5) * self.channels() <= usize::MAX
    }

    pub open spec fn wf(self) -> bool {
        self.tokenizer.wf()
    }
}

/// The pause after a text with a number of words, in seconds: 0.40 after a
/// short text, 0.24 after a longer one.
pub open spec fn pause_seconds(word_count: nat) -> Binary64 {
    if word_count <= 4 {
        Binary64 { bits: 0x3fd9_9999_9999_999a }
    } else {
        Binary64 { bits: 0x3fce_b851_eb85_1eb8 }
    }
}

/// The pause after a text with a number of words, in samples of each channel.
pub open spec fn pause_samples(rate: nat, word_count: nat) -> nat {
    whole(binary64(), Binary64::of(rate).mul_spec(pause_seconds(word_count)).signed())
}

/// The pause after a text.
pub fn estimate_inter_chunk_pause(text: &str) -> (r: Binary64)
    ensures
        r == pause_seconds(words(text@)),
{
    if count_words(&chars_of(text)) <= 4 {
        Binary64 { bits: 0x3fd9_9999_9999_999a }
    } else {
        Binary64 { bits: 0x3fce_b851_eb85_1eb8 }
    }
}

// --- The course ---

/// A frame to be made.
pub open spec fn begin(e: MossTtsNano, v: SynthView) -> (SynthView, StepView) {
    if v.step >= e.gen_config.max_new_frames {
        flush(e, v)
    } else if e.by_channel() {
        (
            SynthView { phase: Phase::Opening, frame: Seq::empty(), ..v },
            StepView::Local(opening_request()),
        )
    } else {
        (
            SynthView { phase: Phase::Frame, rng: v.rng.after(e.n_vq() + 1), ..v },
            StepView::Frame {
                tokens: v.tokens,
                assistant_u: assistant_random(v.rng),
                audio_u: audio_random(v.rng, e.n_vq()),
            },
        )
    }
}

/// No more frames: what is left is decoded.
pub open spec fn flush(e: MossTtsNano, v: SynthView) -> (SynthView, StepView) {
    if v.pending.len() > 0 {
        (
            SynthView { phase: Phase::Flush, pending: Seq::empty(), ..v },
            StepView::Decode(v.pending),
        )
    } else {
        end_chunk(e, v)
    }
}

/// A chunk is done: a pause follows, unless it was the last one.
pub open spec fn end_chunk(e: MossTtsNano, v: SynthView) -> (SynthView, StepView) {
    if v.index + 1 < v.chunks.len() {
        (
            SynthView { phase: Phase::Pause, ..v },
            StepView::Pause(
                pause_samples(e.rate(), words(v.chunks[v.index as int])) * e.channels(),
            ),
        )
    } else {
        (SynthView { phase: Phase::Done, ..v }, StepView::Finish)
    }
}

/// The frame in hand is fed back.
pub open spec fn feed_back(e: MossTtsNano, v: SynthView) -> (SynthView, StepView) {
    (
        SynthView { phase: Phase::Advance, ..v },
        StepView::Advance { row: next_row(v.frame, e.app_config.tts_config), past: v.past },
    )
}

/// The seconds since the first audio, if there has been any.
pub open spec fn since_first(v: SynthView, elapsed: Binary64) -> Option<Binary64> {
    if v.started {
        Some(elapsed)
    } else {
        None
    }
}

/// How many frames are decoded at once now.
pub open spec fn budget_now(e: MossTtsNano, v: SynthView, elapsed: Binary64) -> nat {
    frame_budget(v.emitted, e.rate(), since_first(v, elapsed))
}

/// A frame, or the end of speech.
pub open spec fn take_frame(
    e: MossTtsNano,
    v: SynthView,
    frame: Option<Seq<i32>>,
    elapsed: Binary64,
) -> (SynthView, StepView) {
    match frame {
        None => flush(e, v),
        Some(f) => {
            let noted = SynthView {
                tokens: recorded(v.tokens, f),
                detector: after_frame(v.detector, f, v.step),
                frame: f,
                ..v
            };
            if ends_speech(v.detector, f, v.step) {
                flush(e, noted)
            } else {
                let pending = v.pending.push(f);
                let budget = budget_now(e, v, elapsed);
                if pending.len() >= budget {
                    (
                        SynthView {
                            phase: Phase::Decode,
                            pending: pending.skip(budget as int),
                            ..noted
                        },
                        StepView::Decode(pending.take(budget as int)),
                    )
                } else {
                    feed_back(e, SynthView { pending, ..noted })
                }
            }
        },
    }
}

/// The prompt and the text of a chunk have been read: the chunk begins.
pub open spec fn after_prefill(e: MossTtsNano, v: SynthView, seq_len: nat) -> (SynthView, StepView) {
    begin(
        e,
        SynthView {
            rng: seeded(e.seed),
            detector: DetectorView { recent: Seq::empty(), window: 8 },
            tokens: no_tokens(e.n_vq()),
            step: 0,
            past: #[verifier::truncate] (seq_len as i32),
            frame: Seq::empty(),
            pending: Seq::empty(),
            ..v
        },
    )
}

/// A random number is used up where tokens are sampled.
pub open spec fn after_pick(e: MossTtsNano, rng: RngView) -> RngView {
    if e.gen_config.do_sample {
        rng.next()
    } else {
        rng
    }
}

/// The assistant's token has been picked.
pub open spec fn after_opening(e: MossTtsNano, v: SynthView, token: i32, elapsed: Binary64) -> (
    SynthView,
    StepView,
) {
    let rng = after_pick(e, v.rng);
    if token == short(e.app_config.tts_config.audio_assistant_slot_token_id) {
        (
            SynthView { phase: Phase::Filling, rng, ..v },
            StepView::Local(first_channel_request(token)),
        )
    } else {
        take_frame(e, SynthView { rng, ..v }, None, elapsed)
    }
}

/// A channel's token has been picked.
pub open spec fn after_filling(e: MossTtsNano, v: SynthView, token: i32, elapsed: Binary64) -> (
    SynthView,
    StepView,
) {
    let channel = v.frame.len();
    let filled = SynthView {
        rng: after_pick(e, v.rng),
        tokens: v.tokens.update(channel as int, v.tokens[channel as int].push(token)),
        frame: v.frame.push(token),
        ..v
    };
    if channel + 1 < e.n_vq() {
        (filled, StepView::Local(next_channel_request(channel as int, token)))
    } else {
        take_frame(e, filled, Some(filled.frame), elapsed)
    }
}

/// Frames have been decoded to a number of samples.
pub open spec fn after_decode(e: MossTtsNano, v: SynthView, audio_length: nat) -> (
    SynthView,
    StepView,
) {
    let counted = SynthView {
        emitted: v.emitted + audio_length,
        started: v.started || audio_length > 0,
        ..v
    };
    if v.phase == Phase::Decode {
        feed_back(e, counted)
    } else {
        end_chunk(e, counted)
    }
}

/// The frame has been fed back.
pub open spec fn after_advance(e: MossTtsNano, v: SynthView) -> (SynthView, StepView) {
    begin(e, SynthView { step: v.step + 1, past: (v.past + 1) as i32, ..v })
}

/// The pause has been given out.
pub open spec fn after_pause(v: SynthView) -> (SynthView, StepView) {
    (SynthView { index: v.index + 1, phase: Phase::Prefill, ..v }, StepView::Prefill)
}

/// A synthesis at its start.
pub open spec fn at_start(v: SynthView, chunks: Seq<Seq<char>>) -> bool {
    &&& v.chunks == chunks
    &&& v.index == 0
    &&& v.phase == Phase::Prefill
    &&& v.emitted == 0
    &&& !v.started
    &&& v.pending.len() == 0
}

/// Whether a step says what a view of it says.
pub open spec fn step_says(e: MossTtsNano, step: Step, v: StepView) -> bool {
    match v {
        StepView::Prefill => step is Prefill,
        StepView::Frame { tokens, assistant_u, audio_u } => step matches Step::Frame(r)
            && marks_repetition(r.repetition_seen_mask, tokens, e.codebook())
            && r.assistant_random_u == assistant_u && r.audio_random_u@ == audio_u,
        StepView::Local(request) => step matches Step::Local(r) && r == request,
        StepView::Decode(frames) => step matches Step::Decode { codes, frame_count } && holds_rows(
            codes,
            frames,
            e.n_vq(),
        ) && frame_count == frames.len(),
        StepView::Advance { row, past } => step matches Step::Advance {
            row: t,
            past_valid_length,
        } && holds_rows(t, seq![row], e.n_vq() + 1) && past_valid_length == past,
        StepView::Pause(n) => step matches Step::Pause { samples } && samples == n,
        StepView::Finish => step is Finish,
    }
}

/// Whether a token is picked for the assistant in a state.
pub open spec fn picks_opening<F: Fn(Binary64) -> Binary64>(
    exp: F,
    e: MossTtsNano,
    v: SynthView,
    logits: Seq<Binary32>,
    token: i32,
) -> bool {
    is_assistant_pick(
        exp,
        logits,
        short(e.app_config.tts_config.audio_assistant_slot_token_id),
        short(e.app_config.tts_config.audio_end_token_id),
        sampling_of(e.gen_config),
        v.rng.fraction23(),
        token,
    )
}

/// Whether a token is picked for the next channel in a state.
pub open spec fn picks_filling<F: Fn(Binary64) -> Binary64>(
    exp: F,
    e: MossTtsNano,
    v: SynthView,
    logits: Seq<Binary32>,
    token: i32,
) -> bool {
    let channel = v.frame.len();
    is_audio_token(
        exp,
        channel_logits(logits, channel, e.n_vq()),
        v.tokens[channel as int],
        v.tokens[channel as int].to_set(),
        sampling_of(e.gen_config),
        v.rng.fraction23(),
        token,
    )
}

// --- Carrying it out ---

/// Whether a synthesis is in order: it stands at one of its chunks, tokens are
/// kept for each channel, no frame has more tokens than channels, and fewer
/// frames wait for decoding than are ever decoded at once.
pub open spec fn sound(e: MossTtsNano, v: SynthView) -> bool {
    &&& v.index < v.chunks.len()
    &&& v.tokens.len() == e.n_vq()
    &&& v.frame.len() <= e.n_vq()
    &&& v.pending.len() < 8
    &&& e.by_channel() ==> none_empty(v.detector.recent)
}

/// Whether a synthesis is in order, and in a phase that goes with it.
pub open spec fn valid(e: MossTtsNano, v: SynthView) -> bool {
    &&& sound(e, v)
    &&& v.phase == Phase::Filling ==> v.frame.len() < e.n_vq()
    &&& v.phase == Phase::Opening ==> v.frame.len() == 0
    &&& v.phase == Phase::Filling || v.phase == Phase::Opening ==> e.by_channel()
    &&& v.phase == Phase::Pause ==> v.index + 1 < v.chunks.len()
    &&& v.phase == Phase::Flush ==> v.pending.len() == 0
    &&& in_frame(v.phase) ==> v.step < e.gen_config.max_new_frames
}

/// Whether a frame is being made, decoded or fed back.
pub open spec fn in_frame(phase: Phase) -> bool {
    ||| phase == Phase::Frame
    ||| phase == Phase::Opening
    ||| phase == Phase::Filling
    ||| phase == Phase::Decode
    ||| phase == Phase::Advance
}

/// Whether every frame has a token.
pub open spec fn none_empty(frames: Seq<Seq<i32>>) -> bool {
    forall|i: int| 0 <= i < frames.len() ==> (#[trigger] frames[i]).len() > 0
}

/// A synthesis under way.
pub struct Synthesis {
    chunks: Vec<String>,
    index: usize,
    phase: Phase,
    emitted: usize,
    started: bool,
    rng: Random,
    detector: EndOfSpeechDetector,
    tracker: Tracker,
    step: usize,
    past: i32,
    frame: Vec<i32>,
    pending: Vec<Vec<i32>>,
}

impl View for Synthesis {
    type V = SynthView;

    closed spec fn view(&self) -> SynthView {
        SynthView {
            chunks: string_views(self.chunks@),
            index: self.index as nat,
            phase: self.phase,
            emitted: self.emitted as nat,
            started: self.started,
            rng: self.rng@,
            detector: self.detector@,
            tokens: self.tracker@,
            step: self.step as nat,
            past: self.past,
            frame: self.frame@,
            pending: rows_of(self.pending@),
        }
    }
}

proof fn lemma_room_for_fewer(n: nat, k: nat)
    requires
        has_room(1, 8, n),
        k <= 8,
    ensures
        has_room(1, k, n),
{
    let m = at_least_one(n);
    let j = at_least_one(k);
    assert(1 * j * m <= 1 * 8 * m) by (nonlinear_arith)
        requires
            j <= 8,
    ;
    assert(1 * k * n * 4 <= 1 * 8 * n * 4) by (nonlinear_arith)
        requires
            k <= 8,
    ;
}

impl Synthesis {
    /// In order, inside too.
    pub closed spec fn wf(self, e: MossTtsNano) -> bool {
        &&& valid(e, self@)
        &&& self.tracker.wf()
        &&& self.detector.wf()
    }

    /// In order inside, whatever the phase.
    spec fn whole(self, e: MossTtsNano) -> bool {
        &&& sound(e, self@)
        &&& self.tracker.wf()
        &&& self.detector.wf()
    }

    /// A synthesis that is in order inside is so as seen from outside.
    pub proof fn lemma_wf_is_valid(self, e: MossTtsNano)
        requires
            self.wf(e),
        ensures
            valid(e, self@),
    {
    }

    /// What the synthesis waits for.
    pub fn phase(&self) -> (r: Phase)
        ensures
            r == self@.phase,
    {
        self.phase
    }

    /// The number of the chunk that it stands at.
    pub fn chunk_index(&self) -> (r: usize)
        ensures
            r == self@.index,
    {
        self.index
    }

    /// The channel whose token is waited for.
    pub fn channel(&self) -> (r: usize)
        ensures
            r == self@.frame.len(),
    {
        self.frame.len()
    }

    /// Whether there has been audio.
    pub fn has_started(&self) -> (r: bool)
        ensures
            r == self@.started,
    {
        self.started
    }

    fn codes(e: &MossTtsNano, frames: &Vec<Vec<i32>>) -> (r: Step)
        requires
            e.runnable(),
            frames@.len() <= 8,
        ensures
            step_says(*e, r, StepView::Decode(rows_of(frames@))),
    {
        proof {
            lemma_room_for_fewer(e.n_vq(), frames@.len());
        }
        Step::Decode {
            codes: Tensor3::from_rows(frames, e.app_config.tts_config.n_vq),
            frame_count: frames.len(),
        }
    }

    #[verifier::rlimit(50)]
    fn end_chunk(&mut self, e: &MossTtsNano) -> (r: Step)
        requires
            e.runnable(),
            old(self).whole(*e),
        ensures
            final(self).wf(*e),
            final(self)@ == end_chunk(*e, old(self)@).0,
            step_says(*e, r, end_chunk(*e, old(self)@).1),
    {
        proof {
            assert(self@.chunks.len() == self.chunks@.len());
        }
        if self.chunks.len() - self.index > 1 {
            self.phase = Phase::Pause;
            let text = self.chunks[self.index].as_str();
            proof {
                assert(text@ == self@.chunks[self.index as int]);
            }
            let seconds = estimate_inter_chunk_pause(text);
            let rate = Binary64::from_integer(e.app_config.codec_config.sample_rate as u64);
            let samples: u64 = rate.times(seconds).to_whole();
            let ghost count = words(text@);
            proof {
                assert(pause_samples(e.rate(), count) == samples);
                assert(samples == pause_samples(e.rate(), 0) || samples == pause_samples(
                    e.rate(),
                    5,
                ));
                assert(samples * e.channels() <= usize::MAX);
            }
            let channels: u128 = e.app_config.codec_config.channels as u128;
            proof {
                assert(samples as u128 * channels <= usize::MAX) by (nonlinear_arith)
                    requires
                        samples * e.channels() <= usize::MAX,
                        channels == e.channels(),
                ;
            }
            Step::Pause { samples: (samples as u128 * channels) as usize }
        } else {
            self.phase = Phase::Done;
            Step::Finish
        }
    }

    fn flush(&mut self, e: &MossTtsNano) -> (r: Step)
        requires
            e.runnable(),
            old(self).whole(*e),
        ensures
            final(self).wf(*e),
            final(self)@ == flush(*e, old(self)@).0,
            step_says(*e, r, flush(*e, old(self)@).1),
    {
        if self.pending.len() > 0 {
            let r = Self::codes(e, &self.pending);
            self.pending = Vec::new();
            self.phase = Phase::Flush;
            proof {
                assert(rows_of(self.pending@) == Seq::<Seq<i32>>::empty());
            }
            r
        } else {
            self.end_chunk(e)
        }
    }

    #[verifier::rlimit(50)]
    fn begin(&mut self, e: &MossTtsNano) -> (r: Step)
        requires
            e.runnable(),
            old(self).whole(*e),
        ensures
            final(self).wf(*e),
            final(self)@ == begin(*e, old(self)@).0,
            step_says(*e, r, begin(*e, old(self)@).1),
    {
        if self.step >= e.gen_config.max_new_frames {
            return self.flush(e);
        }
        match e.gen_config.sample_mode {
            SampleMode::Fixed => {
                self.phase = Phase::Frame;
                Step::Frame(
                    generate_frame_fixed(
                        &self.tracker,
                        e.app_config.tts_config.audio_codebook_sizes[0],
                        &mut self.rng,
                    ),
                )
            },
            SampleMode::Full | SampleMode::Greedy => {
                self.phase = Phase::Opening;
                self.frame = Vec::new();
                Step::Local(opening_step())
            },
        }
    }

    fn feed_back(&mut self, e: &MossTtsNano) -> (r: Step)
        requires
            e.runnable(),
            old(self).whole(*e),
            old(self)@.step < e.gen_config.max_new_frames,
        ensures
            final(self).wf(*e),
            final(self)@ == feed_back(*e, old(self)@).0,
            step_says(*e, r, feed_back(*e, old(self)@).1),
    {
        self.phase = Phase::Advance;
        Step::Advance {
            row: build_next_row(self.frame.as_slice(), &e.app_config.tts_config),
            past_valid_length: self.past,
        }
    }

    /// The prompt and the text of the chunk have been read; `seq_len` is the
    /// number of rows.
    pub fn prefilled(&mut self, e: &MossTtsNano, seq_len: usize) -> (r: Step)
        requires
            e.runnable(),
            old(self).wf(*e),
            old(self)@.phase == Phase::Prefill,
        ensures
            final(self).wf(*e),
            final(self)@ == after_prefill(*e, old(self)@, seq_len as nat).0,
            step_says(*e, r, after_prefill(*e, old(self)@, seq_len as nat).1),
    {
        self.rng = create_numpy_compatible_rng(e.seed);
        self.detector = EndOfSpeechDetector::new(8);
        self.tracker = Tracker::new(e.app_config.tts_config.n_vq);
        self.step = 0;
        self.past = #[verifier::truncate]
        (seq_len as i32);
        self.frame = Vec::new();
        self.pending = Vec::new();
        proof {
            assert(rows_of(self.pending@) == Seq::<Seq<i32>>::empty());
        }
        self.begin(e)
    }

    /// The frame has been fed back.
    pub fn advanced(&mut self, e: &MossTtsNano) -> (r: Step)
        requires
            e.runnable(),
            old(self).wf(*e),
            old(self)@.phase == Phase::Advance,
            old(self)@.past < i32::MAX,
        ensures
            final(self).wf(*e),
            final(self)@ == after_advance(*e, old(self)@).0,
            step_says(*e, r, after_advance(*e, old(self)@).1),
    {
        self.step = self.step + 1;
        self.past = self.past + 1;
        self.begin(e)
    }

    /// The pause has been given out.
    pub fn paused(&mut self, e: &MossTtsNano) -> (r: Step)
        requires
            old(self).wf(*e),
            old(self)@.phase == Phase::Pause,
        ensures
            final(self).wf(*e),
            final(self)@ == after_pause(old(self)@).0,
            step_says(*e, r, after_pause(old(self)@).1),
    {
        let n = self.chunks.len();
        proof {
            assert(self@.chunks.len() == n);
        }
        self.index = self.index + 1;
        self.phase = Phase::Prefill;
        Step::Prefill
    }

    /// Frames have been decoded to `audio_length` samples of each channel.
    #[verifier::rlimit(50)]
    pub fn decoded(&mut self, e: &MossTtsNano, audio_length: usize) -> (r: Step)
        requires
            e.runnable(),
            old(self).wf(*e),
            old(self)@.phase == Phase::Decode || old(self)@.phase == Phase::Flush,
            old(self)@.emitted + audio_length <= usize::MAX,
        ensures
            final(self).wf(*e),
            final(self)@ == after_decode(*e, old(self)@, audio_length as nat).0,
            step_says(*e, r, after_decode(*e, old(self)@, audio_length as nat).1),
    {
        self.started = self.started || audio_length > 0;
        self.emitted = self.emitted + audio_length;
        if self.phase == Phase::Decode {
            self.feed_back(e)
        } else {
            self.end_chunk(e)
        }
    }

    /// Whether a frame can be taken: it has no more tokens than there are
    /// channels, and a first token if that is looked at.
    pub fn can_take(&self, e: &MossTtsNano, frame: &[i32]) -> (r: bool)
        ensures
            r == (frame@.len() <= e.n_vq() && has_first_tokens(self@.detector, frame@)),
    {
        frame.len() <= e.app_config.tts_config.n_vq && self.detector.accepts(frame)
    }

    /// Whether the assistant's token can be picked by logits.
    pub fn can_open(&self, e: &MossTtsNano, text_logits: &[Binary32]) -> (r: bool)
        ensures
            r == ready_to_open(
                text_logits@,
                e.app_config.tts_config,
                sampling_of(e.gen_config),
            ),
    {
        let sampling = sampling_config_from_gen_config(&e.gen_config);
        is_ready_to_open(text_logits, &e.app_config.tts_config, &sampling)
    }

    /// Whether the token of the channel at hand can be picked by logits.
    pub fn can_fill(&self, e: &MossTtsNano, audio_logits: &[Binary32]) -> (r: bool)
        ensures
            r == ready_to_fill(
                audio_logits@,
                self@.frame.len(),
                self@.tokens,
                sampling_of(e.gen_config),
            ),
    {
        let sampling = sampling_config_from_gen_config(&e.gen_config);
        is_ready_to_fill(audio_logits, self.frame.len(), &self.tracker, &sampling)
    }

    /// Whether the number of rows can go up by one.
    pub fn can_advance(&self) -> (r: bool)
        ensures
            r == (self@.past < i32::MAX),
    {
        self.past < i32::MAX
    }

    /// Whether the number of samples can go up by `audio_length`.
    pub fn can_emit(&self, audio_length: usize) -> (r: bool)
        ensures
            r == (self@.emitted + audio_length <= usize::MAX),
    {
        audio_length <= usize::MAX - self.emitted
    }

    #[verifier::rlimit(50)]
    fn take_frame(&mut self, e: &MossTtsNano, frame: Vec<i32>, elapsed: Binary64) -> (r: Step)
        requires
            e.runnable(),
            old(self).whole(*e),
            old(self)@.step < e.gen_config.max_new_frames,
            frame@.len() <= e.n_vq(),
            e.by_channel() ==> frame@.len() > 0,
            has_first_tokens(old(self)@.detector, frame@),
        ensures
            final(self).wf(*e),
            final(self)@ == take_frame(*e, old(self)@, Some(frame@), elapsed).0,
            step_says(*e, r, take_frame(*e, old(self)@, Some(frame@), elapsed).1),
    {
        let ghost before = self@;
        self.tracker.record_frame(frame.as_slice());
        let ends = self.detector.check(frame.as_slice(), self.step);
        let taken = copy_frame(frame.as_slice());
        self.frame = frame;
        proof {
            if e.by_channel() {
                lemma_pushed_none_empty(before.detector, frame@);
            }
        }
        if ends {
            return self.flush(e);
        }
        let ghost waiting = self.pending@;
        self.pending.push(taken);
        let ghost all = before.pending.push(frame@);
        proof {
            assert(rows_of(self.pending@) == all);
        }
        let since = if self.started {
            Some(elapsed)
        } else {
            None
        };
        let budget = resolve_stream_decode_frame_budget(
            self.emitted,
            e.app_config.codec_config.sample_rate,
            since,
        );
        if self.pending.len() >= budget {
            let mut chunk: Vec<Vec<i32>> = Vec::new();
            let mut rest: Vec<Vec<i32>> = Vec::new();
            let mut i: usize = 0;
            while i < self.pending.len()
                invariant
                    i <= self.pending@.len(),
                    budget <= self.pending@.len(),
                    rows_of(self.pending@) == all,
                    i <= budget ==> rows_of(chunk@) == all.take(i as int) && rows_of(rest@)
                        == Seq::<Seq<i32>>::empty(),
                    i > budget ==> rows_of(chunk@) == all.take(budget as int) && rows_of(rest@)
                        == all.subrange(budget as int, i as int),
                decreases self.pending.len() - i,
            {
                let f = copy_frame(self.pending[i].as_slice());
                let ghost old_chunk = chunk@;
                let ghost old_rest = rest@;
                proof {
                    assert(f@ == all[i as int]);
                }
                if i < budget {
                    chunk.push(f);
                    proof {
                        assert(rows_of(chunk@) == rows_of(old_chunk).push(f@));
                        assert(rows_of(chunk@) == all.take(i + 1));
                    }
                } else {
                    rest.push(f);
                    proof {
                        assert(rows_of(rest@) == rows_of(old_rest).push(f@));
                        assert(rows_of(rest@) == all.subrange(budget as int, i + 1));
                    }
                }
                i = i + 1;
            }
            proof {
                assert(rows_of(rest@) == all.skip(budget as int));
            }
            self.pending = rest;
            self.phase = Phase::Decode;
            Self::codes(e, &chunk)
        } else {
            self.feed_back(e)
        }
    }

    /// The model for a whole frame has run: speech goes on with a frame, or ends.
    /// `elapsed` are the seconds since the first audio, if there has been any.
    pub fn frame_made(
        &mut self,
        e: &MossTtsNano,
        should_continue: bool,
        frame: Vec<i32>,
        elapsed: Binary64,
    ) -> (r: Step)
        requires
            e.runnable(),
            old(self).wf(*e),
            old(self)@.phase == Phase::Frame,
            !e.by_channel(),
            should_continue ==> frame@.len() <= e.n_vq() && has_first_tokens(
                old(self)@.detector,
                frame@,
            ),
        ensures
            final(self).wf(*e),
            final(self)@ == take_frame(
                *e,
                old(self)@,
                frame_if(should_continue, frame@),
                elapsed,
            ).0,
            step_says(
                *e,
                r,
                take_frame(*e, old(self)@, frame_if(should_continue, frame@), elapsed).1,
            ),
    {
        if should_continue {
            self.take_frame(e, frame, elapsed)
        } else {
            self.flush(e)
        }
    }

    /// The local model has run, and given the logits for the assistant's token.
    #[verifier::rlimit(50)]
    pub fn opened<F: Fn(Binary64) -> Binary64>(
        &mut self,
        e: &MossTtsNano,
        text_logits: &[Binary32],
        elapsed: Binary64,
        exp: &F,
    ) -> (r: Step)
        requires
            e.runnable(),
            old(self).wf(*e),
            old(self)@.phase == Phase::Opening,
            can_open(
                *exp,
                text_logits@,
                e.app_config.tts_config,
                sampling_of(e.gen_config),
            ),
        ensures
            final(self).wf(*e),
            exists|token: i32|
                #[trigger] picks_opening(*exp, *e, old(self)@, text_logits@, token)
                    && final(self)@ == after_opening(*e, old(self)@, token, elapsed).0
                    && step_says(*e, r, after_opening(*e, old(self)@, token, elapsed).1),
    {
        let sampling = sampling_config_from_gen_config(&e.gen_config);
        let ghost before = self@;
        let opened = open_frame(
            text_logits,
            &e.app_config.tts_config,
            &sampling,
            &mut self.rng,
            exp,
        );
        let ghost token = choose|token: i32|
            #[trigger] is_assistant_pick(
                *exp,
                text_logits@,
                short(e.app_config.tts_config.audio_assistant_slot_token_id),
                short(e.app_config.tts_config.audio_end_token_id),
                sampling,
                before.rng.fraction23(),
                token,
            ) && opened == if token == short(
                e.app_config.tts_config.audio_assistant_slot_token_id,
            ) {
                Some(first_channel_request(token))
            } else {
                None
            };
        proof {
            assert(picks_opening(*exp, *e, before, text_logits@, token));
        }
        match opened {
            Some(request) => {
                self.phase = Phase::Filling;
                Step::Local(request)
            },
            None => self.flush(e),
        }
    }

    /// The local model has run, and given the logits for a channel's token.
    #[verifier::rlimit(50)]
    pub fn filled<F: Fn(Binary64) -> Binary64>(
        &mut self,
        e: &MossTtsNano,
        audio_logits: &[Binary32],
        elapsed: Binary64,
        exp: &F,
    ) -> (r: Step)
        requires
            e.runnable(),
            old(self).wf(*e),
            old(self)@.phase == Phase::Filling,
            can_fill(
                *exp,
                audio_logits@,
                old(self)@.frame.len(),
                old(self)@.tokens,
                sampling_of(e.gen_config),
            ),
        ensures
            final(self).wf(*e),
            exists|token: i32|
                #[trigger] picks_filling(*exp, *e, old(self)@, audio_logits@, token)
                    && final(self)@ == after_filling(*e, old(self)@, token, elapsed).0
                    && step_says(*e, r, after_filling(*e, old(self)@, token, elapsed).1),
    {
        let sampling = sampling_config_from_gen_config(&e.gen_config);
        let ghost before = self@;
        let channel = self.frame.len();
        let token = fill_channel(
            audio_logits,
            channel,
            &mut self.tracker,
            &sampling,
            &mut self.rng,
            exp,
        );
        self.frame.push(token);
        proof {
            assert(picks_filling(*exp, *e, before, audio_logits@, token));
        }
        if channel + 1 < e.app_config.tts_config.n_vq {
            Step::Local(
                LocalRequest {
                    text_token_id: 0,
                    audio_token_id: token,
                    channel_index: channel as i32,
                    step_type: 2,
                    past_valid_lengths: (channel + 2) as i32,
                },
            )
        } else {
            let frame = copy_frame(self.frame.as_slice());
            proof {
                lemma_has_first_tokens(self@.detector, frame@);
            }
            self.take_frame(e, frame, elapsed)
        }
    }
}

impl MossTtsNano {
    /// Whether the sizes in the configuration can be worked with.
    #[verifier::rlimit(50)]
    pub fn is_runnable(&self) -> (r: bool)
        ensures
            r == self.runnable(),
    {
        let tts = &self.app_config.tts_config;
        let n = tts.n_vq;
        if tts.audio_codebook_sizes.len() == 0 || n == usize::MAX {
            return false;
        }
        if !fits(1, n, tts.audio_codebook_sizes[0]) || !fits(1, 8, n) || !fits(1, 1, n + 1) {
            return false;
        }
        if self.gen_config.sample_mode != SampleMode::Fixed && (n == 0 || n >= 0x7fff_ffff) {
            return false;
        }
        let rate = Binary64::from_integer(self.app_config.codec_config.sample_rate as u64);
        let short_pause: u64 = rate.times(Binary64 { bits: 0x3fd9_9999_9999_999a }).to_whole();
        let long_pause: u64 = rate.times(Binary64 { bits: 0x3fce_b851_eb85_1eb8 }).to_whole();
        let channels: u64 = self.app_config.codec_config.channels as u64;
        proof {
            assert(short_pause * channels <= u128::MAX) by (nonlinear_arith)
                requires
                    short_pause <= u64::MAX,
                    channels <= u64::MAX,
            ;
            assert(long_pause * channels <= u128::MAX) by (nonlinear_arith)
                requires
                    long_pause <= u64::MAX,
                    channels <= u64::MAX,
            ;
            assert(0 <= short_pause * channels) by (nonlinear_arith);
            assert(0 <= long_pause * channels) by (nonlinear_arith);
        }
        (short_pause as u128) * (channels as u128) <= usize::MAX as u128 && (long_pause as u128) * (
        channels as u128) <= usize::MAX as u128
    }

    /// Starts to synthesize speech from text, to be given out in pieces as they
    /// are decoded. Text that is blank is refused.
    pub fn synth_stream(&self, text: &str) -> (r: Result<Synthesis, TtsError>)
        requires
            self.wf(),
        ensures
            ({
                let chunks = chunks_of(
                    self.tokenizer@,
                    tts_text(text@),
                    self.voice_clone_max_text_tokens as nat,
                );
                match r {
                    Ok(s) => chunks.len() > 0 && s.wf(*self) && at_start(s@, chunks),
                    Err(e) => chunks.len() == 0 && (e matches TtsError::Config(m) && m@
                        == "empty text after normalization"@),
                }
            }),
    {
        let normalized = self.tokenizer.normalize_for_tts(text);
        let chunks = self.tokenizer.split_voice_clone_text(
            normalized.as_str(),
            self.voice_clone_max_text_tokens,
        );
        proof {
            assert(string_views(chunks@).len() == chunks@.len());
        }
        if chunks.len() == 0 {
            return Err(TtsError::Config("empty text after normalization".to_owned()));
        }
        let s = Synthesis {
            chunks,
            index: 0,
            phase: Phase::Prefill,
            emitted: 0,
            started: false,
            rng: create_numpy_compatible_rng(self.seed),
            detector: EndOfSpeechDetector::new(8),
            tracker: Tracker::new(self.app_config.tts_config.n_vq),
            step: 0,
            past: 0,
            frame: Vec::new(),
            pending: Vec::new(),
        };
        proof {
            assert(rows_of(s.pending@) == Seq::<Seq<i32>>::empty());
        }
        Ok(s)
    }

    /// The rows of the input for the chunk that a synthesis stands at.
    pub open spec fn chunk_rows(self, v: SynthView) -> Seq<Seq<i32>> {
        input_rows(
            ids_of(self.tokenizer@, v.chunks[v.index as int]),
            self.ref_codes,
            self.app_config.tts_config,
            self.app_config.prompt_templates,
        )
    }

    /// The input of the prefill model for the chunk that a synthesis stands at.
    /// There is none if the reference codes lack channels, or the rows would
    /// take up too much room.
    #[verifier::rlimit(50)]
    pub fn prefill_input(&self, s: &Synthesis) -> (r: Option<Tensor3>)
        requires
            self.wf(),
            s.wf(*self),
        ensures
            match r {
                Some(t) => codes_fit(self.ref_codes, self.n_vq()) && holds_rows(
                    t,
                    self.chunk_rows(s@),
                    self.n_vq() + 1,
                ),
                None => !codes_fit(self.ref_codes, self.n_vq()) || self.n_vq() == usize::MAX
                    || !has_room(1, self.chunk_rows(s@).len(), self.n_vq() + 1),
            },
    {
        let n = self.app_config.tts_config.n_vq;
        if let Some(codes) = &self.ref_codes {
            let (batch, frames, channels) = codes.shape();
            if batch < 1 || channels < n {
                return None;
            }
        }
        if n == usize::MAX {
            return None;
        }
        proof {
            assert(s@.chunks.len() == s.chunks@.len());
        }
        let text = s.chunks[s.index].as_str();
        proof {
            assert(text@ == s@.chunks[s.index as int]);
        }
        let token_ids = self.tokenizer.encode(text);
        let codes = match &self.ref_codes {
            Some(codes) => Some(codes),
            None => None,
        };
        let rows = gather_rows(
            token_ids.as_slice(),
            codes,
            &self.app_config.tts_config,
            &self.app_config.prompt_templates,
        );
        proof {
            assert(rows@.len() == rows_of(rows@).len());
        }
        if !fits(1, rows.len(), n + 1) {
            return None;
        }
        Some(Tensor3::from_rows(&rows, n + 1))
    }
}

/// The first error among the items of a stream.
pub open spec fn first_error<T, E>(items: Seq<Result<Vec<T>, E>>) -> Option<E>
    decreases items.len(),
{
    if items.len() == 0 {
        None
    } else {
        match items[0] {
            Err(e) => Some(e),
            Ok(_) => first_error(items.drop_first()),
        }
    }
}

/// The samples of a stream's items, one item after the other.
pub open spec fn all_samples<T, E>(items: Seq<Result<Vec<T>, E>>) -> Seq<T>
    decreases items.len(),
{
    if items.len() == 0 {
        Seq::empty()
    } else {
        match items[0] {
            Err(_) => all_samples(items.drop_first()),
            Ok(chunk) => chunk@ + all_samples(items.drop_first()),
        }
    }
}

/// What is synthesized as a whole, given the items of the stream: the first
/// error, if there is one; else all samples in their order, and the error
/// `no_audio` if there are none.
pub fn synth<T, E>(items: Vec<Result<Vec<T>, E>>, no_audio: E) -> (r: Result<Vec<T>, E>)
    ensures
        match first_error(items@) {
            Some(e) => r == Err::<Vec<T>, E>(e),
            None => if all_samples(items@).len() == 0 {
                r == Err::<Vec<T>, E>(no_audio)
            } else {
                r matches Ok(samples) && samples@ == all_samples(items@)
            },
        },
{
    let ghost all = items@;
    let mut rest = items;
    let mut samples: Vec<T> = Vec::new();
    proof {
        assert(samples@ + all_samples(rest@) == all_samples(all));
    }
    while rest.len() > 0
        invariant
            all == items@,
            first_error(rest@) == first_error(all),
            samples@ + all_samples(rest@) == all_samples(all),
        decreases rest.len(),
    {
        let ghost before = rest@;
        let ghost so_far = samples@;
        let item = rest.remove(0);
        proof {
            assert(rest@ == before.drop_first());
        }
        match item {
            Ok(chunk) => {
                let mut chunk = chunk;
                samples.append(&mut chunk);
                proof {
                    assert(so_far + (before[0]->Ok_0@ + all_samples(rest@)) == samples@
                        + all_samples(rest@));
                }
            },
            Err(e) => {
                return Err(e);
            },
        }
    }
    proof {
        assert(samples@ + Seq::<T>::empty() == samples@);
    }
    if samples.len() == 0 {
        Err(no_audio)
    } else {
        Ok(samples)
    }
}

proof fn lemma_pushed_none_empty(d: DetectorView, frame: Seq<i32>)
    requires
        none_empty(d.recent),
        frame.len() > 0,
    ensures
        none_empty(pushed(d, frame)),
        forall|step: nat| none_empty(#[trigger] after_frame(d, frame, step).recent),
{
    let all = d.recent.push(frame);
    assert forall|i: int| 0 <= i < all.len() implies (#[trigger] all[i]).len() > 0 by {
        if i < d.recent.len() {
            assert(all[i] == d.recent[i]);
        }
    }
    assert forall|i: int| 0 <= i < pushed(d, frame).len() implies (
    #[trigger] pushed(d, frame)[i]).len() > 0 by {
        if all.len() > d.window {
            assert(pushed(d, frame)[i] == all[i + 1]);
        }
    }
}

proof fn lemma_has_first_tokens(d: DetectorView, frame: Seq<i32>)
    requires
        none_empty(d.recent),
        frame.len() > 0,
    ensures
        has_first_tokens(d, frame),
{
    lemma_pushed_none_empty(d, frame);
}

} // verus!
