//! Generating frames of audio tokens.

use crate::config::{GenerationConfig, TtsModelConfig};
use crate::float::number::{Binary32, Binary64};
use crate::models::short;
use crate::rng::{Random, RngView};
use crate::sampling::{
    apply_repetition_penalty, are_ready, candidate_scores, channel_logits, is_assistant_pick,
    is_audio_token, ready, repeats, sample_assistant_text_token, sample_audio_token,
    slice_audio_channel_logits, with_penalty, SamplingConfig,
};
use crate::tensor::{has_room, tensor_cells, tensor_shape, Tensor3};
use std::collections::HashSet;
use vstd::prelude::*;

verus! {

broadcast use vstd::std_specs::hash::group_hash_axioms;

// --- The tokens of before ---

/// The tokens of before, by channel, and which of them there are.
pub struct Tracker {
    tokens: Vec<Vec<i32>>,
    sets: Vec<HashSet<i32>>,
}

impl View for Tracker {
    type V = Seq<Seq<i32>>;

    closed spec fn view(&self) -> Seq<Seq<i32>> {
        self.tokens@.map_values(|v: Vec<i32>| v@)
    }
}

/// The tokens by channel with those of a frame.
pub open spec fn recorded(tokens: Seq<Seq<i32>>, frame: Seq<i32>) -> Seq<Seq<i32>> {
    Seq::new(
        tokens.len(),
        |ch: int|
            if ch < frame.len() {
                tokens[ch].push(frame[ch])
            } else {
                tokens[ch]
            },
    )
}

/// No tokens in any channel.
pub open spec fn no_tokens(n: nat) -> Seq<Seq<i32>> {
    Seq::new(n, |ch: int| Seq::empty())
}

impl Tracker {
    /// For each channel there is the set of its tokens.
    pub closed spec fn wf(self) -> bool {
        &&& self.sets@.len() == self.tokens@.len()
        &&& forall|ch: int|
            0 <= ch < self.sets@.len() ==> (#[trigger] self.sets@[ch])@
                == self.tokens@[ch]@.to_set()
    }

    pub fn new(n: usize) -> (r: Self)
        ensures
            r.wf(),
            r@ == no_tokens(n as nat),
    {
        let mut tokens: Vec<Vec<i32>> = Vec::new();
        let mut sets: Vec<HashSet<i32>> = Vec::new();
        let mut i: usize = 0;
        while i < n
            invariant
                i <= n,
                tokens@.len() == i,
                sets@.len() == i,
                forall|j: int| 0 <= j < i ==> (#[trigger] tokens@[j])@ == Seq::<i32>::empty(),
                forall|j: int|
                    0 <= j < i ==> (#[trigger] sets@[j])@ == Seq::<i32>::empty().to_set(),
            decreases n - i,
        {
            let list: Vec<i32> = Vec::new();
            let set: HashSet<i32> = HashSet::new();
            proof {
                assert(set@ == Seq::<i32>::empty().to_set());
            }
            tokens.push(list);
            sets.push(set);
            i = i + 1;
        }
        let r = Tracker { tokens, sets };
        proof {
            assert(r@ == no_tokens(n as nat));
        }
        r
    }

    pub fn len(&self) -> (n: usize)
        ensures
            n == self@.len(),
    {
        self.tokens.len()
    }

    /// The tokens of a channel.
    pub fn tokens(&self, ch: usize) -> (r: &Vec<i32>)
        requires
            ch < self@.len(),
        ensures
            r@ == self@[ch as int],
    {
        &self.tokens[ch]
    }

    /// Which tokens a channel has had.
    pub fn set(&self, ch: usize) -> (r: &HashSet<i32>)
        requires
            self.wf(),
            ch < self@.len(),
        ensures
            r@ == self@[ch as int].to_set(),
    {
        &self.sets[ch]
    }

    /// Takes note of a token in a channel.
    pub fn record(&mut self, ch: usize, token: i32)
        requires
            old(self).wf(),
            ch < old(self)@.len(),
        ensures
            final(self).wf(),
            final(self)@ == old(self)@.update(ch as int, old(self)@[ch as int].push(token)),
    {
        let ghost before = *self;
        self.tokens[ch].push(token);
        self.sets[ch].insert(token);
        proof {
            let list = before.tokens@[ch as int]@;
            assert(list.push(token).to_set() == list.to_set().insert(token)) by {
                assert forall|t: i32| list.push(token).contains(t) <==> list.to_set().insert(
                    token,
                ).contains(t) by {
                    if list.contains(t) {
                        let k = choose|k: int| 0 <= k < list.len() && list[k] == t;
                        assert(list.push(token)[k] == t);
                    }
                    assert(list.push(token)[list.len() as int] == token);
                    if list.push(token).contains(t) && t != token {
                        let k = choose|k: int|
                            0 <= k < list.push(token).len() && list.push(token)[k] == t;
                        assert(list[k] == t);
                    }
                }
            }
            assert(self@ == before@.update(ch as int, before@[ch as int].push(token)));
        }
    }

    /// Takes note of a frame, a token in each channel.
    pub fn record_frame(&mut self, frame: &[i32])
        requires
            old(self).wf(),
            frame@.len() <= old(self)@.len(),
        ensures
            final(self).wf(),
            final(self)@ == recorded(old(self)@, frame@),
    {
        let ghost before = self@;
        let mut ch: usize = 0;
        proof {
            assert(recorded(before, frame@.take(0)) == before);
        }
        while ch < frame.len()
            invariant
                ch <= frame@.len() <= before.len(),
                self.wf(),
                self@ == recorded(before, frame@.take(ch as int)),
            decreases frame.len() - ch,
        {
            self.record(ch, frame[ch]);
            proof {
                assert(self@ == recorded(before, frame@.take(ch + 1)));
            }
            ch = ch + 1;
        }
        proof {
            assert(frame@.take(ch as int) == frame@);
        }
    }
}

// --- A frame by one call ---

/// Whether a tensor marks the tokens of before, by channel and token.
pub open spec fn marks_repetition(mask: Tensor3, tokens: Seq<Seq<i32>>, codebook: nat) -> bool {
    &&& tensor_shape(mask) == (1nat, tokens.len(), codebook)
    &&& forall|ch: nat, id: nat|
        ch < tokens.len() && id < codebook ==> #[trigger] tensor_cells(mask)[(0nat, ch, id)]
            == if repeats(tokens[ch as int], id as int) {
            1i32
        } else {
            0i32
        }
}

/// The mask of the tokens of before.
#[verifier::rlimit(50)]
pub fn repetition_mask(tracker: &Tracker, codebook: usize) -> (mask: Tensor3)
    requires
        tracker.wf(),
        has_room(1, tracker@.len(), codebook as nat),
    ensures
        marks_repetition(mask, tracker@, codebook as nat),
{
    let n = tracker.len();
    let mut mask = Tensor3::new(1, n, codebook);
    let ghost tokens = tracker@;
    let mut ch: usize = 0;
    while ch < n
        invariant
            tracker.wf(),
            tokens == tracker@,
            ch <= n == tokens.len(),
            tensor_shape(mask) == (1nat, n as nat, codebook as nat),
            forall|c: nat, id: nat|
                c < ch && id < codebook ==> #[trigger] tensor_cells(mask)[(0nat, c, id)]
                    == if repeats(tokens[c as int], id as int) {
                    1i32
                } else {
                    0i32
                },
            forall|c: nat, id: nat|
                ch <= c < n && id < codebook ==> #[trigger] tensor_cells(mask)[(0nat, c, id)] == 0,
        decreases n - ch,
    {
        let set = tracker.set(ch);
        let mut id: usize = 0;
        while id < codebook
            invariant
                tokens == tracker@,
                ch < n == tokens.len(),
                id <= codebook,
                set@ == tokens[ch as int].to_set(),
                tensor_shape(mask) == (1nat, n as nat, codebook as nat),
                forall|c: nat, i: nat|
                    c < ch && i < codebook ==> #[trigger] tensor_cells(mask)[(0nat, c, i)]
                        == if repeats(tokens[c as int], i as int) {
                        1i32
                    } else {
                        0i32
                    },
                forall|i: nat|
                    i < id ==> #[trigger] tensor_cells(mask)[(0nat, ch as nat, i)] == if repeats(
                        tokens[ch as int],
                        i as int,
                    ) {
                        1i32
                    } else {
                        0i32
                    },
                forall|i: nat|
                    id <= i < codebook ==> #[trigger] tensor_cells(mask)[(0nat, ch as nat, i)] == 0,
                forall|c: nat, i: nat|
                    ch < c < n && i < codebook ==> #[trigger] tensor_cells(mask)[(0nat, c, i)] == 0,
            decreases codebook - id,
        {
            let seen = id <= 0x7fff_ffff && set.contains(&(id as i32));
            proof {
                let list = tokens[ch as int];
                assert(seen == repeats(list, id as int)) by {
                    if id <= 0x7fff_ffff && list.contains(id as i32) {
                        let k = choose|k: int| 0 <= k < list.len() && list[k] == id as i32;
                        assert(list[k] == id as int);
                    }
                    if repeats(list, id as int) {
                        let k = choose|k: int|
                            0 <= k < list.len() && #[trigger] list[k] == id as int;
                        assert(list.contains(id as i32));
                    }
                }
            }
            if seen {
                mask.set(0, ch, id, 1);
            }
            id = id + 1;
        }
        ch = ch + 1;
    }
    mask
}

/// The greatest random number that is handed to the model in the assistant's place.
pub open spec fn limit32() -> Binary32 {
    Binary32 { bits: 0x3f7f_ffff }
}

/// The greatest random number before it is narrowed: 0.99999994.
pub open spec fn limit64() -> Binary64 {
    Binary64 { bits: 0x3fef_ffff_dfc9_a9ad }
}

pub open spec fn clamped32(x: Binary32) -> Binary32 {
    if (Binary32 { bits: 0 }).gt(x) {
        Binary32 { bits: 0 }
    } else if x.gt(limit32()) {
        limit32()
    } else {
        x
    }
}

pub open spec fn clamped64(x: Binary64) -> Binary64 {
    if (Binary64 { bits: 0 }).gt(x) {
        Binary64 { bits: 0 }
    } else if x.gt(limit64()) {
        limit64()
    } else {
        x
    }
}

/// The random number for the assistant's choice.
pub open spec fn assistant_random(rng: RngView) -> Binary32 {
    clamped32(rng.fraction24())
}

/// The random numbers for the channels, after the one for the assistant.
pub open spec fn audio_random(rng: RngView, n: nat) -> Seq<Binary32> {
    Seq::new(n, |i: int| clamped64(rng.after((i + 1) as nat).fraction53()).narrow_spec())
}

/// What a call for a whole frame takes.
pub struct FrameRequest {
    pub repetition_seen_mask: Tensor3,
    pub assistant_random_u: Binary32,
    pub audio_random_u: Vec<Binary32>,
}

fn clamp32(x: Binary32) -> (r: Binary32)
    ensures
        r == clamped32(x),
{
    let low = Binary32 { bits: 0 };
    let high = Binary32 { bits: 0x3f7f_ffff };
    if low.exceeds(x) {
        low
    } else if x.exceeds(high) {
        high
    } else {
        x
    }
}

fn clamp64(x: Binary64) -> (r: Binary64)
    ensures
        r == clamped64(x),
{
    let low = Binary64 { bits: 0 };
    let high = Binary64 { bits: 0x3fef_ffff_dfc9_a9ad };
    if low.exceeds(x) {
        low
    } else if x.exceeds(high) {
        high
    } else {
        x
    }
}

/// Prepares a single frame in fixed sampling mode: the mask of the tokens of
/// before, and a random number for the assistant and for each channel.
pub fn generate_frame_fixed(tracker: &Tracker, codebook: usize, rng: &mut Random) -> (r:
    FrameRequest)
    requires
        tracker.wf(),
        has_room(1, tracker@.len(), codebook as nat),
    ensures
        marks_repetition(r.repetition_seen_mask, tracker@, codebook as nat),
        r.assistant_random_u == assistant_random(old(rng)@),
        r.audio_random_u@ == audio_random(old(rng)@, tracker@.len()),
        final(rng)@ == old(rng)@.after(tracker@.len() + 1),
{
    let n = tracker.len();
    let repetition_seen_mask = repetition_mask(tracker, codebook);
    let ghost start = rng@;
    let assistant_random_u = clamp32(rng.draw24());
    let mut audio_random_u: Vec<Binary32> = Vec::new();
    let mut i: usize = 0;
    proof {
        assert(start.after(0) == start);
        assert(start.after(1) == start.next());
    }
    while i < n
        invariant
            i <= n,
            rng@ == start.after((i + 1) as nat),
            audio_random_u@.len() == i,
            forall|j: int|
                0 <= j < i ==> #[trigger] audio_random_u@[j] == clamped64(
                    start.after((j + 1) as nat).fraction53(),
                ).narrow_spec(),
        decreases n - i,
    {
        let raw = rng.draw53();
        audio_random_u.push(clamp64(raw).narrow());
        proof {
            assert(start.after((i + 2) as nat) == start.after((i + 1) as nat).next());
        }
        i = i + 1;
    }
    proof {
        assert(audio_random_u@ == audio_random(start, n as nat));
    }
    FrameRequest { repetition_seen_mask, assistant_random_u, audio_random_u }
}

/// The frame that came back, if speech goes on.
pub open spec fn frame_if(should_continue: bool, frame: Seq<i32>) -> Option<Seq<i32>> {
    if should_continue {
        Some(frame)
    } else {
        None
    }
}

// --- A frame channel by channel ---

/// What a step of the local model takes.
#[derive(Debug, Clone, Copy, PartialEq, Eq, Structural)]
pub struct LocalRequest {
    pub text_token_id: i32,
    pub audio_token_id: i32,
    pub channel_index: i32,
    pub step_type: i32,
    pub past_valid_lengths: i32,
}

/// The step that asks for the assistant's token.
pub open spec fn opening_request() -> LocalRequest {
    LocalRequest {
        text_token_id: 0,
        audio_token_id: 0,
        channel_index: 0,
        step_type: 0,
        past_valid_lengths: 0,
    }
}

/// The step that asks for the first channel.
pub open spec fn first_channel_request(text_token: i32) -> LocalRequest {
    LocalRequest {
        text_token_id: text_token,
        audio_token_id: 0,
        channel_index: 0,
        step_type: 1,
        past_valid_lengths: 1,
    }
}

/// The step that asks for the channel behind `channel`, whose token is given.
pub open spec fn next_channel_request(channel: int, token: i32) -> LocalRequest {
    LocalRequest {
        text_token_id: 0,
        audio_token_id: token,
        channel_index: channel as i32,
        step_type: 2,
        past_valid_lengths: (channel + 2) as i32,
    }
}

/// The step that a frame starts with.
pub fn opening_step() -> (r: LocalRequest)
    ensures
        r == opening_request(),
{
    LocalRequest {
        text_token_id: 0,
        audio_token_id: 0,
        channel_index: 0,
        step_type: 0,
        past_valid_lengths: 0,
    }
}

/// Whether the assistant's token can be picked by logits.
pub open spec fn can_open<F: Fn(Binary64) -> Binary64>(
    exp: F,
    logits: Seq<Binary32>,
    config: TtsModelConfig,
    sampling: SamplingConfig,
) -> bool {
    &&& forall|x: Binary64| call_requires(exp, (x,))
    &&& ready_to_open(logits, config, sampling)
}

/// Whether the logits of both of the assistant's tokens are there, and can be
/// compared.
pub open spec fn ready_to_open(
    logits: Seq<Binary32>,
    config: TtsModelConfig,
    sampling: SamplingConfig,
) -> bool {
    let slot = short(config.audio_assistant_slot_token_id);
    let end = short(config.audio_end_token_id);
    &&& 0 <= slot < logits.len()
    &&& 0 <= end < logits.len()
    &&& are_ready(
        candidate_scores(logits, slot, end),
        sampling.do_sample,
        sampling.text_temperature,
    )
}

/// Whether the assistant's token can be picked by logits.
pub fn is_ready_to_open(
    logits: &[Binary32],
    config: &TtsModelConfig,
    sampling: &SamplingConfig,
) -> (r: bool)
    ensures
        r == ready_to_open(logits@, *config, *sampling),
{
    let slot: i32 = #[verifier::truncate]
    (config.audio_assistant_slot_token_id as i32);
    let end: i32 = #[verifier::truncate]
    (config.audio_end_token_id as i32);
    if slot < 0 || end < 0 || slot as usize >= logits.len() || end as usize >= logits.len() {
        return false;
    }
    let mut scores: Vec<Binary32> = Vec::new();
    scores.push(logits[slot as usize]);
    scores.push(logits[end as usize]);
    proof {
        assert(scores@ == candidate_scores(logits@, slot, end));
    }
    ready(scores.as_slice(), sampling.do_sample, sampling.text_temperature)
}

/// Picks the assistant's token. The frame goes on with its first channel if it
/// is the slot for audio, and else there is no frame.
pub fn open_frame<F: Fn(Binary64) -> Binary64>(
    text_logits: &[Binary32],
    config: &TtsModelConfig,
    sampling: &SamplingConfig,
    rng: &mut Random,
    exp: &F,
) -> (r: Option<LocalRequest>)
    requires
        can_open(*exp, text_logits@, *config, *sampling),
    ensures
        exists|token: i32|
            #[trigger] is_assistant_pick(
                *exp,
                text_logits@,
                short(config.audio_assistant_slot_token_id),
                short(config.audio_end_token_id),
                *sampling,
                old(rng)@.fraction23(),
                token,
            ) && r == if token == short(config.audio_assistant_slot_token_id) {
                Some(first_channel_request(token))
            } else {
                None
            },
        final(rng)@ == if sampling.do_sample {
            old(rng)@.next()
        } else {
            old(rng)@
        },
{
    let slot: i32 = #[verifier::truncate]
    (config.audio_assistant_slot_token_id as i32);
    let end: i32 = #[verifier::truncate]
    (config.audio_end_token_id as i32);
    let token = sample_assistant_text_token(text_logits, slot, end, sampling, rng, exp);
    if token != slot {
        None
    } else {
        Some(
            LocalRequest {
                text_token_id: token,
                audio_token_id: 0,
                channel_index: 0,
                step_type: 1,
                past_valid_lengths: 1,
            },
        )
    }
}

/// Whether a channel's token can be picked by logits.
pub open spec fn can_fill<F: Fn(Binary64) -> Binary64>(
    exp: F,
    logits: Seq<Binary32>,
    channel: nat,
    tokens: Seq<Seq<i32>>,
    sampling: SamplingConfig,
) -> bool {
    &&& forall|x: Binary64| call_requires(exp, (x,))
    &&& ready_to_fill(logits, channel, tokens, sampling)
}

/// Whether a channel's logits are there, and can be compared if they are
/// sampled from.
pub open spec fn ready_to_fill(
    logits: Seq<Binary32>,
    channel: nat,
    tokens: Seq<Seq<i32>>,
    sampling: SamplingConfig,
) -> bool {
    &&& channel < tokens.len()
    &&& sampling.do_sample ==> are_ready(
        with_penalty(
            channel_logits(logits, channel, tokens.len()),
            tokens[channel as int],
            sampling.audio_repetition_penalty,
        ),
        true,
        sampling.audio_temperature,
    )
}

proof fn lemma_channel_is_there(len: nat, channel: nat, n: nat)
    requires
        channel < n,
    ensures
        (channel + 1) * (len / n) <= len,
{
    let per = len / n;
    vstd::arithmetic::div_mod::lemma_fundamental_div_mod(len as int, n as int);
    vstd::arithmetic::div_mod::lemma_mod_bound(len as int, n as int);
    assert((channel + 1) * per <= n * per) by (nonlinear_arith)
        requires
            channel + 1 <= n,
    ;
}

/// Whether a channel's token can be picked by logits.
pub fn is_ready_to_fill(
    logits: &[Binary32],
    channel: usize,
    tracker: &Tracker,
    sampling: &SamplingConfig,
) -> (r: bool)
    ensures
        r == ready_to_fill(logits@, channel as nat, tracker@, *sampling),
{
    let n = tracker.len();
    if channel >= n {
        return false;
    }
    if !sampling.do_sample {
        return true;
    }
    proof {
        lemma_channel_is_there(logits@.len(), channel as nat, n as nat);
    }
    let own = slice_audio_channel_logits(logits, channel, n);
    let scores = apply_repetition_penalty(
        own.as_slice(),
        tracker.tokens(channel).as_slice(),
        sampling.audio_repetition_penalty,
    );
    ready(scores.as_slice(), true, sampling.audio_temperature)
}

/// Picks the token of a channel, and takes note of it.
pub fn fill_channel<F: Fn(Binary64) -> Binary64>(
    audio_logits: &[Binary32],
    channel: usize,
    tracker: &mut Tracker,
    sampling: &SamplingConfig,
    rng: &mut Random,
    exp: &F,
) -> (token: i32)
    requires
        old(tracker).wf(),
        can_fill(*exp, audio_logits@, channel as nat, old(tracker)@, *sampling),
    ensures
        final(tracker).wf(),
        is_audio_token(
            *exp,
            channel_logits(audio_logits@, channel as nat, old(tracker)@.len()),
            old(tracker)@[channel as int],
            old(tracker)@[channel as int].to_set(),
            *sampling,
            old(rng)@.fraction23(),
            token,
        ),
        final(tracker)@ == old(tracker)@.update(
            channel as int,
            old(tracker)@[channel as int].push(token),
        ),
        final(rng)@ == if sampling.do_sample {
            old(rng)@.next()
        } else {
            old(rng)@
        },
{
    proof {
        lemma_channel_is_there(audio_logits@.len(), channel as nat, tracker@.len());
    }
    let logits = slice_audio_channel_logits(audio_logits, channel, tracker.len());
    let token = sample_audio_token(
        logits.as_slice(),
        tracker.tokens(channel).as_slice(),
        tracker.set(channel),
        sampling,
        rng,
        exp,
    );
    tracker.record(channel, token);
    token
}

/// The settings of sampling in a configuration.
pub open spec fn sampling_of(c: GenerationConfig) -> SamplingConfig {
    SamplingConfig {
        text_temperature: c.text_temperature,
        text_top_p: c.text_top_p,
        text_top_k: c.text_top_k,
        audio_temperature: c.audio_temperature,
        audio_top_p: c.audio_top_p,
        audio_top_k: c.audio_top_k,
        audio_repetition_penalty: c.audio_repetition_penalty,
        do_sample: c.do_sample,
    }
}

pub fn sampling_config_from_gen_config(gen_config: &GenerationConfig) -> (r: SamplingConfig)
    ensures
        r == sampling_of(*gen_config),
{
    SamplingConfig {
        text_temperature: gen_config.text_temperature,
        text_top_p: gen_config.text_top_p,
        text_top_k: gen_config.text_top_k,
        audio_temperature: gen_config.audio_temperature,
        audio_top_p: gen_config.audio_top_p,
        audio_top_k: gen_config.audio_top_k,
        audio_repetition_penalty: gen_config.audio_repetition_penalty,
        do_sample: gen_config.do_sample,
    }
}

} // verus!
