//! What each step of a synthesis goes by.

use crate::codec::frame_budget;
use crate::config::GenerationConfig;
use crate::float::number::{Binary32, Binary64};
use crate::generation::{
    assistant_random, audio_random, clamped32, clamped64, marks_repetition, sampling_of,
};
use crate::models::{first_column_is_the_dialogue, reference_frames, short};
use crate::rng::{seeded, RngView};
use crate::sampling::{channel_logits, greedy_scores, is_audio_pick, is_first_best, repeats};
use crate::speech_end::ends_speech;
use crate::synth_laws::{
    all_awaited, all_taken_up, course, fed_back, is_awaited, next, step_after, taken_up, Event,
};
use crate::synthesis::{
    after_advance, after_decode, after_filling, after_opening, after_prefill, all_samples,
    first_error, picks_filling, take_frame, MossTtsNano, Phase, StepView, SynthView,
};
use crate::tensor::{tensor_cells, Tensor3};
use crate::tokenizer::ids_of;
use crate::whitespace::words;
use vstd::prelude::*;

verus! {

// --- Decoding ---

/// A frame that speech goes on with is decoded, together with those that wait,
/// as soon as there are as many as the budget says, and then as many of them are
/// decoded. Until there has been audio, the time does not count.
pub proof fn decoding_goes_by_budget(
    e: MossTtsNano,
    v: SynthView,
    frame: Seq<i32>,
    elapsed: Binary64,
)
    requires
        !ends_speech(v.detector, frame, v.step),
    ensures
        ({
            let budget = frame_budget(
                v.emitted,
                e.rate(),
                if v.started {
                    Some(elapsed)
                } else {
                    None
                },
            );
            let (after, step) = take_frame(e, v, Some(frame), elapsed);
            if v.pending.len() + 1 >= budget {
                &&& step matches StepView::Decode(frames) && frames.len() == budget
                &&& after.pending.len() == v.pending.len() + 1 - budget
            } else {
                &&& step is Advance
                &&& after.pending == v.pending.push(frame)
            }
        }),
{
}

// --- The end of a chunk ---

/// Whether a step ends the frames of a chunk: what waits is decoded, and if
/// nothing does, a pause follows, or the end.
pub open spec fn ends_frames(v: SynthView, step: StepView) -> bool {
    if v.pending.len() > 0 {
        step == StepView::Decode(v.pending)
    } else {
        if v.index + 1 < v.chunks.len() {
            step is Pause
        } else {
            step is Finish
        }
    }
}

/// A chunk goes on frame by frame until it has the greatest number of them, and
/// not beyond.
pub proof fn frames_go_on_to_the_limit(e: MossTtsNano, v: SynthView)
    ensures
        ({
            let (after, step) = after_advance(e, v);
            &&& after.step == v.step + 1
            &&& if v.step + 1 >= e.gen_config.max_new_frames {
                ends_frames(v, step)
            } else if e.by_channel() {
                step is Local && after.phase == Phase::Opening
            } else {
                step is Frame && after.phase == Phase::Frame
            }
        }),
{
}

/// A chunk is over when the assistant's token is not the one for another frame,
/// when the model says so, or when a frame tells the end of speech; and a frame
/// that does is not spoken.
pub proof fn speech_ends_a_chunk(
    e: MossTtsNano,
    v: SynthView,
    token: i32,
    frame: Seq<i32>,
    elapsed: Binary64,
)
    ensures
        ({
            let slot = short(e.app_config.tts_config.audio_assistant_slot_token_id);
            let opened = after_opening(e, v, token, elapsed).1;
            if token == slot {
                opened is Local
            } else {
                ends_frames(v, opened)
            }
        }),
        ends_frames(v, take_frame(e, v, None, elapsed).1),
        ends_speech(v.detector, frame, v.step) ==> ends_frames(
            v,
            take_frame(e, v, Some(frame), elapsed).1,
        ),
{
}

/// Between two chunks there is a pause, in every channel: one of 0.40 seconds
/// behind up to four words, and else of 0.24 seconds. Behind the last chunk there
/// is none.
pub proof fn chunks_are_apart(e: MossTtsNano, v: SynthView, audio_length: nat)
    requires
        v.phase == Phase::Flush,
    ensures
        ({
            let step = after_decode(e, v, audio_length).1;
            let text = v.chunks[v.index as int];
            let rate = Binary64::of(e.rate());
            let long = Binary64 { bits: 0x3fd9_9999_9999_999a };
            let brief = Binary64 { bits: 0x3fce_b851_eb85_1eb8 };
            let seconds = if words(text) <= 4 {
                long
            } else {
                brief
            };
            if v.index + 1 < v.chunks.len() {
                step == StepView::Pause(
                    crate::float::arith::whole(
                        crate::float::format::binary64(),
                        rate.mul_spec(seconds).signed(),
                    ) * e.channels(),
                )
            } else {
                step is Finish
            }
        }),
{
}

// --- What has been said before ---

/// Whether one of the frames has a token in a channel.
pub open spec fn has_token(frames: Seq<Seq<i32>>, ch: int, t: i32) -> bool {
    exists|i: int| 0 <= i < frames.len() && ch < #[trigger] frames[i].len() && frames[i][ch] == t
}

/// Whether the tokens that are kept are those of the frames of the chunk, and of
/// the frame that is being made.
spec fn remembers_tokens(e: MossTtsNano, v: SynthView, frames: Seq<Seq<i32>>) -> bool {
    let making = v.phase == Phase::Filling;
    &&& v.tokens.len() == e.n_vq()
    &&& making ==> v.frame.len() < e.n_vq()
    &&& v.phase == Phase::Opening ==> v.frame.len() == 0
    &&& is_making(v.phase) ==> forall|ch: int, t: i32|
        0 <= ch < e.n_vq() ==> (#[trigger] v.tokens[ch].contains(t) == (has_token(frames, ch, t)
            || making && ch < v.frame.len() && v.frame[ch] == t))
}

/// Whether the frames of a chunk go on.
spec fn is_making(phase: Phase) -> bool {
    ||| phase == Phase::Frame
    ||| phase == Phase::Opening
    ||| phase == Phase::Filling
    ||| phase == Phase::Decode
    ||| phase == Phase::Advance
}

proof fn lemma_has_token_push(frames: Seq<Seq<i32>>, f: Seq<i32>, ch: int, t: i32)
    requires
        0 <= ch,
    ensures
        has_token(frames.push(f), ch, t) == (has_token(frames, ch, t) || ch < f.len() && f[ch]
            == t),
{
    let all = frames.push(f);
    if has_token(frames, ch, t) {
        let i = choose|i: int|
            0 <= i < frames.len() && ch < #[trigger] frames[i].len() && frames[i][ch] == t;
        assert(all[i] == frames[i]);
    }
    if ch < f.len() && f[ch] == t {
        assert(all[frames.len() as int] == f);
    }
    if has_token(all, ch, t) {
        let i = choose|i: int|
            0 <= i < all.len() && ch < #[trigger] all[i].len() && all[i][ch] == t;
        if i < frames.len() {
            assert(frames[i] == all[i]);
        }
    }
}

proof fn lemma_push_contains(s: Seq<i32>, x: i32, t: i32)
    ensures
        s.push(x).contains(t) == (s.contains(t) || x == t),
{
    if s.contains(t) {
        let k = choose|k: int| 0 <= k < s.len() && s[k] == t;
        assert(s.push(x)[k] == t);
    }
    assert(s.push(x)[s.len() as int] == x);
    if s.push(x).contains(t) && x != t {
        let k = choose|k: int| 0 <= k < s.push(x).len() && s.push(x)[k] == t;
        assert(s[k] == t);
    }
}

/// A frame is taken up, of whose channels some may have been kept already.
#[verifier::rlimit(50)]
proof fn lemma_remembers_frame(
    e: MossTtsNano,
    v: SynthView,
    f: Seq<i32>,
    frames: Seq<Seq<i32>>,
    elapsed: Binary64,
)
    requires
        v.tokens.len() == e.n_vq(),
        forall|ch: int, t: i32|
            0 <= ch < e.n_vq() ==> (has_token(frames, ch, t) ==> #[trigger] v.tokens[ch].contains(
                t,
            )),
        forall|ch: int, t: i32|
            0 <= ch < e.n_vq() ==> (#[trigger] v.tokens[ch].contains(t) ==> has_token(
                frames,
                ch,
                t,
            ) || ch < f.len() && f[ch] == t),
        !ends_speech(v.detector, f, v.step),
    ensures
        remembers_tokens(e, take_frame(e, v, Some(f), elapsed).0, frames.push(f)),
{
    let after = take_frame(e, v, Some(f), elapsed).0;
    assert(after.phase == Phase::Decode || after.phase == Phase::Advance);
    assert(after.tokens == crate::generation::recorded(v.tokens, f));
    assert forall|ch: int, t: i32| 0 <= ch < e.n_vq() implies #[trigger] after.tokens[ch].contains(
        t,
    ) == has_token(frames.push(f), ch, t) by {
        lemma_has_token_push(frames, f, ch, t);
        if ch < f.len() {
            lemma_push_contains(v.tokens[ch], f[ch], t);
        }
        assert(v.tokens[ch].contains(t) || !v.tokens[ch].contains(t));
    }
}

#[verifier::rlimit(50)]
proof fn lemma_remembers_tokens(
    e: MossTtsNano,
    v: SynthView,
    event: Event,
    frames: Seq<Seq<i32>>,
)
    requires
        remembers_tokens(e, v, frames),
        is_awaited(v, event),
        e.by_channel() ==> e.n_vq() > 0,
        v.phase == Phase::Opening || v.phase == Phase::Filling ==> e.by_channel(),
        !(event is Paused) && !(event is Prefilled),
    ensures
        remembers_tokens(e, next(e, v, event).0, frames + taken_up(e, v, event)),
        ({
            let phase = next(e, v, event).0.phase;
            phase == Phase::Opening || phase == Phase::Filling ==> e.by_channel()
        }),
{
    let none = Seq::<Seq<i32>>::empty();
    assert(frames + none == frames);
    match event {
        Event::Made(frame, elapsed) => {
            match frame {
                Some(f) => {
                    assert(frames + seq![f] == frames.push(f));
                    if !ends_speech(v.detector, f, v.step) {
                        lemma_remembers_frame(e, v, f, frames, elapsed);
                    }
                },
                None => {},
            }
        },
        Event::Opened(token, elapsed) => {
            let after = after_opening(e, v, token, elapsed).0;
            assert(after.tokens == v.tokens);
            assert(remembers_tokens(e, after, frames));
        },
        Event::Filled(token, elapsed) => {
            let channel = v.frame.len() as int;
            let f = v.frame.push(token);
            let tokens = v.tokens.update(channel, v.tokens[channel].push(token));
            assert forall|ch: int, t: i32| 0 <= ch < e.n_vq() implies #[trigger] tokens[ch].contains(
                t,
            ) == (has_token(frames, ch, t) || ch < f.len() && f[ch] == t) by {
                lemma_push_contains(v.tokens[channel], token, t);
                assert(v.tokens[ch].contains(t) || !v.tokens[ch].contains(t));
            }
            let after = after_filling(e, v, token, elapsed).0;
            if channel + 1 < e.n_vq() {
                assert(remembers_tokens(e, after, frames));
            } else if !ends_speech(v.detector, f, v.step) {
                assert(frames + seq![f] == frames.push(f));
                let filled = SynthView {
                    rng: crate::synthesis::after_pick(e, v.rng),
                    tokens,
                    frame: f,
                    ..v
                };
                lemma_remembers_frame(e, filled, f, frames, elapsed);
            }
        },
        Event::Decoded(audio_length) => {
            assert(remembers_tokens(e, after_decode(e, v, audio_length).0, frames));
        },
        Event::Advanced => {
            assert(remembers_tokens(e, after_advance(e, v).0, frames));
        },
        _ => {},
    }
}

proof fn lemma_remembers_in_course(
    e: MossTtsNano,
    v: SynthView,
    seq_len: nat,
    events: Seq<Event>,
)
    requires
        all_awaited(e, after_prefill(e, v, seq_len).0, events),
        forall|i: int|
            0 <= i < events.len() ==> !(#[trigger] events[i] is Paused) && !(events[i] is Prefilled),
        e.by_channel() ==> e.n_vq() > 0,
    ensures
        ({
            let first = after_prefill(e, v, seq_len).0;
            let now = course(e, first, events);
            &&& remembers_tokens(e, now, all_taken_up(e, first, events))
            &&& now.phase == Phase::Opening || now.phase == Phase::Filling ==> e.by_channel()
        }),
    decreases events.len(),
{
    let first = after_prefill(e, v, seq_len).0;
    if events.len() > 0 {
        let front = events.drop_last();
        assert forall|i: int| 0 <= i < front.len() implies !(#[trigger] front[i] is Paused) && !(
        front[i] is Prefilled) by {
            assert(front[i] == events[i]);
        }
        lemma_remembers_in_course(e, v, seq_len, front);
        assert(!(events[events.len() - 1] is Paused));
        lemma_remembers_tokens(
            e,
            course(e, first, front),
            events.last(),
            all_taken_up(e, first, front),
        );
    } else {
        assert(all_taken_up(e, first, events) == Seq::<Seq<i32>>::empty());
        assert forall|ch: int, t: i32| 0 <= ch < e.n_vq() implies !(
        #[trigger] first.tokens[ch].contains(t)) && !has_token(Seq::empty(), ch, t) by {}
    }
}

/// A token counts as a repetition exactly if a frame of the same chunk has it in
/// the same channel: so it is with what goes to the model that makes whole
/// frames, and with what a channel's token is picked by.
pub proof fn repetition_is_within_a_channel_of_a_chunk(
    e: MossTtsNano,
    v: SynthView,
    seq_len: nat,
    events: Seq<Event>,
    t: i32,
)
    requires
        all_awaited(e, after_prefill(e, v, seq_len).0, events),
        forall|i: int|
            0 <= i < events.len() ==> !(#[trigger] events[i] is Paused) && !(events[i] is Prefilled),
        e.by_channel() ==> e.n_vq() > 0,
    ensures
        ({
            let now = course(e, after_prefill(e, v, seq_len).0, events);
            let frames = all_taken_up(e, after_prefill(e, v, seq_len).0, events);
            &&& step_after(e, v, seq_len, events) matches StepView::Frame { tokens, .. } ==> {
                &&& tokens.len() == e.n_vq()
                &&& forall|ch: int|
                    0 <= ch < e.n_vq() ==> #[trigger] tokens[ch].contains(t) == has_token(
                        frames,
                        ch,
                        t,
                    )
            }
            &&& now.phase == Phase::Filling ==> {
                let ch = now.frame.len() as int;
                ch < e.n_vq() && now.tokens[ch].contains(t) == has_token(frames, ch, t)
            }
        }),
{
    let first = after_prefill(e, v, seq_len).0;
    lemma_remembers_in_course(e, v, seq_len, events);
    let now = course(e, first, events);
    if events.len() > 0 {
        let front = events.drop_last();
        lemma_frame_step(e, course(e, first, front), events.last());
    }
    if now.phase == Phase::Filling {
        let ch = now.frame.len() as int;
        assert(now.tokens[ch].contains(t) == has_token(all_taken_up(e, first, events), ch, t));
    }
}

/// What goes to the model that makes whole frames is what is kept.
#[verifier::rlimit(50)]
proof fn lemma_frame_step(e: MossTtsNano, v: SynthView, event: Event)
    requires
        is_awaited(v, event),
    ensures
        next(e, v, event).1 matches StepView::Frame { tokens, .. } ==> tokens == next(
            e,
            v,
            event,
        ).0.tokens && next(e, v, event).0.phase == Phase::Frame,
{
}

// --- Random numbers ---

/// Going on twice is going on once, by as much.
pub proof fn numbers_go_on(rng: RngView, a: nat, b: nat)
    ensures
        rng.after(a).after(b) == rng.after(a + b),
    decreases b,
{
    if b > 0 {
        numbers_go_on(rng, a, (b - 1) as nat);
        assert(rng.after(a + b) == rng.after((a + b - 1) as nat).next());
    }
}

/// Each channel has a random number of its own, behind the one for the assistant:
/// the first channel's is the next but one, and what is the second's, and so on,
/// is the first's, and so on, one number further.
pub proof fn channels_have_their_own_numbers(rng: RngView, n: nat)
    ensures
        audio_random(rng, n).len() == n,
        n > 0 ==> audio_random(rng, n)[0] == clamped64(rng.next().fraction53()).narrow_spec(),
        audio_random(rng, n + 1).drop_first() == audio_random(rng.next(), n),
        assistant_random(rng) == clamped32(rng.fraction24()),
{
    if n > 0 {
        assert(rng.after(0) == rng);
        assert(rng.after(1) == rng.next());
    }
    assert forall|i: int| 0 <= i < n implies audio_random(rng, n + 1)[i + 1]
        == #[trigger] audio_random(rng.next(), n)[i] by {
        numbers_go_on(rng, 1, (i + 1) as nat);
        assert(rng.after(0) == rng);
        assert(rng.after(1) == rng.next());
    }
    assert(audio_random(rng, n + 1).drop_first() == audio_random(rng.next(), n));
}

/// How many tokens have been picked here.
pub open spec fn picks(events: Seq<Event>) -> nat
    decreases events.len(),
{
    if events.len() == 0 {
        0
    } else {
        picks(events.drop_last()) + if events.last() is Opened || events.last() is Filled {
            1nat
        } else {
            0
        }
    }
}

/// Where the random numbers of a chunk stand.
spec fn is_on_number(e: MossTtsNano, v: SynthView, fed: nat, picked: nat) -> bool {
    if e.by_channel() {
        &&& v.rng == seeded(e.seed).after(
            if e.gen_config.do_sample {
                picked
            } else {
                0
            },
        )
        &&& v.phase != Phase::Frame
    } else {
        &&& v.phase == Phase::Frame || v.phase == Phase::Decode || v.phase == Phase::Advance
            ==> v.rng == seeded(e.seed).after((fed + 1) * (e.n_vq() + 1))
        &&& v.phase != Phase::Opening && v.phase != Phase::Filling
    }
}

#[verifier::rlimit(50)]
proof fn lemma_on_number(e: MossTtsNano, v: SynthView, event: Event, fed: nat, picked: nat)
    requires
        is_on_number(e, v, fed, picked),
        is_awaited(v, event),
        !(event is Paused) && !(event is Prefilled),
    ensures
        is_on_number(
            e,
            next(e, v, event).0,
            fed + if event is Advanced {
                1nat
            } else {
                0
            },
            picked + if event is Opened || event is Filled {
                1nat
            } else {
                0
            },
        ),
        next(e, v, event).1 matches StepView::Frame { assistant_u, audio_u, .. } ==> {
            let rng = seeded(e.seed).after((fed + 1) * (e.n_vq() + 1));
            assistant_u == assistant_random(rng) && audio_u == audio_random(rng, e.n_vq())
        },
{
    let n = e.n_vq() + 1;
    let seed = seeded(e.seed);
    assert((fed + 1) * n + n == (fed + 1 + 1) * n) by (nonlinear_arith);
    numbers_go_on(seed, (fed + 1) * n, n);
    numbers_go_on(seed, picked, 1);
    assert(seed.after(picked + 1) == seed.after(picked).next());
    match event {
        Event::Made(frame, elapsed) => {
            assert(is_on_number(e, take_frame(e, v, frame, elapsed).0, fed, picked));
        },
        Event::Opened(token, elapsed) => {
            assert(is_on_number(e, after_opening(e, v, token, elapsed).0, fed, picked + 1));
        },
        Event::Filled(token, elapsed) => {
            assert(is_on_number(e, after_filling(e, v, token, elapsed).0, fed, picked + 1));
        },
        Event::Decoded(audio_length) => {
            assert(is_on_number(e, after_decode(e, v, audio_length).0, fed, picked));
        },
        Event::Advanced => {
            assert(is_on_number(e, after_advance(e, v).0, fed + 1, picked));
        },
        _ => {},
    }
}

proof fn lemma_on_number_in_course(
    e: MossTtsNano,
    v: SynthView,
    seq_len: nat,
    events: Seq<Event>,
)
    requires
        all_awaited(e, after_prefill(e, v, seq_len).0, events),
        forall|i: int|
            0 <= i < events.len() ==> !(#[trigger] events[i] is Paused) && !(events[i] is Prefilled),
    ensures
        is_on_number(
            e,
            course(e, after_prefill(e, v, seq_len).0, events),
            fed_back(events),
            picks(events),
        ),
    decreases events.len(),
{
    let first = after_prefill(e, v, seq_len).0;
    if events.len() > 0 {
        let front = events.drop_last();
        assert forall|i: int| 0 <= i < front.len() implies !(#[trigger] front[i] is Paused) && !(
        front[i] is Prefilled) by {
            assert(front[i] == events[i]);
        }
        lemma_on_number_in_course(e, v, seq_len, front);
        assert(!(events[events.len() - 1] is Paused));
        lemma_on_number(e, course(e, first, front), events.last(), fed_back(front), picks(front));
    } else {
        let n = e.n_vq() + 1;
        assert((0 + 1) * n == n);
    }
}

/// Each frame has random numbers of its own: the model that makes whole frames
/// is handed, for the frame behind `k` others, the number with which the seed
/// goes on behind `k` times one for the assistant and one for each channel, and
/// those behind it. Tokens that are picked here take one number each, if they
/// are sampled, and else none.
pub proof fn each_pick_takes_a_number(
    e: MossTtsNano,
    v: SynthView,
    seq_len: nat,
    events: Seq<Event>,
)
    requires
        all_awaited(e, after_prefill(e, v, seq_len).0, events),
        forall|i: int|
            0 <= i < events.len() ==> !(#[trigger] events[i] is Paused) && !(events[i] is Prefilled),
    ensures
        step_after(e, v, seq_len, events) matches StepView::Frame { assistant_u, audio_u, .. }
            ==> {
            let rng = seeded(e.seed).after(fed_back(events) * (e.n_vq() + 1));
            assistant_u == assistant_random(rng) && audio_u == audio_random(rng, e.n_vq())
        },
        e.by_channel() ==> course(e, after_prefill(e, v, seq_len).0, events).rng == seeded(
            e.seed,
        ).after(
            if e.gen_config.do_sample {
                picks(events)
            } else {
                0
            },
        ),
{
    let first = after_prefill(e, v, seq_len).0;
    lemma_on_number_in_course(e, v, seq_len, events);
    if events.len() > 0 {
        let front = events.drop_last();
        assert forall|i: int| 0 <= i < front.len() implies !(#[trigger] front[i] is Paused) && !(
        front[i] is Prefilled) by {
            assert(front[i] == events[i]);
        }
        assert(!(events[events.len() - 1] is Paused));
        lemma_on_number_in_course(e, v, seq_len, front);
        let now = course(e, first, front);
        lemma_on_number(e, now, events.last(), fed_back(front), picks(front));
        lemma_frame_comes_behind(e, now, events.last());
    } else {
        assert(0 * (e.n_vq() + 1) == 0);
        assert(seeded(e.seed).after(0) == seeded(e.seed));
    }
}

/// A frame is asked for at the start of a chunk and when one has been fed back.
#[verifier::rlimit(50)]
proof fn lemma_frame_comes_behind(e: MossTtsNano, v: SynthView, event: Event)
    requires
        is_awaited(v, event),
    ensures
        next(e, v, event).1 is Frame ==> event is Advanced || event is Prefilled,
{
}

// --- The text of a chunk ---

/// What is read for a chunk is its own text: down its first column the input has
/// the IDs of the chunk that the synthesis stands at, behind the prompt and the
/// reference audio, and before the start of the answer.
pub proof fn each_chunk_is_read_by_its_text(e: MossTtsNano, v: SynthView)
    ensures
        ({
            let config = e.app_config.tts_config;
            let templates = e.app_config.prompt_templates;
            let head = templates.user_prompt_prefix_token_ids@.len() + 2 + reference_frames(
                e.ref_codes,
            ) + templates.user_prompt_after_reference_token_ids@.len();
            let ids = ids_of(e.tokenizer@, v.chunks[v.index as int]);
            let column = e.chunk_rows(v).map_values(|r: Seq<i32>| r[0]);
            &&& column.len() == head + ids.len()
                + templates.assistant_prompt_prefix_token_ids@.len() + 1
            &&& column.subrange(head as int, (head + ids.len()) as int) == ids
            &&& column.skip((head + ids.len()) as int)
                == templates.assistant_prompt_prefix_token_ids@ + seq![
                short(config.audio_start_token_id),
            ]
        }),
{
    let config = e.app_config.tts_config;
    let templates = e.app_config.prompt_templates;
    let ids = ids_of(e.tokenizer@, v.chunks[v.index as int]);
    first_column_is_the_dialogue(ids, e.ref_codes, config, templates);
    let head = templates.user_prompt_prefix_token_ids@.len() + 2 + reference_frames(e.ref_codes)
        + templates.user_prompt_after_reference_token_ids@.len();
    let column = e.chunk_rows(v).map_values(|r: Seq<i32>| r[0]);
    assert(column.subrange(head as int, (head + ids.len()) as int) == ids);
    assert(column.skip((head + ids.len()) as int)
        == templates.assistant_prompt_prefix_token_ids@ + seq![
        short(config.audio_start_token_id),
    ]);
}

// --- The whole stream ---

/// A stream in two parts gives the samples of the first and then those of the
/// second, and the error of the first if that has one, else of the second.
pub proof fn streams_add_up<T, E>(a: Seq<Result<Vec<T>, E>>, b: Seq<Result<Vec<T>, E>>)
    ensures
        all_samples(a + b) == all_samples(a) + all_samples(b),
        first_error(a + b) == match first_error(a) {
            Some(error) => Some(error),
            None => first_error(b),
        },
    decreases a.len(),
{
    if a.len() == 0 {
        assert(a + b == b);
        assert(all_samples(a) + all_samples(b) == all_samples(b));
    } else {
        streams_add_up(a.drop_first(), b);
        assert((a + b).drop_first() == a.drop_first() + b);
        assert((a + b)[0] == a[0]);
        match a[0] {
            Ok(chunk) => {
                assert(chunk@ + (all_samples(a.drop_first()) + all_samples(b)) == chunk@
                    + all_samples(a.drop_first()) + all_samples(b));
            },
            Err(_) => {},
        }
    }
}

/// A stream of one item has its samples, or its error.
pub proof fn one_item_is_a_stream<T, E>(item: Result<Vec<T>, E>)
    ensures
        match item {
            Ok(chunk) => all_samples(seq![item]) == chunk@ && first_error(seq![item]) is None,
            Err(error) => first_error(seq![item]) == Some(error),
        },
{
    let s = seq![item];
    assert(s.drop_first() == Seq::<Result<Vec<T>, E>>::empty());
    assert(all_samples(s.drop_first()) == Seq::<T>::empty());
    assert(first_error(s.drop_first()) is None);
    match item {
        Ok(chunk) => {
            assert(chunk@ + Seq::<T>::empty() == chunk@);
        },
        Err(_) => {},
    }
}

// --- Picking ---

/// In greedy decoding, a channel's token is the best by the channel's own logits,
/// which are its part of them all, with the penalty for what the channel has had.
pub proof fn channels_go_by_their_own_logits<F: Fn(Binary64) -> Binary64>(
    exp: F,
    e: MossTtsNano,
    v: SynthView,
    logits: Seq<Binary32>,
    per: nat,
    token: i32,
)
    requires
        !e.gen_config.do_sample,
        v.frame.len() < e.n_vq(),
        logits.len() == e.n_vq() * per,
        0 < per <= i32::MAX,
        picks_filling(exp, e, v, logits, token),
    ensures
        ({
            let ch = v.frame.len();
            let own = logits.subrange((ch * per) as int, (ch * per + per) as int);
            let had = v.tokens[ch as int].to_set();
            &&& 0 <= token < per
            &&& is_first_best(
                greedy_scores(own, had, e.gen_config.audio_repetition_penalty),
                token as int,
            )
        }),
{
    let ch = v.frame.len();
    let n = e.n_vq();
    let own = logits.subrange((ch * per) as int, (ch * per + per) as int);
    assert(n * per / n == per) by (nonlinear_arith)
        requires
            n > 0,
    ;
    assert(channel_logits(logits, ch, n) == own);
    assert((ch + 1) * per <= n * per) by (nonlinear_arith)
        requires
            ch + 1 <= n,
    ;
    assert((ch + 1) * per == ch * per + per) by (nonlinear_arith);
    let had = v.tokens[ch as int];
    let i = choose|index: usize|
        token == (#[verifier::truncate] (index as i32)) && #[trigger] is_audio_pick(
            exp,
            own,
            had,
            had.to_set(),
            sampling_of(e.gen_config),
            v.rng.fraction23(),
            index as int,
        );
    assert(i < per);
}

/// The settings of sampling are those of the configuration, each by its name.
pub proof fn settings_go_by_name(c: GenerationConfig)
    ensures
        ({
            let s = sampling_of(c);
            &&& s.do_sample == c.do_sample
            &&& s.text_temperature == c.text_temperature
            &&& s.text_top_k == c.text_top_k
            &&& s.text_top_p == c.text_top_p
            &&& s.audio_temperature == c.audio_temperature
            &&& s.audio_top_k == c.audio_top_k
            &&& s.audio_top_p == c.audio_top_p
            &&& s.audio_repetition_penalty == c.audio_repetition_penalty
        }),
{
}

/// What is marked as a repetition is what the channel has had.
pub proof fn marks_are_tokens_of_before(
    mask: Tensor3,
    tokens: Seq<Seq<i32>>,
    codebook: nat,
    ch: int,
    id: i32,
)
    requires
        marks_repetition(mask, tokens, codebook),
        0 <= ch < tokens.len(),
        0 <= id < codebook,
    ensures
        tensor_cells(mask)[(0nat, ch as nat, id as nat)] == if tokens[ch].contains(id) {
            1i32
        } else {
            0i32
        },
{
    assert(tensor_cells(mask)[(0nat, ch as nat, id as nat)] == if repeats(tokens[ch], id as int) {
        1i32
    } else {
        0i32
    });
    assert(repeats(tokens[ch], id as int) == tokens[ch].contains(id)) by {
        if tokens[ch].contains(id) {
            let k = choose|k: int| 0 <= k < tokens[ch].len() && tokens[ch][k] == id;
            assert(tokens[ch][k] == id as int);
        }
    }
}

} // verus!
