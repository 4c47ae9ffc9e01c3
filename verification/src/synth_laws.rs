//! What holds of a synthesis from start to end.

use crate::chunk_laws::lemma_some_piece;
use crate::chunking::{chunks_of, safe_budget};
use crate::float::number::{Binary32, Binary64};
use crate::generation::{sampling_of, LocalRequest};
use crate::models::short;
use crate::sampling::channel_logits;
use crate::sampling_laws::{assistant_token_without_sampling, audio_token_without_sampling};
use crate::sp_model::ModelView;
use crate::speech_end::{
    all_identical, are_kept, ends_speech, first_tokens, kept_frames_vary, lemma_window_moves,
    pushed, window_at, DetectorView,
};
use crate::synthesis::{
    after_advance, after_decode, after_filling, after_opening, after_pause, after_prefill,
    budget_now, picks_filling, picks_opening, take_frame, valid, MossTtsNano, Phase, StepView,
    SynthView,
};
use crate::tokenizer::{tts_text, tts_text_is_ended};
use crate::whitespace::{trimmed, trimming};
use vstd::prelude::*;

verus! {

/// What happens to a synthesis.
pub enum Event {
    Prefilled(nat),
    Made(Option<Seq<i32>>, Binary64),
    Opened(i32, Binary64),
    Filled(i32, Binary64),
    Decoded(nat),
    Advanced,
    Paused,
}

/// Whether an event is what a synthesis waits for.
pub open spec fn is_awaited(v: SynthView, event: Event) -> bool {
    match event {
        Event::Prefilled(_) => v.phase == Phase::Prefill,
        Event::Made(_, _) => v.phase == Phase::Frame,
        Event::Opened(_, _) => v.phase == Phase::Opening,
        Event::Filled(_, _) => v.phase == Phase::Filling,
        Event::Decoded(_) => v.phase == Phase::Decode || v.phase == Phase::Flush,
        Event::Advanced => v.phase == Phase::Advance,
        Event::Paused => v.phase == Phase::Pause,
    }
}

/// Where a synthesis stands after an event, and what is to be done next.
pub open spec fn next(e: MossTtsNano, v: SynthView, event: Event) -> (SynthView, StepView) {
    match event {
        Event::Prefilled(seq_len) => after_prefill(e, v, seq_len),
        Event::Made(frame, elapsed) => take_frame(e, v, frame, elapsed),
        Event::Opened(token, elapsed) => after_opening(e, v, token, elapsed),
        Event::Filled(token, elapsed) => after_filling(e, v, token, elapsed),
        Event::Decoded(audio_length) => after_decode(e, v, audio_length),
        Event::Advanced => after_advance(e, v),
        Event::Paused => after_pause(v),
    }
}

/// The frame that is complete with an event, if there is one.
pub open spec fn completed(e: MossTtsNano, v: SynthView, event: Event) -> Option<Seq<i32>> {
    match event {
        Event::Made(frame, _) => frame,
        Event::Filled(token, _) => if v.frame.len() + 1 < e.n_vq() {
            None
        } else {
            Some(v.frame.push(token))
        },
        _ => None,
    }
}

/// A frame that is made channel by channel has a token for each channel.
pub proof fn frames_have_a_token_per_channel(
    e: MossTtsNano,
    v: SynthView,
    token: i32,
    elapsed: Binary64,
)
    requires
        valid(e, v),
        v.phase == Phase::Filling,
    ensures
        completed(e, v, Event::Filled(token, elapsed)) matches Some(f) ==> f.len() == e.n_vq(),
{
}

/// The frames that are taken up with an event: the complete one, unless it tells
/// the end of speech.
pub open spec fn taken_up(e: MossTtsNano, v: SynthView, event: Event) -> Seq<Seq<i32>> {
    match completed(e, v, event) {
        Some(f) => if ends_speech(v.detector, f, v.step) {
            Seq::empty()
        } else {
            seq![f]
        },
        None => Seq::empty(),
    }
}

/// The frames that a step decodes.
pub open spec fn decoded_by(step: StepView) -> Seq<Seq<i32>> {
    match step {
        StepView::Decode(frames) => frames,
        _ => Seq::empty(),
    }
}

/// Frames are decoded in the order in which they are taken up, and none is lost:
/// what a step decodes and what then waits is what waited before and what has
/// been taken up.
#[verifier::rlimit(50)]
pub proof fn frames_are_kept(e: MossTtsNano, v: SynthView, event: Event)
    requires
        is_awaited(v, event),
        event is Prefilled ==> v.pending.len() == 0,
    ensures
        ({
            let (after, step) = next(e, v, event);
            decoded_by(step) + after.pending == v.pending + taken_up(e, v, event)
        }),
{
    let (after, step) = next(e, v, event);
    let none = Seq::<Seq<i32>>::empty();
    assert(none + v.pending == v.pending);
    assert(v.pending + none == v.pending);
    assert(none + none == none);
    match completed(e, v, event) {
        Some(f) => {
            let all = v.pending.push(f);
            assert(v.pending + seq![f] == all);
            assert(none + all == all);
            match event {
                Event::Made(_, elapsed) => {
                    let b = budget_now(e, v, elapsed) as int;
                    if b <= all.len() {
                        assert(all.take(b) + all.skip(b) == all);
                    }
                },
                Event::Filled(_, elapsed) => {
                    let b = budget_now(e, v, elapsed) as int;
                    if b <= all.len() {
                        assert(all.take(b) + all.skip(b) == all);
                    }
                },
                _ => {},
            }
        },
        None => {},
    }
}

/// When a chunk is over, no frame of it waits.
#[verifier::rlimit(50)]
pub proof fn chunk_ends_decoded(e: MossTtsNano, v: SynthView, event: Event)
    requires
        valid(e, v),
        is_awaited(v, event),
    ensures
        ({
            let (after, step) = next(e, v, event);
            after.phase == Phase::Pause || after.phase == Phase::Done ==> after.pending.len() == 0
        }),
{
}

/// Until there has been audio, each frame is decoded as soon as it is taken up.
pub proof fn first_frames_are_decoded_at_once(
    e: MossTtsNano,
    v: SynthView,
    frame: Seq<i32>,
    elapsed: Binary64,
)
    requires
        !v.started,
        v.pending.len() == 0,
        !ends_speech(v.detector, frame, v.step),
    ensures
        ({
            let (after, step) = take_frame(e, v, Some(frame), elapsed);
            &&& step == StepView::Decode(seq![frame])
            &&& after.pending.len() == 0
        }),
{
    let all = v.pending.push(frame);
    assert(all.take(1) == seq![frame]);
}

/// A chunk starts from the seed alone: with the same engine and the same number
/// of rows, whatever has come before, the first step and the random numbers
/// that follow are the same.
pub proof fn chunks_start_from_the_seed(
    e: MossTtsNano,
    v: SynthView,
    other: SynthView,
    seq_len: nat,
)
    requires
        e.gen_config.max_new_frames > 0,
    ensures
        ({
            let (a, first) = after_prefill(e, v, seq_len);
            let (b, second) = after_prefill(e, other, seq_len);
            &&& first == second
            &&& a.rng == b.rng
            &&& a.tokens == b.tokens
            &&& a.detector == b.detector
            &&& a.pending == b.pending
        }),
{
}

/// What happens in a row, and is awaited each time.
pub open spec fn all_awaited(e: MossTtsNano, v: SynthView, events: Seq<Event>) -> bool
    decreases events.len(),
{
    if events.len() == 0 {
        true
    } else {
        all_awaited(e, v, events.drop_last()) && is_awaited(
            course(e, v, events.drop_last()),
            events.last(),
        )
    }
}

/// Where a synthesis stands after events in a row.
pub open spec fn course(e: MossTtsNano, v: SynthView, events: Seq<Event>) -> SynthView
    decreases events.len(),
{
    if events.len() == 0 {
        v
    } else {
        next(e, course(e, v, events.drop_last()), events.last()).0
    }
}

/// The frames that are taken up in the course of events.
pub open spec fn all_taken_up(e: MossTtsNano, v: SynthView, events: Seq<Event>) -> Seq<Seq<i32>>
    decreases events.len(),
{
    if events.len() == 0 {
        Seq::empty()
    } else {
        all_taken_up(e, v, events.drop_last()) + taken_up(
            e,
            course(e, v, events.drop_last()),
            events.last(),
        )
    }
}

/// The frames that are decoded in the course of events.
pub open spec fn all_decoded(e: MossTtsNano, v: SynthView, events: Seq<Event>) -> Seq<Seq<i32>>
    decreases events.len(),
{
    if events.len() == 0 {
        Seq::empty()
    } else {
        all_decoded(e, v, events.drop_last()) + decoded_by(
            next(e, course(e, v, events.drop_last()), events.last()).1,
        )
    }
}

/// Frames wait only inside a chunk.
#[verifier::rlimit(50)]
proof fn lemma_quiet_step(e: MossTtsNano, v: SynthView, event: Event)
    requires
        quiet(v),
        is_awaited(v, event),
    ensures
        quiet(next(e, v, event).0),
{
    match event {
        Event::Prefilled(seq_len) => {
            assert(quiet(after_prefill(e, v, seq_len).0));
        },
        Event::Made(frame, elapsed) => {
            assert(quiet(take_frame(e, v, frame, elapsed).0));
        },
        Event::Opened(token, elapsed) => {
            assert(quiet(after_opening(e, v, token, elapsed).0));
        },
        Event::Filled(token, elapsed) => {
            assert(quiet(after_filling(e, v, token, elapsed).0));
        },
        Event::Decoded(audio_length) => {
            assert(quiet(after_decode(e, v, audio_length).0));
        },
        Event::Advanced => {
            assert(quiet(after_advance(e, v).0));
        },
        Event::Paused => {
            assert(quiet(after_pause(v).0));
        },
    }
}

/// In the course of events frames wait only inside a chunk.
#[verifier::rlimit(50)]
proof fn lemma_nothing_waits_at_start(e: MossTtsNano, v: SynthView, events: Seq<Event>)
    requires
        quiet(v),
        all_awaited(e, v, events),
    ensures
        quiet(course(e, v, events)),
    decreases events.len(),
{
    if events.len() > 0 {
        lemma_nothing_waits_at_start(e, v, events.drop_last());
        lemma_quiet_step(e, course(e, v, events.drop_last()), events.last());
    }
}

/// No frame waits before a chunk, in its last decoding, and after it.
pub open spec fn quiet(v: SynthView) -> bool {
    v.phase == Phase::Prefill || v.phase == Phase::Flush || v.phase == Phase::Pause || v.phase
        == Phase::Done ==> v.pending.len() == 0
}

/// Over a whole synthesis, the frames that have been decoded, and those that
/// wait, are the frames that have been taken up, in their order. In the end none
/// waits.
#[verifier::rlimit(50)]
pub proof fn all_frames_are_decoded(e: MossTtsNano, v: SynthView, events: Seq<Event>)
    requires
        quiet(v),
        v.phase == Phase::Prefill,
        all_awaited(e, v, events),
    ensures
        all_decoded(e, v, events) + course(e, v, events).pending == all_taken_up(e, v, events),
        course(e, v, events).phase == Phase::Done ==> all_decoded(e, v, events) == all_taken_up(
            e,
            v,
            events,
        ),
    decreases events.len(),
{
    lemma_nothing_waits_at_start(e, v, events);
    let now = course(e, v, events);
    if events.len() == 0 {
        assert(all_decoded(e, v, events) + now.pending == Seq::<Seq<i32>>::empty());
    } else {
        let before = events.drop_last();
        let event = events.last();
        all_frames_are_decoded(e, v, before);
        lemma_nothing_waits_at_start(e, v, before);
        let old = course(e, v, before);
        frames_are_kept(e, old, event);
        let step = next(e, old, event).1;
        assert((all_decoded(e, v, before) + decoded_by(step)) + now.pending == all_decoded(
            e,
            v,
            before,
        ) + (decoded_by(step) + now.pending));
        assert((all_decoded(e, v, before) + old.pending) + taken_up(e, old, event) == all_decoded(
            e,
            v,
            before,
        ) + (old.pending + taken_up(e, old, event)));
    }
    if now.phase == Phase::Done {
        assert(all_decoded(e, v, events) + now.pending == all_decoded(e, v, events));
    }
}

// --- Greedy decoding ---

/// What a model gives back, or the clock.
pub enum Reply {
    Rows(nat),
    Text(Seq<Binary32>, Binary64),
    Audio(Seq<Binary32>, Binary64),
    Samples(nat),
    FedBack,
    Paused,
}

/// Whether an event is what comes of a reply, in a synthesis channel by channel.
pub open spec fn comes_of<F: Fn(Binary64) -> Binary64>(
    exp: F,
    e: MossTtsNano,
    v: SynthView,
    reply: Reply,
    event: Event,
) -> bool {
    match reply {
        Reply::Rows(n) => event == Event::Prefilled(n),
        Reply::Text(logits, elapsed) => event matches Event::Opened(token, t) && t == elapsed
            && picks_opening(exp, e, v, logits, token),
        Reply::Audio(logits, elapsed) => event matches Event::Filled(token, t) && t == elapsed
            && picks_filling(exp, e, v, logits, token),
        Reply::Samples(n) => event == Event::Decoded(n),
        Reply::FedBack => event == Event::Advanced,
        Reply::Paused => event == Event::Paused,
    }
}

/// Whether events are what comes of replies, one after the other.
pub open spec fn all_come_of<F: Fn(Binary64) -> Binary64>(
    exp: F,
    e: MossTtsNano,
    v: SynthView,
    replies: Seq<Reply>,
    events: Seq<Event>,
) -> bool
    decreases events.len(),
{
    &&& replies.len() == events.len()
    &&& events.len() > 0 ==> {
        let before = events.drop_last();
        &&& all_come_of(exp, e, v, replies.drop_last(), before)
        &&& is_awaited(course(e, v, before), events.last())
        &&& comes_of(exp, e, course(e, v, before), replies.last(), events.last())
    }
}

/// The same state but for the random numbers.
pub open spec fn same_but_rng(v: SynthView, w: SynthView) -> bool {
    w == SynthView { rng: w.rng, ..v }
}

/// The same engine but for the seed.
pub open spec fn same_but_seed(e: MossTtsNano, f: MossTtsNano) -> bool {
    f == MossTtsNano { seed: f.seed, ..e }
}

/// Whether decoding is greedy: channel by channel, without sampling.
pub open spec fn is_greedy(e: MossTtsNano) -> bool {
    e.by_channel() && !e.gen_config.do_sample
}

#[verifier::rlimit(50)]
proof fn lemma_greedy_step(
    e: MossTtsNano,
    f: MossTtsNano,
    v: SynthView,
    w: SynthView,
    event: Event,
)
    requires
        same_but_seed(e, f),
        is_greedy(e),
        same_but_rng(v, w),
        !(event is Made),
    ensures
        same_but_rng(next(e, v, event).0, next(f, w, event).0),
        next(e, v, event).1 == next(f, w, event).1,
        taken_up(e, v, event) == taken_up(f, w, event),
{
    match event {
        Event::Prefilled(seq_len) => {
            assert(same_but_rng(after_prefill(e, v, seq_len).0, after_prefill(f, w, seq_len).0));
        },
        Event::Made(frame, elapsed) => {},
        Event::Opened(token, elapsed) => {
            assert(same_but_rng(
                after_opening(e, v, token, elapsed).0,
                after_opening(f, w, token, elapsed).0,
            ));
        },
        Event::Filled(token, elapsed) => {
            assert(same_but_rng(
                after_filling(e, v, token, elapsed).0,
                after_filling(f, w, token, elapsed).0,
            ));
        },
        Event::Decoded(audio_length) => {
            assert(same_but_rng(
                after_decode(e, v, audio_length).0,
                after_decode(f, w, audio_length).0,
            ));
        },
        Event::Advanced => {
            assert(same_but_rng(after_advance(e, v).0, after_advance(f, w).0));
        },
        Event::Paused => {},
    }
}

/// Greedy decoding does not depend on the seed: two engines that differ in it
/// alone, on the same replies, come to the same events, steps and frames.
pub proof fn greedy_ignores_the_seed<F: Fn(Binary64) -> Binary64>(
    exp: F,
    e: MossTtsNano,
    f: MossTtsNano,
    v: SynthView,
    w: SynthView,
    replies: Seq<Reply>,
    events: Seq<Event>,
    others: Seq<Event>,
)
    requires
        same_but_seed(e, f),
        is_greedy(e),
        same_but_rng(v, w),
        all_come_of(exp, e, v, replies, events),
        all_come_of(exp, f, w, replies, others),
    ensures
        events == others,
        same_but_rng(course(e, v, events), course(f, w, others)),
        all_taken_up(e, v, events) == all_taken_up(f, w, others),
        all_decoded(e, v, events) == all_decoded(f, w, others),
    decreases events.len(),
{
    if events.len() > 0 {
        let front = events.drop_last();
        let other = others.drop_last();
        greedy_ignores_the_seed(exp, e, f, v, w, replies.drop_last(), front, other);
        let x = course(e, v, front);
        let y = course(f, w, other);
        let a = events.last();
        let b = others.last();
        lemma_greedy_event(exp, e, f, x, y, replies.last(), a, b);
        assert(events == front.push(a));
        assert(others == other.push(b));
        lemma_greedy_step(e, f, x, y, a);
    } else {
        assert(events == others);
    }
}

proof fn lemma_greedy_event<F: Fn(Binary64) -> Binary64>(
    exp: F,
    e: MossTtsNano,
    f: MossTtsNano,
    v: SynthView,
    w: SynthView,
    reply: Reply,
    a: Event,
    b: Event,
)
    requires
        same_but_seed(e, f),
        is_greedy(e),
        same_but_rng(v, w),
        comes_of(exp, e, v, reply, a),
        comes_of(exp, f, w, reply, b),
    ensures
        a == b,
        !(a is Made),
{
    let config = sampling_of(e.gen_config);
    match reply {
        Reply::Text(logits, elapsed) => {
            assistant_token_without_sampling(
                exp,
                logits,
                short(e.app_config.tts_config.audio_assistant_slot_token_id),
                short(e.app_config.tts_config.audio_end_token_id),
                config,
                v.rng.fraction23(),
                w.rng.fraction23(),
                a->Opened_0,
                b->Opened_0,
            );
        },
        Reply::Audio(logits, elapsed) => {
            let channel = v.frame.len();
            audio_token_without_sampling(
                exp,
                channel_logits(logits, channel, e.n_vq()),
                v.tokens[channel as int],
                v.tokens[channel as int].to_set(),
                config,
                v.rng.fraction23(),
                w.rng.fraction23(),
                a->Filled_0,
                b->Filled_0,
            );
        },
        _ => {},
    }
}

// --- The frames of a chunk ---

/// What a synthesis remembers of the frames of a chunk that were taken up.
pub open spec fn remembers(v: SynthView, frames: Seq<Seq<i32>>) -> bool {
    &&& are_kept(frames, 8)
    &&& v.phase == Phase::Frame || v.phase == Phase::Opening || v.phase == Phase::Filling
        ==> v.step == frames.len() && v.detector == (DetectorView {
        recent: window_at(frames, frames.len() as int, 8),
        window: 8,
    })
    &&& v.phase == Phase::Decode || v.phase == Phase::Advance ==> v.step + 1 == frames.len()
        && v.detector == (DetectorView {
        recent: window_at(frames, frames.len() as int, 8),
        window: 8,
    })
    &&& v.phase != Phase::Prefill
}

proof fn lemma_kept_push(frames: Seq<Seq<i32>>, f: Seq<i32>)
    requires
        are_kept(frames, 8),
        !ends_speech(
            DetectorView { recent: window_at(frames, frames.len() as int, 8), window: 8 },
            f,
            frames.len(),
        ),
    ensures
        are_kept(frames.push(f), 8),
        window_at(frames.push(f), frames.push(f).len() as int, 8) == pushed(
            DetectorView { recent: window_at(frames, frames.len() as int, 8), window: 8 },
            f,
        ),
{
    let all = frames.push(f);
    assert forall|n: int| 0 <= n < all.len() implies !ends_speech(
        DetectorView { recent: window_at(all, n, 8), window: 8 },
        #[trigger] all[n],
        n as nat,
    ) by {
        assert(window_at(all, n, 8) == window_at(frames, n, 8));
        if n < frames.len() {
            assert(all[n] == frames[n]);
        }
    }
    assert(window_at(all, frames.len() as int, 8) == window_at(frames, frames.len() as int, 8));
    lemma_window_moves(all, frames.len() as int, 8);
}

#[verifier::rlimit(50)]
proof fn lemma_remembers_step(e: MossTtsNano, v: SynthView, event: Event, frames: Seq<Seq<i32>>)
    requires
        remembers(v, frames),
        is_awaited(v, event),
        !(event is Paused),
    ensures
        remembers(next(e, v, event).0, frames + taken_up(e, v, event)),
{
    let none = Seq::<Seq<i32>>::empty();
    assert(frames + none == frames);
    match completed(e, v, event) {
        Some(f) => {
            assert(frames + seq![f] == frames.push(f));
            if !ends_speech(v.detector, f, v.step) {
                lemma_kept_push(frames, f);
            }
            match event {
                Event::Made(frame, elapsed) => {
                    assert(remembers(
                        take_frame(e, v, frame, elapsed).0,
                        frames + taken_up(e, v, event),
                    ));
                },
                Event::Filled(token, elapsed) => {
                    assert(remembers(
                        after_filling(e, v, token, elapsed).0,
                        frames + taken_up(e, v, event),
                    ));
                },
                _ => {},
            }
        },
        None => {
            match event {
                Event::Made(frame, elapsed) => {
                    assert(remembers(take_frame(e, v, frame, elapsed).0, frames));
                },
                Event::Opened(token, elapsed) => {
                    assert(remembers(after_opening(e, v, token, elapsed).0, frames));
                },
                Event::Filled(token, elapsed) => {
                    assert(remembers(after_filling(e, v, token, elapsed).0, frames));
                },
                Event::Decoded(audio_length) => {
                    assert(remembers(after_decode(e, v, audio_length).0, frames));
                },
                Event::Advanced => {
                    assert(remembers(after_advance(e, v).0, frames));
                },
                _ => {},
            }
        },
    }
}

/// The frames that are taken up in a chunk are those that a detector lets go on:
/// see `kept_frames_vary` for what that means of any eight in a row.
pub proof fn frames_of_a_chunk_vary(
    e: MossTtsNano,
    v: SynthView,
    seq_len: nat,
    events: Seq<Event>,
)
    requires
        v.phase == Phase::Prefill,
        all_awaited(e, after_prefill(e, v, seq_len).0, events),
        forall|i: int| 0 <= i < events.len() ==> !(#[trigger] events[i] is Paused),
    ensures
        are_kept(all_taken_up(e, after_prefill(e, v, seq_len).0, events), 8),
{
    let first = after_prefill(e, v, seq_len).0;
    let none = Seq::<Seq<i32>>::empty();
    assert(window_at(none, 0, 8) == none);
    assert(remembers(first, none));
    lemma_remembers_course(e, first, events);
}

/// Of the frames that are taken up in a chunk, no eight in a row are the same,
/// and any eight that end after step 30 have at least three first tokens.
pub proof fn eight_frames_vary(
    e: MossTtsNano,
    v: SynthView,
    seq_len: nat,
    events: Seq<Event>,
    start: int,
)
    requires
        v.phase == Phase::Prefill,
        all_awaited(e, after_prefill(e, v, seq_len).0, events),
        forall|i: int| 0 <= i < events.len() ==> !(#[trigger] events[i] is Paused),
        0 <= start,
        start + 8 <= all_taken_up(e, after_prefill(e, v, seq_len).0, events).len(),
    ensures
        ({
            let frames = all_taken_up(e, after_prefill(e, v, seq_len).0, events);
            let row = frames.subrange(start, start + 8);
            &&& !all_identical(row)
            &&& start + 7 > 30 ==> first_tokens(row).to_set().len() >= 3
        }),
{
    frames_of_a_chunk_vary(e, v, seq_len, events);
    kept_frames_vary(all_taken_up(e, after_prefill(e, v, seq_len).0, events), 8, start);
}

proof fn lemma_remembers_course(e: MossTtsNano, v: SynthView, events: Seq<Event>)
    requires
        remembers(v, Seq::empty()),
        all_awaited(e, v, events),
        forall|i: int| 0 <= i < events.len() ==> !(#[trigger] events[i] is Paused),
    ensures
        remembers(course(e, v, events), all_taken_up(e, v, events)),
    decreases events.len(),
{
    if events.len() > 0 {
        let front = events.drop_last();
        assert forall|i: int| 0 <= i < front.len() implies !(#[trigger] front[i] is Paused) by {
            assert(front[i] == events[i]);
        }
        lemma_remembers_course(e, v, front);
        assert(!(events[events.len() - 1] is Paused));
        lemma_remembers_step(
            e,
            course(e, v, front),
            events.last(),
            all_taken_up(e, v, front),
        );
    }
}

// --- Every chunk in its turn ---

/// The chunks that are prefilled in the course of events, by their places.
pub open spec fn prefills(e: MossTtsNano, v: SynthView, events: Seq<Event>) -> Seq<nat>
    decreases events.len(),
{
    if events.len() == 0 {
        Seq::empty()
    } else {
        let before = events.drop_last();
        if events.last() is Prefilled {
            prefills(e, v, before).push(course(e, v, before).index)
        } else {
            prefills(e, v, before)
        }
    }
}

/// Where a synthesis stands among its chunks.
spec fn is_on_its_way(e: MossTtsNano, start: SynthView, v: SynthView, done: Seq<nat>) -> bool {
    &&& v.chunks == start.chunks
    &&& v.index < v.chunks.len()
    &&& v.phase == Phase::Prefill ==> done.len() == v.index
    &&& v.phase != Phase::Prefill ==> done.len() == v.index + 1
    &&& v.phase == Phase::Pause ==> v.index + 1 < v.chunks.len()
    &&& v.phase == Phase::Done ==> v.index + 1 == v.chunks.len()
    &&& forall|i: int| 0 <= i < done.len() ==> #[trigger] done[i] == i
}

#[verifier::rlimit(50)]
proof fn lemma_on_its_way_step(
    e: MossTtsNano,
    start: SynthView,
    v: SynthView,
    done: Seq<nat>,
    event: Event,
)
    requires
        is_on_its_way(e, start, v, done),
        is_awaited(v, event),
    ensures
        is_on_its_way(
            e,
            start,
            next(e, v, event).0,
            if event is Prefilled {
                done.push(v.index)
            } else {
                done
            },
        ),
{
    let now = if event is Prefilled {
        done.push(v.index)
    } else {
        done
    };
    match event {
        Event::Prefilled(seq_len) => {
            assert(is_on_its_way(e, start, after_prefill(e, v, seq_len).0, now));
        },
        Event::Made(frame, elapsed) => {
            assert(is_on_its_way(e, start, take_frame(e, v, frame, elapsed).0, now));
        },
        Event::Opened(token, elapsed) => {
            assert(is_on_its_way(e, start, after_opening(e, v, token, elapsed).0, now));
        },
        Event::Filled(token, elapsed) => {
            assert(is_on_its_way(e, start, after_filling(e, v, token, elapsed).0, now));
        },
        Event::Decoded(audio_length) => {
            assert(is_on_its_way(e, start, after_decode(e, v, audio_length).0, now));
        },
        Event::Advanced => {
            assert(is_on_its_way(e, start, after_advance(e, v).0, now));
        },
        Event::Paused => {
            assert(is_on_its_way(e, start, after_pause(v).0, now));
        },
    }
}

proof fn lemma_on_its_way(e: MossTtsNano, v: SynthView, events: Seq<Event>)
    requires
        v.phase == Phase::Prefill,
        v.index == 0,
        v.chunks.len() > 0,
        all_awaited(e, v, events),
    ensures
        is_on_its_way(e, v, course(e, v, events), prefills(e, v, events)),
    decreases events.len(),
{
    if events.len() > 0 {
        let before = events.drop_last();
        lemma_on_its_way(e, v, before);
        lemma_on_its_way_step(
            e,
            v,
            course(e, v, before),
            prefills(e, v, before),
            events.last(),
        );
    }
}

/// Every chunk is spoken, in its turn: from the start on, the chunks that are
/// prefilled are the first, the second and so on, and when the synthesis is done
/// each has been prefilled once. The chunks themselves never change.
pub proof fn chunks_come_in_order(e: MossTtsNano, v: SynthView, events: Seq<Event>)
    requires
        v.phase == Phase::Prefill,
        v.index == 0,
        v.chunks.len() > 0,
        all_awaited(e, v, events),
    ensures
        course(e, v, events).chunks == v.chunks,
        prefills(e, v, events).len() <= v.chunks.len(),
        forall|i: int|
            0 <= i < prefills(e, v, events).len() ==> #[trigger] prefills(e, v, events)[i] == i,
        course(e, v, events).phase == Phase::Done ==> prefills(e, v, events).len()
            == v.chunks.len(),
{
    lemma_on_its_way(e, v, events);
}

// --- Positions ---

/// How often a frame has been fed back.
pub open spec fn fed_back(events: Seq<Event>) -> nat
    decreases events.len(),
{
    if events.len() == 0 {
        0
    } else {
        fed_back(events.drop_last()) + if events.last() is Advanced {
            1nat
        } else {
            0
        }
    }
}

/// What is to be done after a prefill and the events behind it.
pub open spec fn step_after(e: MossTtsNano, v: SynthView, seq_len: nat, events: Seq<Event>)
    -> StepView {
    if events.len() == 0 {
        after_prefill(e, v, seq_len).1
    } else {
        next(e, course(e, after_prefill(e, v, seq_len).0, events.drop_last()), events.last()).1
    }
}

/// How the position, the frames and the last frame go together in a chunk.
spec fn keeps_position(
    v: SynthView,
    position: int,
    frames: Seq<Seq<i32>>,
    fed: nat,
) -> bool {
    &&& v.past == position
    &&& v.phase == Phase::Frame || v.phase == Phase::Opening || v.phase == Phase::Filling
        ==> frames.len() == fed && v.step == fed
    &&& v.phase == Phase::Decode || v.phase == Phase::Advance ==> frames.len() == fed + 1
        && v.step == fed && v.frame == frames.last()
}

#[verifier::rlimit(50)]
proof fn lemma_keeps_position_step(
    e: MossTtsNano,
    v: SynthView,
    event: Event,
    position: int,
    frames: Seq<Seq<i32>>,
    fed: nat,
)
    requires
        keeps_position(v, position, frames, fed),
        is_awaited(v, event),
        !(event is Paused) && !(event is Prefilled),
        event is Advanced ==> position < i32::MAX,
    ensures
        keeps_position(
            next(e, v, event).0,
            position + if event is Advanced {
                1int
            } else {
                0
            },
            frames + taken_up(e, v, event),
            fed + if event is Advanced {
                1nat
            } else {
                0
            },
        ),
        next(e, v, event).1 matches StepView::Advance { row, past } ==> past == position && row
            == seq![short(e.app_config.tts_config.audio_assistant_slot_token_id)] + (frames
            + taken_up(e, v, event)).last(),
{
    let none = Seq::<Seq<i32>>::empty();
    assert(frames + none == frames);
    match completed(e, v, event) {
        Some(f) => {
            assert(frames + seq![f] == frames.push(f));
            match event {
                Event::Made(frame, elapsed) => {
                    assert(keeps_position(
                        take_frame(e, v, frame, elapsed).0,
                        position,
                        frames + taken_up(e, v, event),
                        fed,
                    ));
                },
                Event::Filled(token, elapsed) => {
                    assert(keeps_position(
                        after_filling(e, v, token, elapsed).0,
                        position,
                        frames + taken_up(e, v, event),
                        fed,
                    ));
                },
                _ => {},
            }
        },
        None => {
            match event {
                Event::Made(frame, elapsed) => {
                    assert(keeps_position(
                        take_frame(e, v, frame, elapsed).0,
                        position,
                        frames,
                        fed,
                    ));
                },
                Event::Opened(token, elapsed) => {
                    assert(keeps_position(
                        after_opening(e, v, token, elapsed).0,
                        position,
                        frames,
                        fed,
                    ));
                },
                Event::Filled(token, elapsed) => {
                    assert(keeps_position(
                        after_filling(e, v, token, elapsed).0,
                        position,
                        frames,
                        fed,
                    ));
                },
                Event::Decoded(audio_length) => {
                    assert(keeps_position(
                        after_decode(e, v, audio_length).0,
                        position,
                        frames,
                        fed,
                    ));
                },
                Event::Advanced => {
                    assert(keeps_position(after_advance(e, v).0, position + 1, frames, fed + 1));
                },
                _ => {},
            }
        },
    }
}

proof fn lemma_keeps_position(e: MossTtsNano, v: SynthView, seq_len: nat, events: Seq<Event>)
    requires
        v.phase == Phase::Prefill,
        all_awaited(e, after_prefill(e, v, seq_len).0, events),
        forall|i: int| 0 <= i < events.len() ==> !(#[trigger] events[i] is Paused),
        seq_len + fed_back(events) <= i32::MAX,
    ensures
        keeps_position(
            course(e, after_prefill(e, v, seq_len).0, events),
            (seq_len + fed_back(events)) as int,
            all_taken_up(e, after_prefill(e, v, seq_len).0, events),
            fed_back(events),
        ),
        course(e, after_prefill(e, v, seq_len).0, events).phase != Phase::Prefill,
    decreases events.len(),
{
    let first = after_prefill(e, v, seq_len).0;
    if events.len() > 0 {
        let front = events.drop_last();
        assert forall|i: int| 0 <= i < front.len() implies !(#[trigger] front[i] is Paused) by {
            assert(front[i] == events[i]);
        }
        assert(!(events[events.len() - 1] is Paused));
        lemma_keeps_position(e, v, seq_len, front);
        let now = course(e, first, front);
        lemma_keeps_position_step(
            e,
            now,
            events.last(),
            (seq_len + fed_back(front)) as int,
            all_taken_up(e, first, front),
            fed_back(front),
        );
        lemma_no_prefill(e, now, events.last());
    }
}

/// A chunk is prefilled only after a pause.
#[verifier::rlimit(50)]
proof fn lemma_no_prefill(e: MossTtsNano, v: SynthView, event: Event)
    requires
        v.phase != Phase::Prefill,
        is_awaited(v, event),
        !(event is Paused),
    ensures
        next(e, v, event).0.phase != Phase::Prefill,
{
}

/// Every frame is fed back at its own position: after a prefill of `seq_len`
/// rows, the frame that is fed back when `k` have been before goes in at position
/// `seq_len + k`, and the row that goes in is the slot for audio and the frame
/// that was taken up last.
pub proof fn frames_are_fed_back_in_place(
    e: MossTtsNano,
    v: SynthView,
    seq_len: nat,
    events: Seq<Event>,
)
    requires
        v.phase == Phase::Prefill,
        all_awaited(e, after_prefill(e, v, seq_len).0, events),
        forall|i: int| 0 <= i < events.len() ==> !(#[trigger] events[i] is Paused),
        seq_len + fed_back(events) <= i32::MAX,
    ensures
        course(e, after_prefill(e, v, seq_len).0, events).past == seq_len + fed_back(events),
        step_after(e, v, seq_len, events) matches StepView::Advance { row, past } ==> {
            let frames = all_taken_up(e, after_prefill(e, v, seq_len).0, events);
            &&& past == seq_len + fed_back(events)
            &&& frames.len() == fed_back(events) + 1
            &&& row == seq![short(e.app_config.tts_config.audio_assistant_slot_token_id)]
                + frames.last()
        },
{
    let first = after_prefill(e, v, seq_len).0;
    lemma_keeps_position(e, v, seq_len, events);
    if events.len() > 0 {
        let front = events.drop_last();
        assert forall|i: int| 0 <= i < front.len() implies !(#[trigger] front[i] is Paused) by {
            assert(front[i] == events[i]);
        }
        assert(!(events[events.len() - 1] is Paused));
        lemma_keeps_position(e, v, seq_len, front);
        let now = course(e, first, front);
        lemma_keeps_position_step(
            e,
            now,
            events.last(),
            (seq_len + fed_back(front)) as int,
            all_taken_up(e, first, front),
            fed_back(front),
        );
        lemma_advance_phase(e, now, events.last());
    }
}

#[verifier::rlimit(50)]
proof fn lemma_advance_phase(e: MossTtsNano, v: SynthView, event: Event)
    ensures
        next(e, v, event).1 is Advance ==> next(e, v, event).0.phase == Phase::Advance && !(
        event is Advanced),
        next(e, v, event).1 is Local ==> next(e, v, event).0.phase == Phase::Opening || next(
            e,
            v,
            event,
        ).0.phase == v.phase || next(e, v, event).0.phase == Phase::Filling,
{
}

// --- The steps of a frame that is made channel by channel ---

/// How many steps of the local model there have been in the frame at hand.
pub open spec fn local_steps(events: Seq<Event>) -> nat
    decreases events.len(),
{
    if events.len() > 0 && (events.last() is Opened || events.last() is Filled) {
        local_steps(events.drop_last()) + 1
    } else {
        0
    }
}

/// How the steps of a frame and its tokens go together.
spec fn counts_steps(e: MossTtsNano, v: SynthView, steps: nat) -> bool {
    &&& v.phase == Phase::Opening ==> steps == 0 && v.frame.len() == 0
    &&& v.phase == Phase::Filling ==> steps == v.frame.len() + 1 && v.frame.len() < e.n_vq()
}

#[verifier::rlimit(50)]
proof fn lemma_counts_steps(e: MossTtsNano, v: SynthView, event: Event, steps: nat)
    requires
        counts_steps(e, v, steps),
        is_awaited(v, event),
        0 < e.n_vq() < i32::MAX,
    ensures
        counts_steps(
            e,
            next(e, v, event).0,
            if event is Opened || event is Filled {
                steps + 1
            } else {
                0
            },
        ),
        next(e, v, event).1 matches StepView::Local(r) ==> if event is Opened || event is Filled {
            &&& r.past_valid_lengths == steps + 1
            &&& event matches Event::Opened(token, _) ==> steps == 0 && r.text_token_id == token
                && r.audio_token_id == 0 && r.channel_index == 0 && r.step_type == 1
            &&& event matches Event::Filled(token, _) ==> steps >= 1 && r.text_token_id == 0
                && r.audio_token_id == token && r.channel_index == steps - 1 && r.step_type == 2
        } else {
            &&& r.past_valid_lengths == 0
            &&& r.text_token_id == 0 && r.audio_token_id == 0 && r.channel_index == 0
                && r.step_type == 0
        },
{
    match event {
        Event::Prefilled(seq_len) => {
            assert(counts_steps(e, after_prefill(e, v, seq_len).0, 0));
        },
        Event::Made(frame, elapsed) => {
            assert(counts_steps(e, take_frame(e, v, frame, elapsed).0, 0));
        },
        Event::Opened(token, elapsed) => {
            assert(counts_steps(e, after_opening(e, v, token, elapsed).0, steps + 1));
        },
        Event::Filled(token, elapsed) => {
            assert(counts_steps(e, after_filling(e, v, token, elapsed).0, steps + 1));
        },
        Event::Decoded(audio_length) => {
            assert(counts_steps(e, after_decode(e, v, audio_length).0, 0));
        },
        Event::Advanced => {
            assert(counts_steps(e, after_advance(e, v).0, 0));
        },
        Event::Paused => {},
    }
}

proof fn lemma_counts_steps_in_course(e: MossTtsNano, v: SynthView, events: Seq<Event>)
    requires
        v.phase == Phase::Prefill,
        all_awaited(e, v, events),
        0 < e.n_vq() < i32::MAX,
    ensures
        counts_steps(e, course(e, v, events), local_steps(events)),
    decreases events.len(),
{
    if events.len() > 0 {
        let front = events.drop_last();
        lemma_counts_steps_in_course(e, v, front);
        lemma_counts_steps(e, course(e, v, front), events.last(), local_steps(front));
    }
}

/// The local model is asked step by step: the request after `k` steps of the
/// frame has `k` for the length of its past. The first asks for the assistant's
/// token, the second, with that token, for the first channel, and each further
/// one, with the token just picked, for the channel behind the one it is of.
pub proof fn local_steps_count_up(
    e: MossTtsNano,
    v: SynthView,
    events: Seq<Event>,
    event: Event,
    request: LocalRequest,
)
    requires
        v.phase == Phase::Prefill,
        all_awaited(e, v, events),
        is_awaited(course(e, v, events), event),
        0 < e.n_vq() < i32::MAX,
        next(e, course(e, v, events), event).1 == StepView::Local(request),
    ensures
        ({
            let k = local_steps(events.push(event));
            &&& request.past_valid_lengths == k
            &&& k == 0 ==> request.step_type == 0 && request.text_token_id == 0
                && request.audio_token_id == 0 && request.channel_index == 0
            &&& k == 1 ==> (event matches Event::Opened(token, _) && request.step_type == 1
                && request.text_token_id == token && request.audio_token_id == 0
                && request.channel_index == 0)
            &&& k > 1 ==> (event matches Event::Filled(token, _) && request.step_type == 2
                && request.text_token_id == 0 && request.audio_token_id == token
                && request.channel_index == k - 2)
        }),
{
    lemma_counts_steps_in_course(e, v, events);
    let all = events.push(event);
    assert(all.drop_last() == events);
    lemma_counts_steps(e, course(e, v, events), event, local_steps(events));
}

// --- What has been given out ---

/// The samples that came of decoding.
pub open spec fn samples_decoded(events: Seq<Event>) -> nat
    decreases events.len(),
{
    if events.len() == 0 {
        0
    } else {
        samples_decoded(events.drop_last()) + match events.last() {
            Event::Decoded(n) => n,
            _ => 0,
        }
    }
}

#[verifier::rlimit(50)]
proof fn lemma_counts_samples(e: MossTtsNano, v: SynthView, event: Event)
    ensures
        ({
            let n = match event {
                Event::Decoded(n) => n,
                _ => 0,
            };
            let after = next(e, v, event).0;
            after.emitted == v.emitted + n && after.started == (v.started || n > 0)
        }),
{
    match event {
        Event::Made(frame, elapsed) => {
            assert(take_frame(e, v, frame, elapsed).0.emitted == v.emitted);
        },
        Event::Filled(token, elapsed) => {
            assert(after_filling(e, v, token, elapsed).0.emitted == v.emitted);
        },
        _ => {},
    }
}

/// All samples count: what has been given out since the start is the sum of what
/// came of decoding, and there has been audio if that is more than nothing.
pub proof fn samples_add_up(e: MossTtsNano, v: SynthView, events: Seq<Event>)
    requires
        v.emitted == 0,
        !v.started,
    ensures
        course(e, v, events).emitted == samples_decoded(events),
        course(e, v, events).started == (samples_decoded(events) > 0),
    decreases events.len(),
{
    if events.len() > 0 {
        samples_add_up(e, v, events.drop_last());
        lemma_counts_samples(e, course(e, v, events.drop_last()), events.last());
    }
}

/// A text is refused exactly if it is blank.
pub proof fn blank_text_is_refused(m: ModelView, text: Seq<char>, max_tokens: nat)
    ensures
        (chunks_of(m, tts_text(text), max_tokens).len() == 0) == (trimmed(text).len() == 0),
{
    if trimmed(text).len() > 0 {
        tts_text_is_ended(text);
        crate::tokenizer::tts_text_is_solid(text);
        trimming(tts_text(text));
        lemma_some_piece(m, tts_text(text), safe_budget(max_tokens));
    } else {
        assert(crate::whitespace::flattened(trimmed(text), seq!['\r', '\n', '\t'])
            == Seq::<char>::empty());
    }
}

} // verus!
