//! Telling the end of speech.

use crate::float::number::Binary64;
use crate::float::ratios::three_quarters_are_exact;
use std::collections::HashSet;
use vstd::prelude::*;

verus! {

broadcast use vstd::std_specs::hash::group_hash_axioms;

/// What a detector holds.
pub struct DetectorView {
    pub recent: Seq<Seq<i32>>,
    pub window: nat,
}

/// The recent frames with one more, and no more of them than the window takes.
pub open spec fn pushed(d: DetectorView, frame: Seq<i32>) -> Seq<Seq<i32>> {
    let all = d.recent.push(frame);
    if all.len() > d.window {
        all.drop_first()
    } else {
        all
    }
}

/// Whether all frames are the same.
pub open spec fn all_identical(frames: Seq<Seq<i32>>) -> bool {
    forall|i: int| 0 <= i < frames.len() - 1 ==> #[trigger] frames[i] == frames[i + 1]
}

/// The tokens of the first channel.
pub open spec fn first_tokens(frames: Seq<Seq<i32>>) -> Seq<i32> {
    frames.map_values(|f: Seq<i32>| f[0])
}

/// How many of the first `n` tokens are `t`.
pub open spec fn occurrences(tokens: Seq<i32>, t: i32, n: nat) -> nat
    decreases n,
{
    if n == 0 {
        0
    } else {
        occurrences(tokens, t, (n - 1) as nat) + if tokens[n - 1] == t {
            1nat
        } else {
            0
        }
    }
}

/// Whether a token makes up more than three quarters of the tokens.
pub open spec fn dominates(tokens: Seq<i32>, t: i32) -> bool {
    Binary64::of(occurrences(tokens, t, tokens.len())).div_spec(Binary64::of(tokens.len())).gt(
        Binary64 { bits: 0x3fe8_0000_0000_0000 },
    )
}

/// Whether one of the tokens makes up more than three quarters of them.
pub open spec fn is_dominated(tokens: Seq<i32>) -> bool {
    exists|k: int| 0 <= k < tokens.len() && dominates(tokens, #[trigger] tokens[k])
}

/// Whether a frame tells the end of speech.
pub open spec fn ends_speech(d: DetectorView, frame: Seq<i32>, step: nat) -> bool {
    let frames = pushed(d, frame);
    frames.len() >= d.window && (all_identical(frames) || step > 30 && (is_dominated(
        first_tokens(frames),
    ) || first_tokens(frames).to_set().len() <= 2))
}

/// What a detector holds after a frame; when speech has ended it starts over.
pub open spec fn after_frame(d: DetectorView, frame: Seq<i32>, step: nat) -> DetectorView {
    DetectorView {
        recent: if ends_speech(d, frame, step) {
            Seq::empty()
        } else {
            pushed(d, frame)
        },
        window: d.window,
    }
}

/// Whether the first tokens can be looked at: they are, once the window is
/// full of frames that are not all the same.
pub open spec fn has_first_tokens(d: DetectorView, frame: Seq<i32>) -> bool {
    let frames = pushed(d, frame);
    frames.len() >= d.window && !all_identical(frames) ==> forall|i: int|
        0 <= i < frames.len() ==> (#[trigger] frames[i]).len() > 0
}

/// End-of-speech detector: tracks recent frames and detects repetition patterns.
pub struct EndOfSpeechDetector {
    recent_frames: Vec<Vec<i32>>,
    repeat_window: usize,
}

impl View for EndOfSpeechDetector {
    type V = DetectorView;

    closed spec fn view(&self) -> DetectorView {
        DetectorView {
            recent: self.recent_frames@.map_values(|v: Vec<i32>| v@),
            window: self.repeat_window as nat,
        }
    }
}

fn same_frame(a: &Vec<i32>, b: &Vec<i32>) -> (r: bool)
    ensures
        r == (a@ == b@),
{
    if a.len() != b.len() {
        return false;
    }
    let mut i: usize = 0;
    while i < a.len()
        invariant
            i <= a@.len() == b@.len(),
            forall|j: int| 0 <= j < i ==> a@[j] == b@[j],
        decreases a.len() - i,
    {
        if a[i] != b[i] {
            return false;
        }
        i = i + 1;
    }
    proof {
        assert(a@ == b@);
    }
    true
}

pub(crate) fn copy_frame(frame: &[i32]) -> (r: Vec<i32>)
    ensures
        r@ == frame@,
{
    let mut r: Vec<i32> = Vec::new();
    let mut i: usize = 0;
    while i < frame.len()
        invariant
            i <= frame@.len(),
            r@ == frame@.take(i as int),
        decreases frame.len() - i,
    {
        r.push(frame[i]);
        proof {
            assert(r@ == frame@.take(i + 1));
        }
        i = i + 1;
    }
    proof {
        assert(frame@.take(i as int) == frame@);
    }
    r
}

impl EndOfSpeechDetector {
    /// There are never more frames than the window takes.
    pub closed spec fn wf(self) -> bool {
        self@.recent.len() <= self@.window
    }

    pub fn new(repeat_window: usize) -> (r: Self)
        ensures
            r.wf(),
            r@ == (DetectorView { recent: Seq::empty(), window: repeat_window as nat }),
    {
        let r = EndOfSpeechDetector { recent_frames: Vec::new(), repeat_window };
        proof {
            assert(r@.recent == Seq::<Seq<i32>>::empty());
        }
        r
    }

    fn identical(&self) -> (r: bool)
        ensures
            r == all_identical(self@.recent),
    {
        let frames = &self.recent_frames;
        let mut i: usize = 1;
        while i < frames.len()
            invariant
                1 <= i,
                frames@ == self.recent_frames@,
                forall|j: int|
                    0 <= j < i - 1 && j < frames@.len() - 1 ==> #[trigger] self@.recent[j]
                        == self@.recent[j + 1],
            decreases frames.len() - i,
        {
            if !same_frame(&frames[i - 1], &frames[i]) {
                proof {
                    assert(self@.recent[i - 1] != self@.recent[i - 1 + 1]);
                }
                return false;
            }
            i = i + 1;
        }
        true
    }

    /// The tokens of the first channel.
    fn first_channel(&self) -> (r: Vec<i32>)
        requires
            forall|i: int| 0 <= i < self@.recent.len() ==> (#[trigger] self@.recent[i]).len() > 0,
        ensures
            r@ == first_tokens(self@.recent),
    {
        let frames = &self.recent_frames;
        let mut r: Vec<i32> = Vec::new();
        let mut i: usize = 0;
        while i < frames.len()
            invariant
                i <= frames@.len(),
                frames@ == self.recent_frames@,
                forall|i: int|
                    0 <= i < self@.recent.len() ==> (#[trigger] self@.recent[i]).len() > 0,
                r@ == first_tokens(self@.recent).take(i as int),
            decreases frames.len() - i,
        {
            proof {
                assert(self@.recent[i as int].len() > 0);
            }
            r.push(frames[i][0]);
            proof {
                assert(r@ == first_tokens(self@.recent).take(i + 1));
            }
            i = i + 1;
        }
        proof {
            assert(first_tokens(self@.recent).take(i as int) == first_tokens(self@.recent));
        }
        r
    }

    /// Whether a frame can be checked: once the window is full of frames that
    /// are not all the same, each needs a first token.
    pub fn accepts(&self, frame: &[i32]) -> (r: bool)
        ensures
            r == has_first_tokens(self@, frame@),
    {
        let mut next = EndOfSpeechDetector {
            recent_frames: Vec::new(),
            repeat_window: self.repeat_window,
        };
        let total: usize = self.recent_frames.len();
        let mut i: usize = if total < self.repeat_window {
            0
        } else {
            1
        };
        let ghost first = i;
        let ghost all = self@.recent.push(frame@);
        proof {
            assert(next@.recent == all.subrange(first as int, i as int));
        }
        while i < total
            invariant
                total == self.recent_frames@.len(),
                first <= 1,
                first <= i,
                i <= total || i == 1 && total == 0,
                all == self@.recent.push(frame@),
                next.repeat_window == self.repeat_window,
                next@.recent == all.subrange(first as int, i as int),
            decreases total - i,
        {
            let ghost before = next@.recent;
            next.recent_frames.push(copy_frame(self.recent_frames[i].as_slice()));
            proof {
                assert(next@.recent == before.push(all[i as int]));
                assert(next@.recent == all.subrange(first as int, i + 1));
            }
            i = i + 1;
        }
        if i == total {
            let ghost before = next@.recent;
            next.recent_frames.push(copy_frame(frame));
            proof {
                assert(next@.recent == before.push(frame@));
                assert(next@.recent == all.subrange(first as int, total + 1));
            }
        }
        proof {
            if first == 0 {
                assert(all.subrange(0, total + 1) == all);
            } else {
                assert(all.subrange(1, total + 1) == all.drop_first());
            }
            assert(next@.recent == pushed(self@, frame@));
        }
        if next.recent_frames.len() < self.repeat_window || next.identical() {
            return true;
        }
        let mut k: usize = 0;
        while k < next.recent_frames.len()
            invariant
                k <= next.recent_frames@.len(),
                next@.recent == pushed(self@, frame@),
                next@.recent.len() >= self@.window,
                !all_identical(next@.recent),
                forall|j: int| 0 <= j < k ==> (#[trigger] next@.recent[j]).len() > 0,
            decreases next.recent_frames.len() - k,
        {
            if next.recent_frames[k].len() == 0 {
                proof {
                    assert(next@.recent[k as int].len() == 0);
                }
                return false;
            }
            k = k + 1;
        }
        true
    }

    /// Check if the current frame indicates end of speech.
    /// Returns true if speech should stop.
    pub fn check(&mut self, frame: &[i32], step: usize) -> (r: bool)
        requires
            old(self).wf(),
            has_first_tokens(old(self)@, frame@),
        ensures
            final(self).wf(),
            r == ends_speech(old(self)@, frame@, step as nat),
            final(self)@ == after_frame(old(self)@, frame@, step as nat),
    {
        let ghost before = self@;
        self.recent_frames.push(copy_frame(frame));
        proof {
            assert(self@.recent == before.recent.push(frame@));
        }
        if self.recent_frames.len() > self.repeat_window {
            let ghost all = self@.recent;
            self.recent_frames.remove(0);
            proof {
                assert(self@.recent == all.drop_first());
            }
        }
        proof {
            assert(self@.recent == pushed(before, frame@));
            assert(self@.window == before.window);
        }
        if self.recent_frames.len() < self.repeat_window {
            return false;
        }
        let mut stop = self.identical();
        if !stop {
            let tokens = self.first_channel();
            stop = step > 30 && (dominated(&tokens) || few(&tokens));
        }
        if stop {
            self.recent_frames.clear();
            proof {
                assert(self@.recent == Seq::<Seq<i32>>::empty());
            }
        }
        stop
    }
}

fn dominant(tokens: &Vec<i32>, t: i32) -> (r: bool)
    ensures
        r == dominates(tokens@, t),
{
    let mut count: usize = 0;
    let mut i: usize = 0;
    while i < tokens.len()
        invariant
            count <= i <= tokens@.len(),
            count == occurrences(tokens@, t, i as nat),
        decreases tokens.len() - i,
    {
        if tokens[i] == t {
            count = count + 1;
        }
        i = i + 1;
    }
    let ratio = Binary64::from_integer(count as u64).over(
        Binary64::from_integer(tokens.len() as u64),
    );
    ratio.exceeds(Binary64 { bits: 0x3fe8_0000_0000_0000 })
}

fn dominated(tokens: &Vec<i32>) -> (r: bool)
    ensures
        r == is_dominated(tokens@),
{
    let mut k: usize = 0;
    while k < tokens.len()
        invariant
            k <= tokens@.len(),
            forall|j: int| 0 <= j < k ==> !dominates(tokens@, #[trigger] tokens@[j]),
        decreases tokens.len() - k,
    {
        if dominant(tokens, tokens[k]) {
            proof {
                assert(dominates(tokens@, tokens@[k as int]));
            }
            return true;
        }
        k = k + 1;
    }
    false
}

fn few(tokens: &Vec<i32>) -> (r: bool)
    ensures
        r == (tokens@.to_set().len() <= 2),
{
    let mut unique: HashSet<i32> = HashSet::new();
    let mut i: usize = 0;
    proof {
        assert(unique@ == tokens@.take(0).to_set());
    }
    while i < tokens.len()
        invariant
            i <= tokens@.len(),
            unique@ == tokens@.take(i as int).to_set(),
        decreases tokens.len() - i,
    {
        unique.insert(tokens[i]);
        proof {
            let now = tokens@.take(i + 1);
            assert(now == tokens@.take(i as int).push(tokens@[i as int]));
            assert forall|t: i32| now.to_set().contains(t) <==> tokens@.take(
                i as int,
            ).to_set().insert(tokens@[i as int]).contains(t) by {
                if now.contains(t) && t != tokens@[i as int] {
                    let k = choose|k: int| 0 <= k < now.len() && now[k] == t;
                    assert(tokens@.take(i as int)[k] == t);
                }
                if tokens@.take(i as int).contains(t) {
                    let k = choose|k: int|
                        0 <= k < tokens@.take(i as int).len() && tokens@.take(i as int)[k] == t;
                    assert(now[k] == t);
                }
                assert(now[i as int] == tokens@[i as int]);
            }
            assert(now.to_set() == tokens@.take(i as int).to_set().insert(tokens@[i as int]));
        }
        i = i + 1;
    }
    proof {
        assert(tokens@.take(i as int) == tokens@);
    }
    unique.len() <= 2
}

/// Speech never ends before as many frames have come as the window takes.
pub proof fn speech_goes_on_until_window(d: DetectorView, frame: Seq<i32>, step: nat)
    requires
        d.recent.len() + 1 < d.window,
    ensures
        !ends_speech(d, frame, step),
        after_frame(d, frame, step).recent == d.recent.push(frame),
{
}

/// Speech ends when a window is full of one frame.
pub proof fn repetition_ends_speech(d: DetectorView, frame: Seq<i32>, step: nat)
    requires
        d.recent.len() + 1 >= d.window,
        forall|i: int| 0 <= i < d.recent.len() ==> #[trigger] d.recent[i] == frame,
    ensures
        ends_speech(d, frame, step),
{
    let frames = pushed(d, frame);
    let all = d.recent.push(frame);
    assert forall|i: int| 0 <= i < all.len() implies #[trigger] all[i] == frame by {
        if i < d.recent.len() {
            assert(all[i] == d.recent[i]);
        }
    }
    assert(forall|i: int| 0 <= i < frames.len() ==> #[trigger] frames[i] == frame);
}

/// The last `window` of the first `n` frames, or all of them.
pub open spec fn window_at(frames: Seq<Seq<i32>>, n: int, window: nat) -> Seq<Seq<i32>> {
    if n <= window {
        frames.take(n)
    } else {
        frames.subrange(n - window, n)
    }
}

/// Whether none of frames that come one after the other ends speech; the first
/// comes at step zero.
pub open spec fn are_kept(frames: Seq<Seq<i32>>, window: nat) -> bool {
    forall|n: int|
        0 <= n < frames.len() ==> !ends_speech(
            DetectorView { recent: window_at(frames, n, window), window },
            #[trigger] frames[n],
            n as nat,
        )
}

/// With one more frame the window moves on.
pub proof fn lemma_window_moves(frames: Seq<Seq<i32>>, n: int, window: nat)
    requires
        window > 0,
        0 <= n < frames.len(),
    ensures
        pushed(
            DetectorView { recent: window_at(frames, n, window), window },
            frames[n],
        ) == window_at(frames, n + 1, window),
{
    let d = DetectorView { recent: window_at(frames, n, window), window };
    assert(pushed(d, frames[n]) == window_at(frames, n + 1, window));
}

/// Frames that go on vary: of as many in a row as the window takes, not all are
/// the same, and from step 31 on they have at least three first tokens, none of
/// which makes up more than three quarters of them.
pub proof fn kept_frames_vary(frames: Seq<Seq<i32>>, window: nat, start: int)
    requires
        window > 0,
        are_kept(frames, window),
        0 <= start,
        start + window <= frames.len(),
    ensures
        ({
            let row = frames.subrange(start, start + window);
            &&& !all_identical(row)
            &&& start + window - 1 > 30 ==> first_tokens(row).to_set().len() >= 3
                && !is_dominated(first_tokens(row))
        }),
{
    let n = start + window - 1;
    let row = frames.subrange(start, start + window);
    lemma_window_moves(frames, n, window);
    assert(window_at(frames, n + 1, window) == row);
    assert(!ends_speech(
        DetectorView { recent: window_at(frames, n, window), window },
        frames[n],
        n as nat,
    ));
}

// --- What repetition is ---

proof fn lemma_occurrences(tokens: Seq<i32>, t: i32, n: nat)
    requires
        n <= tokens.len(),
    ensures
        occurrences(tokens, t, n) == tokens.take(n as int).to_multiset().count(t),
    decreases n,
{
    broadcast use vstd::seq_lib::group_to_multiset_ensures;
    broadcast use vstd::multiset::group_multiset_axioms;

    if n == 0 {
        assert(tokens.take(0).len() == 0);
        assert(tokens.take(0).to_multiset().len() == 0);
    } else {
        lemma_occurrences(tokens, t, (n - 1) as nat);
        assert(tokens.take(n as int) == tokens.take(n - 1).push(tokens[n - 1]));
    }
}

/// A token dominates exactly if, counted out, it makes up more than three
/// quarters of the tokens.
pub proof fn dominance_is_counted_out(tokens: Seq<i32>, t: i32)
    requires
        0 < tokens.len() <= 0x8_0000_0000_0000,
    ensures
        dominates(tokens, t) == (4 * tokens.to_multiset().count(t) > 3 * tokens.len()),
{
    broadcast use vstd::seq_lib::group_to_multiset_ensures;
    broadcast use vstd::multiset::group_multiset_axioms;

    lemma_occurrences(tokens, t, tokens.len());
    assert(tokens.take(tokens.len() as int) == tokens);
    lemma_occurrences_bound(tokens, t, tokens.len());
    three_quarters_are_exact(occurrences(tokens, t, tokens.len()), tokens.len());
}

proof fn lemma_occurrences_bound(tokens: Seq<i32>, t: i32, n: nat)
    ensures
        occurrences(tokens, t, n) <= n,
        occurrences(tokens, t, n) > 0 ==> exists|k: int| 0 <= k < n && #[trigger] tokens[k] == t,
    decreases n,
{
    if n > 0 {
        lemma_occurrences_bound(tokens, t, (n - 1) as nat);
    }
}

/// Whether all tokens are one of two.
pub open spec fn are_two(tokens: Seq<i32>, a: i32, b: i32) -> bool {
    forall|i: int| 0 <= i < tokens.len() ==> #[trigger] tokens[i] == a || tokens[i] == b
}

proof fn lemma_are_two(tokens: Seq<i32>)
    ensures
        (tokens.to_set().len() <= 2) == (exists|a: i32, b: i32| are_two(tokens, a, b)),
{
    let set = tokens.to_set();
    vstd::seq_lib::seq_to_set_is_finite(tokens);
    if exists|a: i32, b: i32| are_two(tokens, a, b) {
        let (a, b) = choose|a: i32, b: i32| are_two(tokens, a, b);
        let two = Set::<i32>::empty().insert(a).insert(b);
        assert forall|t: i32| set.contains(t) implies two.contains(t) by {
            let k = choose|k: int| 0 <= k < tokens.len() && tokens[k] == t;
            assert(tokens[k] == a || tokens[k] == b);
        }
        vstd::set_lib::lemma_len_subset(set, two);
    }
    if set.len() <= 2 {
        let a = if set.len() == 0 {
            0i32
        } else {
            set.choose()
        };
        let rest = set.remove(a);
        let b = if rest.len() == 0 {
            a
        } else {
            rest.choose()
        };
        let none = rest.remove(b);
        assert(none.len() == 0);
        assert(none =~= Set::empty());
        assert forall|i: int| 0 <= i < tokens.len() implies #[trigger] tokens[i] == a || tokens[i]
            == b by {
            assert(set.contains(tokens[i]));
            assert(!none.contains(tokens[i]));
        }
        assert(are_two(tokens, a, b));
    }
}

/// When speech ends, and when it does not: once the window is full, it ends if
/// all the frames in it are the same, and, later than step 30, if more than three
/// quarters of their first tokens are the same, or all of these are one of two.
pub proof fn repetition_alone_ends_speech(d: DetectorView, frame: Seq<i32>, step: nat)
    requires
        0 < d.window <= 0x8_0000_0000_0000,
        d.recent.len() <= d.window,
    ensures
        ({
            let all = d.recent.push(frame);
            let row = all.skip(all.len() - d.window);
            let tokens = Seq::new(d.window, |i: int| row[i][0]);
            ends_speech(d, frame, step) == (all.len() >= d.window && ((forall|i: int|
                0 <= i < row.len() ==> #[trigger] row[i] == frame) || step > 30 && ((exists|t: i32|
                4 * #[trigger] tokens.to_multiset().count(t) > 3 * d.window) || (exists|
                a: i32,
                b: i32,
            |
                are_two(tokens, a, b)))))
        }),
{
    let all = d.recent.push(frame);
    if all.len() >= d.window {
        let row = all.skip(all.len() - d.window);
        let tokens = Seq::new(d.window, |i: int| row[i][0]);
        assert(pushed(d, frame) == row);
        assert(first_tokens(row) == tokens);
        assert(row.last() == frame);
        lemma_identical(row);
        lemma_are_two(tokens);
        if is_dominated(tokens) {
            let k = choose|k: int|
                0 <= k < tokens.len() && dominates(tokens, #[trigger] tokens[k]);
            dominance_is_counted_out(tokens, tokens[k]);
            assert(4 * tokens.to_multiset().count(tokens[k]) > 3 * d.window);
        }
        if exists|t: i32| 4 * #[trigger] tokens.to_multiset().count(t) > 3 * d.window {
            let t = choose|t: i32| 4 * #[trigger] tokens.to_multiset().count(t) > 3 * d.window;
            dominance_is_counted_out(tokens, t);
            lemma_occurrences(tokens, t, tokens.len());
            assert(tokens.take(tokens.len() as int) == tokens);
            lemma_occurrences_bound(tokens, t, tokens.len());
            let k = choose|k: int| 0 <= k < tokens.len() && #[trigger] tokens[k] == t;
            assert(dominates(tokens, tokens[k]));
        }
    }
}

/// Frames are all the same if each is the last one.
proof fn lemma_identical(frames: Seq<Seq<i32>>)
    requires
        frames.len() > 0,
    ensures
        all_identical(frames) == (forall|i: int|
            0 <= i < frames.len() ==> #[trigger] frames[i] == frames.last()),
    decreases frames.len(),
{
    let front = frames.drop_last();
    if all_identical(frames) && front.len() > 0 {
        assert forall|i: int| 0 <= i < front.len() - 1 implies #[trigger] front[i] == front[i
            + 1] by {
            assert(front[i] == frames[i]);
            assert(frames[i] == frames[i + 1]);
        }
        lemma_identical(front);
        assert(frames[frames.len() - 2] == frames[frames.len() - 2 + 1]);
        assert forall|i: int| 0 <= i < frames.len() implies #[trigger] frames[i]
            == frames.last() by {
            if i < front.len() {
                assert(frames[i] == front[i]);
            }
        }
    }
    if forall|i: int| 0 <= i < frames.len() ==> #[trigger] frames[i] == frames.last() {
        assert forall|i: int| 0 <= i < frames.len() - 1 implies #[trigger] frames[i] == frames[i
            + 1] by {
            assert(frames[i + 1] == frames.last());
        }
    }
}

} // verus!
