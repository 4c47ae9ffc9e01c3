//! Byte-pair encoding: from single characters on, the neighbours whose joined
//! piece scores highest are merged, as long as there are any.

use crate::float::number::{lowest, Binary32};
use crate::sp_model::{ModelView, SentencePieceModel};
use crate::token::{
    byte_place, concatenated, fallback_id, id_of, lemma_partition_spells, partition, spell,
    spelled, token_views, Span, Token, TokenView,
};
use crate::vocabulary::place_of;
use vstd::prelude::*;

verus! {

/// The ID of a single character.
pub open spec fn char_id(m: ModelView, c: char) -> i32 {
    match place_of(m.pieces, seq![c]) {
        Some(i) => id_of(i),
        None => fallback_id(m, c),
    }
}

/// One span for each character.
pub open spec fn single_spans(m: ModelView, text: Seq<char>) -> Seq<Span> {
    Seq::new(
        text.len(),
        |i: int| Span { start: i as usize, end: (i + 1) as usize, id: char_id(m, text[i]) },
    )
}

/// The place of the piece that span `i` and the next one make together.
pub open spec fn joint_place(m: ModelView, text: Seq<char>, spans: Seq<Span>, i: int) -> Option<
    nat,
> {
    place_of(m.pieces, text.subrange(spans[i].start as int, spans[i + 1].end as int))
}

pub open spec fn joint_score(m: ModelView, text: Seq<char>, spans: Seq<Span>, i: int) -> Binary32 {
    m.pieces[joint_place(m, text, spans, i).unwrap() as int].score
}

/// Whether span `i` and the next one can be merged.
pub open spec fn mergeable(m: ModelView, text: Seq<char>, spans: Seq<Span>, i: int) -> bool {
    joint_place(m, text, spans, i) is Some && joint_score(m, text, spans, i).gt(lowest())
}

/// Whether merging at `i` is best among the first `n` pairs: no pair scores
/// higher, and none before it as high.
pub open spec fn best_among(
    m: ModelView,
    text: Seq<char>,
    spans: Seq<Span>,
    n: int,
    i: int,
) -> bool {
    &&& 0 <= i < n
    &&& mergeable(m, text, spans, i)
    &&& forall|j: int|
        0 <= j < n && #[trigger] mergeable(m, text, spans, j) ==> if j < i {
            joint_score(m, text, spans, i).gt(joint_score(m, text, spans, j))
        } else {
            !joint_score(m, text, spans, j).gt(joint_score(m, text, spans, i))
        }
}

pub open spec fn best(m: ModelView, text: Seq<char>, spans: Seq<Span>, i: int) -> bool {
    best_among(m, text, spans, spans.len() - 1, i)
}

/// The spans with span `i` and the next one merged.
pub open spec fn merge_at(m: ModelView, text: Seq<char>, spans: Seq<Span>, i: int) -> Seq<Span> {
    spans.update(
        i,
        Span {
            start: spans[i].start,
            end: spans[i + 1].end,
            id: id_of(joint_place(m, text, spans, i).unwrap()),
        },
    ).remove(i + 1)
}

/// The spans when nothing more can be merged.
pub open spec fn merged(m: ModelView, text: Seq<char>, spans: Seq<Span>) -> Seq<Span>
    decreases spans.len(),
{
    if exists|i: int| best(m, text, spans, i) {
        let i = choose|i: int| best(m, text, spans, i);
        merged(m, text, merge_at(m, text, spans, i))
    } else {
        spans
    }
}

/// The tokens of a normalized text.
pub open spec fn bpe_tokens(m: ModelView, text: Seq<char>) -> Seq<TokenView> {
    spelled(text, merged(m, text, single_spans(m, text)))
}

/// There is at most one best merge.
proof fn lemma_best_is_unique(m: ModelView, text: Seq<char>, spans: Seq<Span>, i: int, j: int)
    requires
        best(m, text, spans, i),
        best(m, text, spans, j),
    ensures
        i == j,
{
}

/// If anything can be merged, one merge is best.
pub proof fn lemma_best_exists(m: ModelView, text: Seq<char>, spans: Seq<Span>, n: int)
    requires
        exists|i: int| 0 <= i < n && mergeable(m, text, spans, i),
    ensures
        exists|i: int| best_among(m, text, spans, n, i),
    decreases n,
{
    if exists|i: int| 0 <= i < n - 1 && mergeable(m, text, spans, i) {
        let k = n - 1;
        lemma_best_exists(m, text, spans, k);
        let b = choose|i: int| best_among(m, text, spans, k, i);
        if mergeable(m, text, spans, n - 1) && joint_score(m, text, spans, n - 1).gt(
            joint_score(m, text, spans, b),
        ) {
            assert(best_among(m, text, spans, n, n - 1));
        } else {
            assert(best_among(m, text, spans, n, b));
        }
    } else {
        assert(best_among(m, text, spans, n, n - 1));
    }
}

/// Every span is a piece of the vocabulary under its place's ID, or one
/// character under the ID that stands for it.
pub open spec fn named(m: ModelView, text: Seq<char>, s: Span) -> bool {
    match place_of(m.pieces, text.subrange(s.start as int, s.end as int)) {
        Some(i) => s.id == id_of(i),
        None => s.end == s.start + 1 && s.id == fallback_id(m, text[s.start as int]),
    }
}

proof fn lemma_partition_bounds(spans: Seq<Span>, n: nat)
    requires
        partition(spans, n),
    ensures
        forall|i: int| 0 <= i < spans.len() ==> (#[trigger] spans[i]).start < spans[i].end <= n,
        forall|i: int|
            0 <= i < spans.len() - 1 ==> (#[trigger] spans[i]).end == spans[i + 1].start,
        spans.len() <= n,
    decreases spans.len(),
{
    if spans.len() > 0 {
        let front = spans.drop_last();
        lemma_partition_bounds(front, spans.last().start as nat);
        assert forall|i: int| 0 <= i < spans.len() implies (#[trigger] spans[i]).start
            < spans[i].end <= n by {
            if i < front.len() {
                assert(front[i] == spans[i]);
            }
        }
        assert forall|i: int| 0 <= i < spans.len() - 1 implies (#[trigger] spans[i]).end == spans[i
            + 1].start by {
            assert(front[i] == spans[i]);
            if i < front.len() - 1 {
                assert(front[i + 1] == spans[i + 1]);
            } else {
                assert(partition(front, spans.last().start as nat));
                assert(front.last() == spans[i]);
            }
        }
    }
}

proof fn lemma_merge_keeps_partition(spans: Seq<Span>, n: nat, i: int, joint: Span)
    requires
        partition(spans, n),
        0 <= i < spans.len() - 1,
        joint.start == spans[i].start,
        joint.end == spans[i + 1].end,
    ensures
        partition(spans.update(i, joint).remove(i + 1), n),
    decreases spans.len(),
{
    let new = spans.update(i, joint).remove(i + 1);
    let front = spans.drop_last();
    if i == spans.len() - 2 {
        assert(front.last() == spans[i]);
        assert(partition(front, spans.last().start as nat));
        assert(new.last() == joint);
        assert(new.drop_last() == front.drop_last());
    } else {
        assert(new.last() == spans.last());
        lemma_merge_keeps_partition(front, spans.last().start as nat, i, joint);
        assert(new.drop_last() == front.update(i, joint).remove(i + 1));
    }
}

proof fn lemma_single_partition(m: ModelView, text: Seq<char>, n: nat)
    requires
        n <= text.len() <= usize::MAX,
    ensures
        partition(single_spans(m, text).take(n as int), n),
    decreases n,
{
    let spans = single_spans(m, text).take(n as int);
    if n > 0 {
        lemma_single_partition(m, text, (n - 1) as nat);
        assert(spans.drop_last() == single_spans(m, text).take(n - 1));
    }
}

proof fn lemma_single_spans(m: ModelView, text: Seq<char>)
    requires
        text.len() <= usize::MAX,
    ensures
        partition(single_spans(m, text), text.len()),
        forall|i: int|
            0 <= i < text.len() ==> named(m, text, #[trigger] single_spans(m, text)[i]),
{
    let spans = single_spans(m, text);
    lemma_single_partition(m, text, text.len());
    assert(spans.take(text.len() as int) == spans);
    assert forall|i: int| 0 <= i < text.len() implies named(m, text, #[trigger] spans[i]) by {
        assert(text.subrange(i, i + 1) == seq![text[i]]);
    }
}

proof fn lemma_merged_keeps(m: ModelView, text: Seq<char>, spans: Seq<Span>)
    requires
        partition(spans, text.len()),
        forall|i: int| 0 <= i < spans.len() ==> named(m, text, #[trigger] spans[i]),
    ensures
        partition(merged(m, text, spans), text.len()),
        forall|i: int|
            0 <= i < merged(m, text, spans).len() ==> named(
                m,
                text,
                #[trigger] merged(m, text, spans)[i],
            ),
        !exists|i: int| best(m, text, merged(m, text, spans), i),
    decreases spans.len(),
{
    if exists|i: int| best(m, text, spans, i) {
        let i = choose|i: int| best(m, text, spans, i);
        let next = merge_at(m, text, spans, i);
        let joint = Span {
            start: spans[i].start,
            end: spans[i + 1].end,
            id: id_of(joint_place(m, text, spans, i).unwrap()),
        };
        lemma_merge_keeps_partition(spans, text.len(), i, joint);
        assert forall|j: int| 0 <= j < next.len() implies named(m, text, #[trigger] next[j]) by {
            if j < i {
                assert(next[j] == spans[j]);
            } else if j == i {
                assert(next[j] == joint);
            } else {
                assert(next[j] == spans[j + 1]);
            }
        }
        lemma_merged_keeps(m, text, next);
    }
}

proof fn lemma_nothing_left(m: ModelView, text: Seq<char>, spans: Seq<Span>, i: int)
    requires
        !exists|i: int| best(m, text, spans, i),
        0 <= i < spans.len() - 1,
    ensures
        !mergeable(m, text, spans, i),
{
    if mergeable(m, text, spans, i) {
        let k = spans.len() - 1;
        lemma_best_exists(m, text, spans, k);
        let b = choose|i: int| best_among(m, text, spans, k, i);
        assert(best(m, text, spans, b));
    }
}

/// The pieces of the tokens, one after the other, are the text.
pub proof fn bpe_covers_text(m: ModelView, text: Seq<char>)
    requires
        text.len() <= usize::MAX,
    ensures
        concatenated(bpe_tokens(m, text)) == text,
{
    let spans = merged(m, text, single_spans(m, text));
    lemma_single_spans(m, text);
    lemma_merged_keeps(m, text, single_spans(m, text));
    lemma_partition_spells(text, spans, text.len());
    assert(text.take(text.len() as int) == text);
}

/// A token's ID is that of its piece; a token that is no piece is a single
/// character under the ID of its first byte's piece, or the unknown ID.
pub proof fn bpe_ids_name_pieces(m: ModelView, text: Seq<char>, i: int)
    requires
        text.len() <= usize::MAX,
        0 <= i < bpe_tokens(m, text).len(),
    ensures
        ({
            let t = bpe_tokens(m, text)[i];
            match place_of(m.pieces, t.piece) {
                Some(place) => t.id == id_of(place),
                None => t.piece.len() == 1 && t.id == fallback_id(m, t.piece[0]),
            }
        }),
{
    let spans = merged(m, text, single_spans(m, text));
    lemma_single_spans(m, text);
    lemma_merged_keeps(m, text, single_spans(m, text));
    lemma_partition_bounds(spans, text.len());
    assert(named(m, text, spans[i]));
}

/// No two neighbours are left whose pieces make up a piece with a score.
#[verifier::spinoff_prover]
#[verifier::rlimit(80)]
pub proof fn bpe_merges_all(m: ModelView, text: Seq<char>, i: int)
    requires
        text.len() <= usize::MAX,
        0 <= i < bpe_tokens(m, text).len() - 1,
    ensures
        ({
            let joint = bpe_tokens(m, text)[i].piece + bpe_tokens(m, text)[i + 1].piece;
            place_of(m.pieces, joint) matches Some(place) ==> !m.pieces[place as int].score.gt(
                lowest(),
            )
        }),
{
    let spans = merged(m, text, single_spans(m, text));
    lemma_single_spans(m, text);
    lemma_merged_keeps(m, text, single_spans(m, text));
    lemma_partition_bounds(spans, text.len());
    let a = spans[i];
    let b = spans[i + 1];
    assert(text.subrange(a.start as int, a.end as int) + text.subrange(b.start as int, b.end as int)
        == text.subrange(a.start as int, b.end as int));
    lemma_nothing_left(m, text, spans, i);
}

// --- Which pair is merged ---

/// The spans in which span `i` and the next one have become the span of the
/// piece that they make.
pub open spec fn pair_joined(m: ModelView, text: Seq<char>, spans: Seq<Span>, i: int) -> Seq<Span> {
    spans.take(i) + seq![
        Span {
            start: spans[i].start,
            end: spans[i + 1].end,
            id: id_of(
                place_of(
                    m.pieces,
                    text.subrange(spans[i].start as int, spans[i + 1].end as int),
                ).unwrap(),
            ),
        },
    ] + spans.skip(i + 2)
}

/// In every step the pair with the highest score is merged: as long as two
/// neighbours make a piece with a score, there is a pair `i` whose piece no
/// other pair's piece exceeds, none before it having as high a score, and the
/// result is that of the spans in which it has become the span of its piece.
#[verifier::spinoff_prover]
#[verifier::rlimit(80)]
pub proof fn highest_pair_is_merged(m: ModelView, text: Seq<char>, spans: Seq<Span>, j: int) -> (i:
    int)
    requires
        0 <= j < spans.len() - 1,
        place_of(
            m.pieces,
            text.subrange(spans[j].start as int, spans[j + 1].end as int),
        ) matches Some(q) && m.pieces[q as int].score.gt(lowest()),
    ensures
        0 <= i < spans.len() - 1,
        place_of(
            m.pieces,
            text.subrange(spans[i].start as int, spans[i + 1].end as int),
        ) is Some,
        forall|k: int|
            0 <= k < spans.len() - 1 && place_of(
                m.pieces,
                text.subrange((#[trigger] spans[k]).start as int, spans[k + 1].end as int),
            ) is Some ==> {
                let score = m.pieces[place_of(
                    m.pieces,
                    text.subrange(spans[k].start as int, spans[k + 1].end as int),
                ).unwrap() as int].score;
                let highest = m.pieces[place_of(
                    m.pieces,
                    text.subrange(spans[i].start as int, spans[i + 1].end as int),
                ).unwrap() as int].score;
                &&& !score.gt(highest)
                &&& k < i && score.gt(lowest()) ==> highest.gt(score)
            },
        merged(m, text, spans) == merged(m, text, pair_joined(m, text, spans, i)),
{
    let i = lemma_some_best(m, text, spans, j);
    lemma_best_is_highest(m, text, spans, i);
    lemma_merged_at(m, text, spans, i);
    i
}

proof fn lemma_some_best(m: ModelView, text: Seq<char>, spans: Seq<Span>, j: int) -> (i: int)
    requires
        0 <= j < spans.len() - 1,
        mergeable(m, text, spans, j),
    ensures
        best(m, text, spans, i),
{
    let n = spans.len() - 1;
    lemma_best_exists(m, text, spans, n);
    choose|i: int| best_among(m, text, spans, n, i)
}

proof fn lemma_merged_at(m: ModelView, text: Seq<char>, spans: Seq<Span>, i: int)
    requires
        best(m, text, spans, i),
    ensures
        merged(m, text, spans) == merged(m, text, pair_joined(m, text, spans, i)),
{
    let c = choose|c: int| best(m, text, spans, c);
    lemma_best_is_unique(m, text, spans, c, i);
    assert(0 <= i < spans.len() - 1);
    assert(merge_at(m, text, spans, i) == pair_joined(m, text, spans, i));
}

proof fn lemma_best_is_highest(m: ModelView, text: Seq<char>, spans: Seq<Span>, i: int)
    requires
        best(m, text, spans, i),
    ensures
        0 <= i < spans.len() - 1,
        place_of(
            m.pieces,
            text.subrange(spans[i].start as int, spans[i + 1].end as int),
        ) is Some,
        forall|k: int|
            0 <= k < spans.len() - 1 && place_of(
                m.pieces,
                text.subrange((#[trigger] spans[k]).start as int, spans[k + 1].end as int),
            ) is Some ==> {
                let score = m.pieces[place_of(
                    m.pieces,
                    text.subrange(spans[k].start as int, spans[k + 1].end as int),
                ).unwrap() as int].score;
                let highest = m.pieces[place_of(
                    m.pieces,
                    text.subrange(spans[i].start as int, spans[i + 1].end as int),
                ).unwrap() as int].score;
                &&& !score.gt(highest)
                &&& k < i && score.gt(lowest()) ==> highest.gt(score)
            },
{
    assert forall|k: int|
        0 <= k < spans.len() - 1 && place_of(
            m.pieces,
            text.subrange((#[trigger] spans[k]).start as int, spans[k + 1].end as int),
        ) is Some implies {
        let score = m.pieces[place_of(
            m.pieces,
            text.subrange(spans[k].start as int, spans[k + 1].end as int),
        ).unwrap() as int].score;
        let highest = joint_score(m, text, spans, i);
        &&& !score.gt(highest)
        &&& k < i && score.gt(lowest()) ==> highest.gt(score)
    } by {
        if joint_score(m, text, spans, k).gt(lowest()) {
            assert(mergeable(m, text, spans, k));
        }
    }
}

/// Where no two neighbours make a piece with a score, nothing is merged.
pub proof fn nothing_else_is_merged(m: ModelView, text: Seq<char>, spans: Seq<Span>)
    requires
        forall|j: int|
            0 <= j < spans.len() - 1 ==> (place_of(
                m.pieces,
                text.subrange((#[trigger] spans[j]).start as int, spans[j + 1].end as int),
            ) matches Some(q) ==> !m.pieces[q as int].score.gt(lowest())),
    ensures
        merged(m, text, spans) == spans,
{
    if exists|i: int| best(m, text, spans, i) {
        let i = choose|i: int| best(m, text, spans, i);
        assert(mergeable(m, text, spans, i));
        assert(spans[i].start == spans[i].start);
    }
}

proof fn lemma_first_of_two(m: ModelView, text: Seq<char>, spans: Seq<Span>) -> (i: int)
    requires
        spans.len() == 3,
        mergeable(m, text, spans, 0),
        mergeable(m, text, spans, 1),
    ensures
        best(m, text, spans, i),
        i == if joint_score(m, text, spans, 1).gt(joint_score(m, text, spans, 0)) {
            1int
        } else {
            0
        },
{
    lemma_some_best(m, text, spans, 0)
}

/// A single character is one token: that of its piece, else that of its first
/// byte, where the model has pieces for bytes, and else an unknown one.
pub proof fn a_character_alone_is_a_token(m: ModelView, c: char)
    ensures
        ({
            let text = seq![c];
            let id = match place_of(m.pieces, text) {
                Some(i) => id_of(i),
                None => match byte_place(m, c) {
                    Some(i) => id_of(i),
                    None => m.trainer.unk_id,
                },
            };
            bpe_tokens(m, text) == seq![TokenView { id, piece: text }]
        }),
{
    let text = seq![c];
    let spans = single_spans(m, text);
    nothing_else_is_merged(m, text, spans);
    assert(text.subrange(0, 1) == text);
    assert(bpe_tokens(m, text).len() == 1);
    assert(bpe_tokens(m, text)[0].piece == text);
}

/// Of three characters, the two whose piece has the higher score go together:
/// the first two if the scores are the same.
#[verifier::spinoff_prover]
#[verifier::rlimit(80)]
pub proof fn higher_pair_goes_together(m: ModelView, x: char, y: char, z: char)
    requires
        place_of(m.pieces, seq![x, y]) is Some,
        place_of(m.pieces, seq![y, z]) is Some,
        place_of(m.pieces, seq![x, y, z]) is None,
        ({
            let a = m.pieces[place_of(m.pieces, seq![x, y]).unwrap() as int].score;
            let b = m.pieces[place_of(m.pieces, seq![y, z]).unwrap() as int].score;
            !a.is_nan() && !b.is_nan() && a.gt(lowest()) && b.gt(lowest())
        }),
    ensures
        ({
            let a = m.pieces[place_of(m.pieces, seq![x, y]).unwrap() as int].score;
            let b = m.pieces[place_of(m.pieces, seq![y, z]).unwrap() as int].score;
            let tokens = bpe_tokens(m, seq![x, y, z]);
            &&& tokens.len() == 2
            &&& b.gt(a) ==> tokens[0].piece == seq![x] && tokens[1].piece == seq![y, z]
                && tokens[1].id == id_of(place_of(m.pieces, seq![y, z]).unwrap())
            &&& !b.gt(a) ==> tokens[0].piece == seq![x, y] && tokens[1].piece == seq![z]
                && tokens[0].id == id_of(place_of(m.pieces, seq![x, y]).unwrap())
        }),
{
    let text = seq![x, y, z];
    let spans = single_spans(m, text);
    assert(text.subrange(0, 2) == seq![x, y]);
    assert(text.subrange(1, 3) == seq![y, z]);
    assert(text.subrange(0, 3) == seq![x, y, z]);
    assert(text.subrange(0, 1) == seq![x]);
    assert(text.subrange(2, 3) == seq![z]);
    let a = m.pieces[place_of(m.pieces, seq![x, y]).unwrap() as int].score;
    let b = m.pieces[place_of(m.pieces, seq![y, z]).unwrap() as int].score;
    assert(joint_place(m, text, spans, 0) == place_of(m.pieces, seq![x, y]));
    assert(joint_place(m, text, spans, 1) == place_of(m.pieces, seq![y, z]));
    let i = lemma_first_of_two(m, text, spans);
    lemma_merged_at(m, text, spans, i);
    let next = pair_joined(m, text, spans, i);
    assert(next.len() == 2);
    assert(next[0].start == 0 && next[1].end == 3);
    if i == 0 {
        assert(next[0].end == 2 && next[1].start == 2);
    } else {
        assert(next[0].end == 1 && next[1].start == 1);
    }
    nothing_else_is_merged(m, text, next);
}

impl SentencePieceModel {
    /// The spans of single characters.
    fn split(&self, text: &Vec<char>) -> (r: Vec<Span>)
        requires
            self.wf(),
        ensures
            r@ == single_spans(self@, text@),
    {
        let n = text.len();
        let mut spans: Vec<Span> = Vec::new();
        let mut pos: usize = 0;
        while pos < n
            invariant
                pos <= n == text@.len(),
                self.wf(),
                spans@ == single_spans(self@, text@).take(pos as int),
            decreases n - pos,
        {
            proof {
                assert(text@.subrange(pos as int, pos + 1) == seq![text@[pos as int]]);
            }
            let id: i32 = match self.find(text, pos, pos + 1) {
                Some(i) => #[verifier::truncate] (i as i32),
                None => self.stand_in(text[pos]),
            };
            spans.push(Span { start: pos, end: pos + 1, id });
            proof {
                assert(spans@ == single_spans(self@, text@).take(pos + 1));
            }
            pos = pos + 1;
        }
        proof {
            assert(single_spans(self@, text@).take(n as int) == single_spans(self@, text@));
        }
        spans
    }

    /// The best merge, and the place of the piece that it makes.
    #[verifier::rlimit(50)]
    fn best_merge(&self, text: &Vec<char>, spans: &Vec<Span>) -> (r: Option<(usize, usize)>)
        requires
            self.wf(),
            partition(spans@, text@.len()),
        ensures
            match r {
                Some((i, place)) => best(self@, text@, spans@, i as int) && joint_place(
                    self@,
                    text@,
                    spans@,
                    i as int,
                ) == Some(place as nat),
                None => forall|i: int| !best(self@, text@, spans@, i),
            },
    {
        let mut found: Option<(usize, usize)> = None;
        let mut best_score = Binary32 { bits: 0xff80_0000 };
        let mut i: usize = 0;
        proof {
            lemma_partition_bounds(spans@, text@.len());
        }
        while i + 1 < spans.len()
            invariant
                self.wf(),
                spans@.len() > 0 ==> i <= spans@.len() - 1,
                spans@.len() == 0 ==> i == 0,
                forall|j: int|
                    0 <= j < spans@.len() ==> (#[trigger] spans@[j]).start < spans@[j].end
                        <= text@.len(),
                forall|j: int|
                    0 <= j < spans@.len() - 1 ==> (#[trigger] spans@[j]).end == spans@[j + 1].start,
                match found {
                    Some((b, place)) => best_among(self@, text@, spans@, i as int, b as int)
                        && joint_place(self@, text@, spans@, b as int) == Some(place as nat)
                        && best_score == joint_score(self@, text@, spans@, b as int),
                    None => best_score == lowest() && forall|j: int|
                        0 <= j < i ==> !#[trigger] mergeable(self@, text@, spans@, j),
                },
            decreases spans.len() - i,
        {
            let start = spans[i].start;
            let end = spans[i + 1].end;
            proof {
                assert(spans@[i as int].end == spans@[i + 1].start);
                assert(spans@[i + 1].end <= text@.len());
            }
            if let Some(place) = self.find(text, start, end) {
                let score = self.piece(place).score;
                if score.exceeds(best_score) {
                    best_score = score;
                    found = Some((i, place));
                }
            }
            i = i + 1;
        }
        found
    }

    /// BPE encoding: start with characters, repeatedly merge the highest-priority pair.
    #[verifier::rlimit(50)]
    pub(crate) fn encode_bpe(&self, text: &Vec<char>) -> (r: Vec<Token>)
        requires
            self.wf(),
        ensures
            token_views(r@) == bpe_tokens(self@, text@),
    {
        let mut spans = self.split(text);
        let n = text.len();
        proof {
            lemma_single_spans(self@, text@);
        }
        loop
            invariant
                self.wf(),
                partition(spans@, text@.len()),
                forall|i: int| 0 <= i < spans@.len() ==> named(self@, text@, #[trigger] spans@[i]),
                merged(self@, text@, spans@) == merged(
                    self@,
                    text@,
                    single_spans(self@, text@),
                ),
            ensures
                partition(spans@, text@.len()),
                spans@ == merged(self@, text@, single_spans(self@, text@)),
            decreases spans.len(),
        {
            match self.best_merge(text, &spans) {
                Some((i, place)) => {
                    let joint = Span {
                        start: spans[i].start,
                        end: spans[i + 1].end,
                        id: #[verifier::truncate] (place as i32),
                    };
                    let ghost before = spans@;
                    spans.set(i, joint);
                    spans.remove(i + 1);
                    proof {
                        assert(spans@ == merge_at(self@, text@, before, i as int));
                        let c = choose|c: int| best(self@, text@, before, c);
                        lemma_best_is_unique(self@, text@, before, c, i as int);
                        lemma_merge_keeps_partition(before, text@.len(), i as int, joint);
                        assert forall|j: int| 0 <= j < spans@.len() implies named(
                            self@,
                            text@,
                            #[trigger] spans@[j],
                        ) by {
                            if j < i {
                                assert(spans@[j] == before[j]);
                            } else if j == i {
                                assert(spans@[j] == joint);
                            } else {
                                assert(spans@[j] == before[j + 1]);
                            }
                        }
                    }
                },
                None => {
                    break;
                },
            }
        }
        proof {
            lemma_partition_bounds(spans@, text@.len());
        }
        spell(text, &spans)
    }
}

} // verus!
