//! That the search for pieces finds the best way through a text.

use crate::float::format::{binary32, value_of};
use crate::float::laws::addition_keeps_order;
use crate::float::number::{lowest, Binary32};
use crate::float::rounding::rounding_keeps_values;
use crate::sp_model::{least_score, ModelView};
use crate::token::{byte_place, id_of, TokenView};
use crate::unigram::{edge, node_at, reach, starts_piece, unigram_tokens, way_to};
use crate::vocabulary::{lemma_place_of, place_of, PieceType, PieceView};
use vstd::prelude::*;

verus! {

/// Whether every score is a finite number.
pub open spec fn finite_scores(pieces: Seq<PieceView>) -> bool {
    forall|i: int|
        0 <= i < pieces.len() ==> (#[trigger] pieces[i]).score.signed().is_finite(binary32())
}

/// Whether the places are a way through the text by pieces of the vocabulary.
pub open spec fn is_way(m: ModelView, text: Seq<char>, way: Seq<nat>) -> bool {
    &&& way.len() > 0
    &&& way[0] == 0
    &&& forall|i: int| 0 <= i < way.len() ==> #[trigger] way[i] <= text.len()
    &&& forall|i: int|
        0 <= i < way.len() - 1 ==> edge(m, text, #[trigger] way[i] as int, way[i + 1] as int)
            is Some
}

/// The score of a way: those of its pieces, added up from the first on.
pub open spec fn way_score(m: ModelView, text: Seq<char>, way: Seq<nat>) -> Binary32
    decreases way.len(),
{
    if way.len() <= 1 {
        Binary32 { bits: 0 }
    } else {
        let front = way.drop_last();
        let i = edge(m, text, front.last() as int, way.last() as int).unwrap();
        way_score(m, text, front).add_spec(m.pieces[i as int].score)
    }
}


proof fn lemma_edge_score(m: ModelView, text: Seq<char>, start: int, end: int)
    requires
        finite_scores(m.pieces),
        edge(m, text, start, end) is Some,
    ensures
        ({
            let i = edge(m, text, start, end).unwrap();
            i < m.pieces.len() && m.pieces[i as int].score.signed().is_finite(binary32())
        }),
{
    lemma_place_of(m.pieces, text.subrange(start, end));
}

/// Adding a finite number gives a number.
proof fn lemma_finite_sum(a: Binary32, b: Binary32)
    requires
        !a.is_nan(),
        b.signed().is_finite(binary32()),
    ensures
        !a.add_spec(b).is_nan(),
{
}

/// Of the pieces that end at a place, none that starts before `p` gives a
/// higher score than the best way found.
proof fn lemma_reach_is_best(m: ModelView, text: Seq<char>, end: nat, p: nat, start: nat)
    requires
        finite_scores(m.pieces),
        start < p <= end,
        edge(m, text, start as int, end as int) is Some,
    ensures
        ({
            let i = edge(m, text, start as int, end as int).unwrap();
            let candidate = node_at(m, text, start).score.add_spec(m.pieces[i as int].score);
            match reach(m, text, end, p) {
                Some(node) => !candidate.gt(node.score),
                None => !candidate.gt(lowest()),
            }
        }),
    decreases p,
{
    if start < p - 1 {
        lemma_reach_is_best(m, text, end, (p - 1) as nat, start);
    }
}

proof fn lemma_reach_is_number(m: ModelView, text: Seq<char>, end: nat, p: nat)
    ensures
        reach(m, text, end, p) matches Some(node) ==> node.score.gt(lowest()),
    decreases p,
{
    if p > 0 && p <= end {
        lemma_reach_is_number(m, text, end, (p - 1) as nat);
    }
}

proof fn lemma_least_is_finite(pieces: Seq<PieceView>)
    requires
        finite_scores(pieces),
    ensures
        !least_score(pieces).is_nan(),
        pieces.len() > 0 ==> least_score(pieces).signed().is_finite(binary32()),
    decreases pieces.len(),
{
    if pieces.len() > 0 {
        let front = pieces.drop_last();
        assert forall|i: int| 0 <= i < front.len() implies (
        #[trigger] front[i]).score.signed().is_finite(binary32()) by {
            assert(front[i] == pieces[i]);
        }
        lemma_least_is_finite(front);
        assert(pieces[pieces.len() - 1].score.signed().is_finite(binary32()));
    }
}

/// Scores never become undefined.
proof fn lemma_node_is_number(m: ModelView, text: Seq<char>, end: nat)
    requires
        finite_scores(m.pieces),
        m.pieces.len() > 0,
        end <= text.len(),
    ensures
        !node_at(m, text, end).score.is_nan(),
    decreases end,
{
    if end > 0 {
        let before = node_at(m, text, (end - 1) as nat).score;
        lemma_node_is_number(m, text, (end - 1) as nat);
        lemma_reach_is_number(m, text, end, end);
        lemma_least_is_finite(m.pieces);
        let low = least_score(m.pieces);
        lemma_finite_sum(before, low);
        let ten = Binary32 { bits: 0x4120_0000 };
        let minus_ten = Binary32 { bits: 0xc120_0000 };
        assert(before.add_spec(low).sub_spec(ten) == before.add_spec(low).add_spec(minus_ten));
        lemma_finite_sum(before.add_spec(low), minus_ten);
    }
}

proof fn lemma_node_beats_edge(m: ModelView, text: Seq<char>, start: nat, end: nat)
    requires
        finite_scores(m.pieces),
        start < end <= text.len(),
        edge(m, text, start as int, end as int) is Some,
    ensures
        ({
            let i = edge(m, text, start as int, end as int).unwrap();
            let candidate = node_at(m, text, start).score.add_spec(m.pieces[i as int].score);
            !candidate.gt(node_at(m, text, end).score)
        }),
{
    lemma_reach_is_best(m, text, end, end, start);
    lemma_reach_is_number(m, text, end, end);
    let i = edge(m, text, start as int, end as int).unwrap();
    let candidate = node_at(m, text, start).score.add_spec(m.pieces[i as int].score);
    let node = node_at(m, text, end);
    if reach(m, text, end, end) is None && node.score.gt(lowest()) {
        assert(!candidate.gt(node.score));
    }
}

/// No way through pieces of the vocabulary scores higher than the one that is
/// found, if every piece has a finite score.
pub proof fn no_way_is_better(m: ModelView, text: Seq<char>, way: Seq<nat>)
    requires
        finite_scores(m.pieces),
        is_way(m, text, way),
    ensures
        !way_score(m, text, way).gt(node_at(m, text, way.last()).score),
    decreases way.len(),
{
    if way.len() > 1 {
        let front = way.drop_last();
        let start = front.last();
        let end = way.last();
        assert(start == way[way.len() - 2]);
        assert(edge(m, text, way[way.len() - 2] as int, way[way.len() - 2 + 1] as int) is Some);
        assert forall|i: int| 0 <= i < front.len() - 1 implies edge(
            m,
            text,
            #[trigger] front[i] as int,
            front[i + 1] as int,
        ) is Some by {
            assert(way[i] == front[i] && way[i + 1] == front[i + 1]);
        }
        assert forall|i: int| 0 <= i < front.len() implies #[trigger] front[i] <= text.len() by {
            assert(way[i] == front[i]);
        }
        no_way_is_better(m, text, front);
        lemma_edge_score(m, text, start as int, end as int);
        lemma_way_is_number(m, text, front);
        lemma_node_is_number(m, text, start);
        lemma_node_beats_edge(m, text, start, end);
        let i = edge(m, text, start as int, end as int).unwrap();
        let w = m.pieces[i as int].score;
        let s = way_score(m, text, front);
        let n = node_at(m, text, start).score;
        addition_keeps_order(s, n, w);
        lemma_finite_sum(n, w);
        lemma_node_is_number(m, text, end);
    }
}

proof fn lemma_way_is_number(m: ModelView, text: Seq<char>, way: Seq<nat>)
    requires
        finite_scores(m.pieces),
        is_way(m, text, way),
    ensures
        !way_score(m, text, way).is_nan(),
    decreases way.len(),
{
    if way.len() > 1 {
        let front = way.drop_last();
        assert(front.last() == way[way.len() - 2]);
        assert(edge(m, text, way[way.len() - 2] as int, way[way.len() - 2 + 1] as int) is Some);
        assert forall|i: int| 0 <= i < front.len() - 1 implies edge(
            m,
            text,
            #[trigger] front[i] as int,
            front[i + 1] as int,
        ) is Some by {
            assert(way[i] == front[i] && way[i + 1] == front[i + 1]);
        }
        assert forall|i: int| 0 <= i < front.len() implies #[trigger] front[i] <= text.len() by {
            assert(way[i] == front[i]);
        }
        lemma_way_is_number(m, text, front);
        lemma_edge_score(m, text, front.last() as int, way.last() as int);
        let i = edge(m, text, front.last() as int, way.last() as int).unwrap();
        lemma_finite_sum(way_score(m, text, front), m.pieces[i as int].score);
    }
}

/// Whether the way that is found to a place goes by pieces of the vocabulary all along.
pub open spec fn goes_by_pieces(m: ModelView, text: Seq<char>, end: nat) -> bool
    decreases end,
{
    let node = node_at(m, text, end);
    end == 0 || (node.start < end && reach(m, text, end, end) == Some(node) && goes_by_pieces(
        m,
        text,
        node.start as nat,
    ))
}

/// The places on the way that is found.
pub open spec fn found_way(m: ModelView, text: Seq<char>, end: nat) -> Seq<nat>
    decreases end,
{
    let node = node_at(m, text, end);
    if node.start >= end {
        seq![end]
    } else {
        found_way(m, text, node.start as nat).push(end)
    }
}

proof fn lemma_reach_score(m: ModelView, text: Seq<char>, end: nat, p: nat)
    requires
        end <= usize::MAX,
    ensures
        reach(m, text, end, p) matches Some(node) ==> node.start < p && (edge(
            m,
            text,
            node.start as int,
            end as int,
        ) matches Some(i) && node.score == node_at(m, text, node.start as nat).score.add_spec(
            m.pieces[i as int].score,
        )),
    decreases p,
{
    if p > 0 && p <= end {
        lemma_reach_score(m, text, end, (p - 1) as nat);
    }
}

/// The way that is found is a way, and has the score that is found with it: if
/// it goes by pieces, it is the best one.
pub proof fn found_way_is_best(m: ModelView, text: Seq<char>, end: nat, other: Seq<nat>)
    requires
        finite_scores(m.pieces),
        end <= text.len() <= usize::MAX,
        goes_by_pieces(m, text, end),
        is_way(m, text, other),
        other.last() == end,
    ensures
        is_way(m, text, found_way(m, text, end)),
        found_way(m, text, end).last() == end,
        way_score(m, text, found_way(m, text, end)) == node_at(m, text, end).score,
        !way_score(m, text, other).gt(way_score(m, text, found_way(m, text, end))),
{
    lemma_found_way(m, text, end);
    no_way_is_better(m, text, other);
}

proof fn lemma_found_way(m: ModelView, text: Seq<char>, end: nat)
    requires
        end <= text.len() <= usize::MAX,
        goes_by_pieces(m, text, end),
    ensures
        is_way(m, text, found_way(m, text, end)),
        found_way(m, text, end).last() == end,
        way_score(m, text, found_way(m, text, end)) == node_at(m, text, end).score,
    decreases end,
{
    if end > 0 {
        let node = node_at(m, text, end);
        let front = found_way(m, text, node.start as nat);
        let way = found_way(m, text, end);
        lemma_found_way(m, text, node.start as nat);
        lemma_reach_score(m, text, end, end);
        assert(way.drop_last() == front);
        assert forall|i: int| 0 <= i < way.len() - 1 implies edge(
            m,
            text,
            #[trigger] way[i] as int,
            way[i + 1] as int,
        ) is Some by {
            assert(way[i] == front[i]);
            if i + 1 < front.len() {
                assert(way[i + 1] == front[i + 1]);
            }
        }
        assert forall|i: int| 0 <= i < way.len() implies #[trigger] way[i] <= text.len() by {
            if i < front.len() {
                assert(way[i] == front[i]);
            }
        }
        assert(way[0] == front[0]);
    }
}

// --- Short texts ---

/// Whether a text is a piece that may be used.
pub open spec fn is_usable(m: ModelView, text: Seq<char>) -> bool {
    place_of(m.pieces, text) matches Some(i) && m.pieces[i as int].piece_type
        != PieceType::Unused
}

/// The score of the piece with a text.
pub open spec fn score_of(m: ModelView, text: Seq<char>) -> Binary32 {
    m.pieces[place_of(m.pieces, text).unwrap() as int].score
}

/// A text as a token by itself.
pub open spec fn piece_token(m: ModelView, text: Seq<char>) -> TokenView {
    TokenView { id: id_of(place_of(m.pieces, text).unwrap()), piece: text }
}

proof fn lemma_zero_adds_nothing(x: Binary32)
    requires
        x.signed().is_finite(binary32()),
    ensures
        (Binary32 { bits: 0 }).add_spec(x).gt(lowest()),
{
    let f = binary32();
    let m = x.signed().magnitude as nat;
    rounding_keeps_values(f, m, 1);
    crate::float::format::lemma_split(f, 0);
    assert(1 * value_of(f, m) == value_of(f, m));
}

proof fn lemma_score_is_finite(m: ModelView, text: Seq<char>)
    requires
        finite_scores(m.pieces),
        is_usable(m, text),
    ensures
        score_of(m, text).signed().is_finite(binary32()),
{
    lemma_place_of(m.pieces, text);
}

proof fn lemma_edge_of(m: ModelView, text: Seq<char>, start: int, end: int, s: Seq<char>)
    requires
        0 <= start < end <= text.len(),
        end <= start + 256,
        text.subrange(start, end) == s,
    ensures
        edge(m, text, start, end) is Some == is_usable(m, s),
        is_usable(m, s) ==> edge(m, text, start, end) == place_of(m.pieces, s),
{
}

/// The first place of a text, where the first character is a piece.
proof fn lemma_first_node(m: ModelView, text: Seq<char>)
    requires
        finite_scores(m.pieces),
        text.len() > 0,
        is_usable(m, text.take(1)),
    ensures
        ({
            let node = node_at(m, text, 1);
            let zero = Binary32 { bits: 0 };
            &&& node.start == 0
            &&& node.id == id_of(place_of(m.pieces, text.take(1)).unwrap())
            &&& node.score == zero.add_spec(score_of(m, text.take(1)))
        }),
{
    let s = text.take(1);
    lemma_edge_of(m, text, 0, 1, s);
    lemma_score_is_finite(m, s);
    lemma_zero_adds_nothing(score_of(m, s));
    assert(reach(m, text, 1, 0) is None);
    assert(node_at(m, text, 0).score == (Binary32 { bits: 0 }));
    assert(reach(m, text, 1, 1) matches Some(n) && n.start == 0 && n.score == (Binary32 {
        bits: 0,
    }).add_spec(score_of(m, s)));
    assert(starts_piece(m, text, 0));
}

/// A single character is one token: that of its piece; if there is none that may
/// be used, that of its first byte, where the model has pieces for bytes; and
/// else an unknown one.
pub proof fn one_character_is_one_token(m: ModelView, c: char)
    requires
        finite_scores(m.pieces),
    ensures
        ({
            let text = seq![c];
            let id = if is_usable(m, text) {
                id_of(place_of(m.pieces, text).unwrap())
            } else {
                match byte_place(m, c) {
                    Some(i) => id_of(i),
                    None => m.trainer.unk_id,
                }
            };
            unigram_tokens(m, text) == seq![TokenView { id, piece: text }]
        }),
{
    let text = seq![c];
    assert(text.take(1) == text);
    assert(text.subrange(0, 1) == text);
    lemma_edge_of(m, text, 0, 1, text);
    assert(node_at(m, text, 0).score == (Binary32 { bits: 0 }));
    assert(reach(m, text, 1, 0) is None);
    if is_usable(m, text) {
        lemma_first_node(m, text);
    } else {
        assert forall|end: int| 0 < end <= text.len() implies edge(m, text, 0, end) is None by {
            assert(end == 1);
        }
        assert(!starts_piece(m, text, 0));
        assert(reach(m, text, 1, 1) is None);
        match byte_place(m, c) {
            Some(i) => {
                lemma_place_of(m.pieces, crate::token::byte_piece(crate::token::first_byte(c)));
                lemma_zero_adds_nothing(m.pieces[i as int].score);
            },
            None => {},
        }
    }
    assert(way_to(m, text, 0) == Seq::<crate::token::Span>::empty());
    assert(way_to(m, text, 1).len() == 1);
    assert(unigram_tokens(m, text)[0].piece == text);
}

proof fn lemma_two_characters(m: ModelView, x: char, y: char)
    requires
        finite_scores(m.pieces),
        is_usable(m, seq![y]),
        is_usable(m, seq![x, y]),
        node_at(m, seq![x, y], 1).start == 0,
    ensures
        ({
            let text = seq![x, y];
            let first = node_at(m, text, 1);
            let together = (Binary32 { bits: 0 }).add_spec(score_of(m, text));
            let apart = first.score.add_spec(score_of(m, seq![y]));
            unigram_tokens(m, text) == if apart.gt(together) {
                seq![
                    TokenView { id: first.id, piece: seq![x] },
                    piece_token(m, seq![y]),
                ]
            } else {
                seq![piece_token(m, text)]
            }
        }),
{
    let text = seq![x, y];
    let first = node_at(m, text, 1);
    let zero = Binary32 { bits: 0 };
    let together = zero.add_spec(score_of(m, text));
    let apart = first.score.add_spec(score_of(m, seq![y]));
    assert(text.subrange(0, 2) == text);
    assert(text.subrange(1, 2) == seq![y]);
    assert(text.subrange(0, 1) == seq![x]);
    lemma_edge_of(m, text, 0, 2, text);
    lemma_edge_of(m, text, 1, 2, seq![y]);
    lemma_score_is_finite(m, text);
    lemma_zero_adds_nothing(score_of(m, text));
    assert(node_at(m, text, 0).score == zero);
    assert(reach(m, text, 2, 0) is None);
    assert(reach(m, text, 2, 1) matches Some(n) && n.score == together && n.start == 0);
    assert(apart.gt(together) ==> (reach(m, text, 2, 2) matches Some(n) && n.score == apart
        && n.start == 1));
    assert(!apart.gt(together) ==> reach(m, text, 2, 2) == reach(m, text, 2, 1));
    assert(starts_piece(m, text, 1));
    let node = node_at(m, text, 2);
    assert(way_to(m, text, 0) == Seq::<crate::token::Span>::empty());
    if apart.gt(together) {
        assert(node.start == 1);
        assert(way_to(m, text, 1).len() == 1);
        assert(way_to(m, text, 2).len() == 2);
        assert(unigram_tokens(m, text) == seq![
            TokenView { id: first.id, piece: seq![x] },
            piece_token(m, seq![y]),
        ]);
    } else {
        assert(node.start == 0);
        assert(way_to(m, text, 2).len() == 1);
        assert(unigram_tokens(m, text) == seq![piece_token(m, text)]);
    }
}

/// Two characters that are pieces, each by itself and both together, go apart
/// exactly if the sum of their scores is higher than the score of the whole.
pub proof fn higher_score_decides(m: ModelView, x: char, y: char)
    requires
        finite_scores(m.pieces),
        is_usable(m, seq![x]),
        is_usable(m, seq![y]),
        is_usable(m, seq![x, y]),
    ensures
        ({
            let zero = Binary32 { bits: 0 };
            let together = zero.add_spec(score_of(m, seq![x, y]));
            let apart = zero.add_spec(score_of(m, seq![x])).add_spec(score_of(m, seq![y]));
            unigram_tokens(m, seq![x, y]) == if apart.gt(together) {
                seq![piece_token(m, seq![x]), piece_token(m, seq![y])]
            } else {
                seq![piece_token(m, seq![x, y])]
            }
        }),
{
    assert(seq![x, y].take(1) == seq![x]);
    lemma_first_node(m, seq![x, y]);
    lemma_two_characters(m, x, y);
}

/// A character that is no piece by itself but begins one is passed over as an
/// unknown one only at a price: it scores ten below the least score there is. It
/// is not spelled by its byte.
pub proof fn unknown_characters_score_low(m: ModelView, x: char, y: char)
    requires
        finite_scores(m.pieces),
        !is_usable(m, seq![x]),
        is_usable(m, seq![y]),
        is_usable(m, seq![x, y]),
    ensures
        ({
            let zero = Binary32 { bits: 0 };
            let ten = Binary32 { bits: 0x4120_0000 };
            let unknown = zero.add_spec(least_score(m.pieces)).sub_spec(ten);
            let together = zero.add_spec(score_of(m, seq![x, y]));
            let apart = unknown.add_spec(score_of(m, seq![y]));
            unigram_tokens(m, seq![x, y]) == if apart.gt(together) {
                seq![
                    TokenView { id: m.trainer.unk_id, piece: seq![x] },
                    piece_token(m, seq![y]),
                ]
            } else {
                seq![piece_token(m, seq![x, y])]
            }
        }),
{
    let text = seq![x, y];
    assert(text.subrange(0, 1) == seq![x]);
    assert(text.subrange(0, 2) == text);
    lemma_edge_of(m, text, 0, 1, seq![x]);
    lemma_edge_of(m, text, 0, 2, text);
    assert(starts_piece(m, text, 0));
    assert(reach(m, text, 1, 0) is None);
    assert(reach(m, text, 1, 1) is None);
    assert(node_at(m, text, 0).score == (Binary32 { bits: 0 }));
    lemma_two_characters(m, x, y);
}

} // verus!
