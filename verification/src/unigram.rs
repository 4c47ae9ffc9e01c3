//! Unigram encoding: the pieces that a Viterbi search over sums of scores
//! picks.

use crate::float::number::{lowest, Binary32};
use crate::sp_model::{least_score, ModelView, SentencePieceModel};
use crate::token::{
    byte_place, concatenated, id_of, lemma_partition_spells, partition, spell, spelled,
    token_views, Span, Token, TokenView,
};
use crate::vocabulary::{
    fingerprint, lemma_fingerprint_extends, lemma_place_of, mix, place_of, PieceType,
};
use vstd::prelude::*;

verus! {

/// The length of the longest piece that is looked for.
pub const WINDOW: usize = 256;

/// How a place in the text is reached: the score so far, where the last piece
/// starts, and its ID.
#[derive(Clone, Copy, Debug)]
pub struct Node {
    pub score: Binary32,
    pub start: usize,
    pub id: i32,
}

/// The place of the piece from `start` to `end`, if it may be used.
pub open spec fn edge(m: ModelView, text: Seq<char>, start: int, end: int) -> Option<nat> {
    if start < end <= start + 256 {
        match place_of(m.pieces, text.subrange(start, end)) {
            Some(i) => if m.pieces[i as int].piece_type != PieceType::Unused {
                Some(i)
            } else {
                None
            },
            None => None,
        }
    } else {
        None
    }
}

/// Whether a piece starts at a place.
pub open spec fn starts_piece(m: ModelView, text: Seq<char>, start: int) -> bool {
    exists|end: int| start < end <= text.len() && edge(m, text, start, end) is Some
}

/// The higher of a score so far and a new one; the one so far on a draw.
pub open spec fn better(so_far: Option<Node>, new: Node) -> Option<Node> {
    let score = match so_far {
        Some(node) => node.score,
        None => lowest(),
    };
    if new.score.gt(score) {
        Some(new)
    } else {
        so_far
    }
}

/// The best way to reach `end` by a piece of the vocabulary that starts before `p`.
pub open spec fn reach(m: ModelView, text: Seq<char>, end: nat, p: nat) -> Option<Node>
    decreases end, p,
{
    if p == 0 || p > end {
        None
    } else {
        let start = (p - 1) as nat;
        let so_far = reach(m, text, end, start);
        match edge(m, text, start as int, end as int) {
            Some(i) => better(
                so_far,
                Node {
                    score: node_at(m, text, start).score.add_spec(m.pieces[i as int].score),
                    start: start as usize,
                    id: id_of(i),
                },
            ),
            None => so_far,
        }
    }
}

/// The score of an unknown character after a score so far.
pub open spec fn unknown_score(m: ModelView, score: Binary32) -> Binary32 {
    score.add_spec(least_score(m.pieces)).sub_spec(Binary32 { bits: 0x4120_0000 })
}

/// How a place in the text is reached: by a piece of the vocabulary; where none
/// starts at the character before, perhaps by the piece for its first byte; and
/// if by none of these, by an unknown character.
pub open spec fn node_at(m: ModelView, text: Seq<char>, end: nat) -> Node
    decreases end, end + 1,
{
    if end == 0 {
        Node { score: Binary32 { bits: 0 }, start: 0, id: -1i32 }
    } else {
        let start = (end - 1) as nat;
        let before = node_at(m, text, start).score;
        let by_piece = reach(m, text, end, end);
        let by_byte = match byte_place(m, text[start as int]) {
            Some(i) => if starts_piece(m, text, start as int) {
                by_piece
            } else {
                better(
                    by_piece,
                    Node {
                        score: before.add_spec(m.pieces[i as int].score),
                        start: start as usize,
                        id: id_of(i),
                    },
                )
            },
            None => by_piece,
        };
        match by_byte {
            Some(node) => node,
            None => Node {
                score: unknown_score(m, before),
                start: start as usize,
                id: m.trainer.unk_id,
            },
        }
    }
}

/// The spans on the way to a place.
pub open spec fn way_to(m: ModelView, text: Seq<char>, end: nat) -> Seq<Span>
    decreases end,
{
    let node = node_at(m, text, end);
    if node.start >= end {
        Seq::empty()
    } else {
        way_to(m, text, node.start as nat).push(
            Span { start: node.start, end: end as usize, id: node.id },
        )
    }
}

/// The tokens of a normalized text.
pub open spec fn unigram_tokens(m: ModelView, text: Seq<char>) -> Seq<TokenView> {
    spelled(text, way_to(m, text, text.len()))
}

/// How a node can have come about.
pub open spec fn founded(m: ModelView, text: Seq<char>, end: nat, node: Node) -> bool {
    &&& node.start < end
    &&& {
        ||| edge(m, text, node.start as int, end as int) matches Some(i) && node.id == id_of(i)
        ||| node.start == end - 1 && (byte_place(m, text[end - 1]) matches Some(i) && node.id
            == id_of(i))
        ||| node.start == end - 1 && node.id == m.trainer.unk_id
    }
}

proof fn lemma_reach_founded(m: ModelView, text: Seq<char>, end: nat, p: nat)
    requires
        end <= usize::MAX,
    ensures
        reach(m, text, end, p) matches Some(node) ==> node.start < p && (edge(
            m,
            text,
            node.start as int,
            end as int,
        ) matches Some(i) && node.id == id_of(i)),
    decreases p,
{
    if p > 0 && p <= end {
        lemma_reach_founded(m, text, end, (p - 1) as nat);
    }
}

proof fn lemma_node_founded(m: ModelView, text: Seq<char>, end: nat)
    requires
        0 < end <= usize::MAX,
    ensures
        founded(m, text, end, node_at(m, text, end)),
{
    lemma_reach_founded(m, text, end, end);
}

proof fn lemma_way_partitions(m: ModelView, text: Seq<char>, end: nat)
    requires
        end <= text.len() <= usize::MAX,
    ensures
        partition(way_to(m, text, end), end),
        forall|i: int|
            0 <= i < way_to(m, text, end).len() ==> {
                let s = #[trigger] way_to(m, text, end)[i];
                s.end <= end && founded(
                    m,
                    text,
                    s.end as nat,
                    Node { score: node_at(m, text, s.end as nat).score, start: s.start, id: s.id },
                )
            },
    decreases end,
{
    if end > 0 {
        let node = node_at(m, text, end);
        lemma_node_founded(m, text, end);
        lemma_way_partitions(m, text, node.start as nat);
        let front = way_to(m, text, node.start as nat);
        let way = way_to(m, text, end);
        assert(way.drop_last() == front);
        assert forall|i: int| 0 <= i < way.len() implies {
            let s = #[trigger] way[i];
            s.end <= end && founded(
                m,
                text,
                s.end as nat,
                Node { score: node_at(m, text, s.end as nat).score, start: s.start, id: s.id },
            )
        } by {
            if i < front.len() {
                assert(way[i] == front[i]);
            }
        }
    }
}

/// The pieces of the tokens, one after the other, are the text.
pub proof fn unigram_covers_text(m: ModelView, text: Seq<char>)
    requires
        text.len() <= usize::MAX,
    ensures
        concatenated(unigram_tokens(m, text)) == text,
{
    lemma_way_partitions(m, text, text.len());
    lemma_partition_spells(text, way_to(m, text, text.len()), text.len());
    assert(text.take(text.len() as int) == text);
}

/// A token's ID is that of its piece, which is not an unused one, or the token
/// is a single character under the ID of its first byte's piece, or the unknown ID.
pub proof fn unigram_ids_name_pieces(m: ModelView, text: Seq<char>, i: int)
    requires
        text.len() <= usize::MAX,
        0 <= i < unigram_tokens(m, text).len(),
    ensures
        ({
            let t = unigram_tokens(m, text)[i];
            ||| place_of(m.pieces, t.piece) matches Some(place) && t.id == id_of(place)
                && m.pieces[place as int].piece_type != PieceType::Unused
            ||| t.piece.len() == 1 && (byte_place(m, t.piece[0]) matches Some(place) && t.id
                == id_of(place))
            ||| t.piece.len() == 1 && t.id == m.trainer.unk_id
        }),
{
    lemma_way_partitions(m, text, text.len());
    let s = way_to(m, text, text.len())[i];
    assert(founded(
        m,
        text,
        s.end as nat,
        Node { score: node_at(m, text, s.end as nat).score, start: s.start, id: s.id },
    ));
}

/// Beyond the window no piece is looked for.
proof fn lemma_reach_beyond(m: ModelView, text: Seq<char>, end: nat, p: nat)
    requires
        p + 256 < end,
    ensures
        reach(m, text, end, p + 1) == reach(m, text, end, p),
{
}

impl SentencePieceModel {
    /// How each place in a text is reached.
    #[verifier::rlimit(50)]
    fn search(&self, text: &Vec<char>) -> (r: Vec<Node>)
        requires
            self.wf(),
        ensures
            r@.len() == text@.len() + 1,
            forall|k: int|
                0 <= k <= text@.len() ==> #[trigger] r@[k] == node_at(self@, text@, k as nat),
    {
        let n = text.len();
        let ghost m = self@;
        let mut nodes: Vec<Node> = Vec::new();
        let mut reached: Vec<Option<Node>> = Vec::new();
        let mut k: usize = 0;
        while k < n
            invariant
                k <= n,
                reached@.len() == k,
                forall|j: int| 0 <= j < k ==> #[trigger] reached@[j] is None,
            decreases n - k,
        {
            reached.push(None);
            k = k + 1;
        }
        nodes.push(Node { score: Binary32 { bits: 0 }, start: 0, id: -1 });
        let mut pos: usize = 0;
        while pos < n
            invariant
                pos <= n == text@.len(),
                self.wf(),
                m == self@,
                nodes@.len() == pos + 1,
                reached@.len() == n,
                forall|k: int| 0 <= k <= pos ==> #[trigger] nodes@[k] == node_at(m, text@, k as nat),
                forall|k: int|
                    pos <= k < n ==> #[trigger] reached@[k] == reach(
                        m,
                        text@,
                        (k + 1) as nat,
                        pos as nat,
                    ),
            decreases n - pos,
        {
            let before = nodes[pos].score;
            let last: usize = if n - pos > WINDOW {
                pos + WINDOW
            } else {
                n
            };
            let mut found_any = false;
            let mut end: usize = pos;
            let mut h: u64 = 0;
            proof {
                assert(text@.subrange(pos as int, pos as int) == Seq::<char>::empty());
            }
            while end < last
                invariant
                    pos <= end <= last <= n == text@.len(),
                    last == if n - pos > 256 {
                        pos + 256
                    } else {
                        n as int
                    },
                    self.wf(),
                    m == self@,
                    before == node_at(m, text@, pos as nat).score,
                    h == fingerprint(text@.subrange(pos as int, end as int)),
                    reached@.len() == n,
                    forall|k: int|
                        pos <= k < end ==> #[trigger] reached@[k] == reach(
                            m,
                            text@,
                            (k + 1) as nat,
                            (pos + 1) as nat,
                        ),
                    forall|k: int|
                        end <= k < n ==> #[trigger] reached@[k] == reach(
                            m,
                            text@,
                            (k + 1) as nat,
                            pos as nat,
                        ),
                    found_any <==> exists|e: int|
                        pos < e <= end && edge(m, text@, pos as int, e) is Some,
                decreases last - end,
            {
                proof {
                    lemma_fingerprint_extends(text@, pos as int, end as int);
                    lemma_place_of(m.pieces, text@.subrange(pos as int, end + 1));
                }
                h = mix(h, text[end]);
                let ghost was_found = found_any;
                if let Some(place) = self.find_filed(h, text, pos, end + 1) {
                    let piece = self.piece(place);
                    if piece.piece_type != PieceType::Unused {
                        let score = before.plus(piece.score);
                        let so_far = match reached[end] {
                            Some(node) => node.score,
                            None => Binary32 { bits: 0xff80_0000 },
                        };
                        if score.exceeds(so_far) {
                            reached.set(
                                end,
                                Some(
                                    Node {
                                        score,
                                        start: pos,
                                        id: #[verifier::truncate] (place as i32),
                                    },
                                ),
                            );
                        }
                        found_any = true;
                        proof {
                            assert(edge(m, text@, pos as int, end + 1) is Some);
                        }
                    }
                }
                proof {
                    assert(reached@[end as int] == reach(
                        m,
                        text@,
                        (end + 1) as nat,
                        (pos + 1) as nat,
                    ));
                    if found_any && was_found {
                        let e = choose|e: int|
                            pos < e <= end && edge(m, text@, pos as int, e) is Some;
                        assert(pos < e <= end + 1 && edge(m, text@, pos as int, e) is Some);
                    }
                }
                end = end + 1;
            }
            proof {
                assert forall|k: int| last <= k < n implies #[trigger] reached@[k] == reach(
                    m,
                    text@,
                    (k + 1) as nat,
                    (pos + 1) as nat,
                ) by {
                    lemma_reach_beyond(m, text@, (k + 1) as nat, pos as nat);
                }
                assert(found_any == starts_piece(m, text@, pos as int));
            }
            let mut by_byte = reached[pos];
            if !found_any {
                if let Some(place) = self.byte_piece(text[pos]) {
                    let score = before.plus(self.piece(place).score);
                    let so_far = match by_byte {
                        Some(node) => node.score,
                        None => Binary32 { bits: 0xff80_0000 },
                    };
                    if score.exceeds(so_far) {
                        by_byte = Some(
                            Node { score, start: pos, id: #[verifier::truncate] (place as i32) },
                        );
                    }
                }
            }
            let node = match by_byte {
                Some(node) => node,
                None => Node {
                    score: before.plus(self.min_score()).minus(Binary32 { bits: 0x4120_0000 }),
                    start: pos,
                    id: self.unk_id(),
                },
            };
            nodes.push(node);
            pos = pos + 1;
        }
        nodes
    }

    /// Unigram Viterbi encoding.
    pub(crate) fn encode_unigram(&self, text: &Vec<char>) -> (r: Vec<Token>)
        requires
            self.wf(),
        ensures
            token_views(r@) == unigram_tokens(self@, text@),
    {
        let nodes = self.search(text);
        let n = text.len();
        let mut spans: Vec<Span> = Vec::new();
        let mut pos: usize = n;
        let ghost way = way_to(self@, text@, n as nat);
        proof {
            assert(way_to(self@, text@, pos as nat) + spans@.reverse() == way);
        }
        while pos > 0
            invariant
                pos <= n == text@.len(),
                nodes@.len() == n + 1,
                forall|k: int|
                    0 <= k <= n ==> #[trigger] nodes@[k] == node_at(self@, text@, k as nat),
                way_to(self@, text@, pos as nat) + spans@.reverse() == way,
            decreases pos,
        {
            let node = nodes[pos];
            proof {
                lemma_node_founded(self@, text@, pos as nat);
            }
            let span = Span { start: node.start, end: pos, id: node.id };
            let ghost before = spans@;
            spans.push(span);
            proof {
                let front = way_to(self@, text@, node.start as nat);
                assert(way_to(self@, text@, pos as nat) == front.push(span));
                assert(front.push(span) + before.reverse() == front + spans@.reverse());
            }
            pos = node.start;
        }
        let mut forward: Vec<Span> = Vec::new();
        let mut k: usize = spans.len();
        while k > 0
            invariant
                k <= spans@.len(),
                forward@ == spans@.reverse().take(spans@.len() - k),
            decreases k,
        {
            k = k - 1;
            forward.push(spans[k]);
            proof {
                assert(forward@ == spans@.reverse().take(spans@.len() - k));
            }
        }
        proof {
            assert(way_to(self@, text@, 0) == Seq::<Span>::empty());
            assert(forward@ == way);
            lemma_way_partitions(self@, text@, n as nat);
        }
        spell(text, &forward)
    }
}

} // verus!
