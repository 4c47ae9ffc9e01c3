//! Cutting long texts into chunks.

use crate::sp_model::ModelView;
use crate::text::{chars_of, copy_range, string_of};
use crate::tokenizer::{
    is_ascii_word, joined_parts, lined_up, prepared, prepared_with, sentence_end_punctuation,
    sentence_ends, token_count, Tokenizer,
};
use crate::whitespace::{holds, is_white, trim, trim_range, trimmed, trimming, white};
use vstd::prelude::*;

verus! {

/// Characters that end a clause.
pub open spec fn clause_ends() -> Seq<char> {
    seq![',', '\u{FF0C}', '\u{3001}', '\u{FF1B}', ';', '\u{FF1A}', ':']
}

fn clause_split_punctuation() -> (r: [char; 7])
    ensures
        r@ == clause_ends(),
{
    let r = [',', '\u{FF0C}', '\u{3001}', '\u{FF1B}', ';', '\u{FF1A}', ':'];
    proof {
        assert(r@ == clause_ends());
    }
    r
}

/// Closing punctuation, which stays with the punctuation before it.
pub open spec fn closing() -> Seq<char> {
    seq!['"', '\'', ')', ']', '}', '\u{FF09}', '\u{3011}', '\u{300B}', '\u{300D}', '\u{300F}']
}

fn closing_punctuation() -> (r: [char; 10])
    ensures
        r@ == closing(),
{
    let r = ['"', '\'', ')', ']', '}', '\u{FF09}', '\u{3011}', '\u{300B}', '\u{300D}', '\u{300F}'];
    proof {
        assert(r@ == closing());
    }
    r
}

// --- Splitting at punctuation ---

/// The first place from `i` on that holds one of the marks, or the end.
pub open spec fn mark_from(text: Seq<char>, i: nat, marks: Seq<char>) -> nat
    decreases text.len() - i,
{
    if i >= text.len() {
        text.len()
    } else if marks.contains(text[i as int]) {
        i
    } else {
        mark_from(text, i + 1, marks)
    }
}

/// The end of the closing punctuation at `i`.
pub open spec fn closing_end(text: Seq<char>, i: nat) -> nat
    decreases text.len() - i,
{
    if i < text.len() && closing().contains(text[i as int]) {
        closing_end(text, i + 1)
    } else {
        i
    }
}

/// The end of the whitespace at `i`.
pub open spec fn white_end(text: Seq<char>, i: nat) -> nat
    decreases text.len() - i,
{
    if i < text.len() && is_white(text[i as int]) {
        white_end(text, i + 1)
    } else {
        i
    }
}

/// Searching goes forward, within the text.
pub proof fn lemma_ends(text: Seq<char>, i: nat, marks: Seq<char>)
    requires
        i <= text.len(),
    ensures
        i <= mark_from(text, i, marks) <= text.len(),
        i <= closing_end(text, i) <= text.len(),
        i <= white_end(text, i) <= text.len(),
    decreases text.len() - i,
{
    if i < text.len() {
        lemma_ends(text, i + 1, marks);
    }
}

/// A list of one text, or of none if the text is empty.
pub open spec fn unless_empty(s: Seq<char>) -> Seq<Seq<char>> {
    if s.len() == 0 {
        Seq::empty()
    } else {
        seq![s]
    }
}

/// The parts of a text from `start` on, each up to a mark and the closing
/// punctuation behind it.
pub open spec fn parts_from(text: Seq<char>, start: nat, marks: Seq<char>) -> Seq<Seq<char>>
    decreases text.len() - start,
{
    let mark = mark_from(text, start, marks);
    if start >= text.len() || mark >= text.len() {
        unless_empty(trimmed(text.skip(start as int)))
    } else {
        let end = closing_end(text, mark + 1);
        let next = white_end(text, end);
        proof {
            lemma_ends(text, start, marks);
            lemma_ends(text, mark + 1, marks);
            lemma_ends(text, end, marks);
        }
        unless_empty(trimmed(text.subrange(start as int, end as int))) + parts_from(
            text,
            next,
            marks,
        )
    }
}

/// The parts of a text, each up to a mark.
pub open spec fn parts(text: Seq<char>, marks: Seq<char>) -> Seq<Seq<char>> {
    parts_from(text, 0, marks)
}

// --- Splitting by the number of tokens ---

/// The length of a prefix within the budget, found by bisection between `low`
/// and `high`, with `best` the longest one found so far.
pub open spec fn bisected(
    m: ModelView,
    text: Seq<char>,
    max_tokens: nat,
    low: nat,
    high: nat,
    best: nat,
) -> nat
    decreases high + 1 - low,
{
    if low > high || low == 0 {
        best
    } else {
        let mid = (low + high) as nat / 2;
        let prefix = trimmed(text.take(mid as int));
        if prefix.len() == 0 {
            bisected(m, text, max_tokens, mid + 1, high, best)
        } else if token_count(m, prefix) <= max_tokens {
            bisected(m, text, max_tokens, mid + 1, high, mid)
        } else {
            bisected(m, text, max_tokens, low, (mid - 1) as nat, best)
        }
    }
}

/// Where a text may well be cut: at punctuation and at a space.
pub open spec fn is_boundary(c: char) -> bool {
    clause_ends().contains(c) || sentence_ends().contains(c) || c == ' '
}

/// The place after the last boundary from `low` up to `high`, or `high` if
/// there is none.
pub open spec fn boundary_before(text: Seq<char>, low: nat, high: nat, at: nat) -> nat
    decreases at,
{
    if at <= low {
        high
    } else if is_boundary(text[at - 1]) {
        at
    } else {
        boundary_before(text, low, high, (at - 1) as nat)
    }
}

/// How much of a text that is over the budget is cut off: a prefix within the
/// budget, up to the last boundary among its last 25 characters, if what is then
/// left of it is within the budget too.
pub open spec fn cut(m: ModelView, text: Seq<char>, max_tokens: nat) -> nat {
    let best = bisected(m, text, max_tokens, 1, text.len(), 1);
    let low = if best < 25 {
        0
    } else {
        (best - 25) as nat
    };
    let at = boundary_before(text, low, best, best);
    let piece = trimmed(text.take(at as int));
    if piece.len() == 0 || token_count(m, piece) > max_tokens {
        best
    } else {
        at
    }
}

/// Bisection stays within the text.
pub proof fn lemma_bisected(
    m: ModelView,
    text: Seq<char>,
    max_tokens: nat,
    low: nat,
    high: nat,
    best: nat,
)
    requires
        high <= text.len(),
        1 <= best <= text.len(),
    ensures
        1 <= bisected(m, text, max_tokens, low, high, best) <= text.len(),
    decreases high + 1 - low,
{
    if low <= high && low > 0 {
        let mid = (low + high) as nat / 2;
        lemma_bisected(m, text, max_tokens, mid + 1, high, best);
        lemma_bisected(m, text, max_tokens, mid + 1, high, mid);
        lemma_bisected(m, text, max_tokens, low, (mid - 1) as nat, best);
    }
}

/// Whether there is a boundary before a place.
pub open spec fn is_behind_boundary(text: Seq<char>, at: nat) -> bool {
    is_boundary(text[at - 1])
}

/// The place after a boundary is within bounds, and no later one is after a
/// boundary.
pub proof fn lemma_boundary_before(text: Seq<char>, low: nat, high: nat, at: nat)
    requires
        at <= high,
        1 <= high,
    ensures
        ({
            let r = boundary_before(text, low, high, at);
            &&& 1 <= r <= high
            &&& low < r <= at && is_behind_boundary(text, r) || r == high
            &&& (exists|k: nat| low < k <= at && #[trigger] is_behind_boundary(text, k)) ==> low < r
                <= at && is_behind_boundary(text, r)
            &&& forall|k: nat| low < k <= at && #[trigger] is_behind_boundary(text, k) ==> k <= r
        }),
    decreases at,
{
    if at > low && !is_behind_boundary(text, at) {
        lemma_boundary_before(text, low, high, (at - 1) as nat);
    }
}

/// Something is cut off.
pub proof fn lemma_cut(m: ModelView, text: Seq<char>, max_tokens: nat)
    requires
        text.len() > 0,
    ensures
        1 <= cut(m, text, max_tokens) <= text.len(),
{
    let best = bisected(m, text, max_tokens, 1, text.len(), 1);
    lemma_bisected(m, text, max_tokens, 1, text.len(), 1);
    let low = if best < 25 {
        0
    } else {
        (best - 25) as nat
    };
    lemma_boundary_before(text, low, best, best);
}

/// The pieces of a text, cut one after the other until the rest is within the
/// budget.
pub open spec fn budget_pieces(m: ModelView, text: Seq<char>, max_tokens: nat) -> Seq<Seq<char>>
    decreases text.len(),
{
    if text.len() == 0 {
        Seq::empty()
    } else if token_count(m, text) <= max_tokens {
        seq![text]
    } else {
        let at = cut(m, text, max_tokens);
        let rest = trimmed(text.skip(at as int));
        proof {
            lemma_cut(m, text, max_tokens);
            trimming(text.skip(at as int));
        }
        unless_empty(trimmed(text.take(at as int))) + budget_pieces(m, rest, max_tokens)
    }
}

// --- Chunks ---

/// A clause, cut further if it is over the budget.
pub open spec fn clause_slices(m: ModelView, clause: Seq<char>, max_tokens: nat) -> Seq<Seq<char>> {
    if token_count(m, clause) <= max_tokens {
        seq![clause]
    } else {
        budget_pieces(m, trimmed(clause), max_tokens)
    }
}

pub open spec fn all_clause_slices(
    m: ModelView,
    clauses: Seq<Seq<char>>,
    max_tokens: nat,
) -> Seq<Seq<char>>
    decreases clauses.len(),
{
    if clauses.len() == 0 {
        Seq::empty()
    } else {
        all_clause_slices(m, clauses.drop_last(), max_tokens) + clause_slices(
            m,
            clauses.last(),
            max_tokens,
        )
    }
}

/// A sentence, cut into clauses if it is over the budget.
pub open spec fn sentence_slices(m: ModelView, sentence: Seq<char>, max_tokens: nat) -> Seq<
    Seq<char>,
> {
    if token_count(m, sentence) <= max_tokens {
        seq![sentence]
    } else {
        let clauses = parts(sentence, clause_ends());
        all_clause_slices(
            m,
            if clauses.len() <= 1 {
                seq![sentence]
            } else {
                clauses
            },
            max_tokens,
        )
    }
}

pub open spec fn all_sentence_slices(
    m: ModelView,
    sentences: Seq<Seq<char>>,
    max_tokens: nat,
) -> Seq<Seq<char>>
    decreases sentences.len(),
{
    if sentences.len() == 0 {
        Seq::empty()
    } else {
        all_sentence_slices(m, sentences.drop_last(), max_tokens) + sentence_slices(
            m,
            sentences.last(),
            max_tokens,
        )
    }
}

/// Chunks that are complete, and the one that slices are being added to.
pub struct Gathered {
    pub done: Seq<Seq<char>>,
    pub current: Seq<char>,
}

/// Whether a slice joins a chunk: their counts together are within the budget,
/// and so is what they make when joined.
pub open spec fn joins(m: ModelView, chunk: Seq<char>, slice: Seq<char>, max_tokens: nat) -> bool {
    &&& token_count(m, chunk) + token_count(m, slice) <= max_tokens
    &&& token_count(m, joined_parts(chunk, slice)) <= max_tokens
}

/// Slices gathered into chunks: a slice joins the current chunk if both
/// together are within the budget.
pub open spec fn gathered(m: ModelView, slices: Seq<Seq<char>>, max_tokens: nat) -> Gathered
    decreases slices.len(),
{
    if slices.len() == 0 {
        Gathered { done: Seq::empty(), current: Seq::empty() }
    } else {
        let before = gathered(m, slices.drop_last(), max_tokens);
        let slice = slices.last();
        if before.current.len() == 0 {
            Gathered { done: before.done, current: slice }
        } else if !joins(m, before.current, slice, max_tokens) {
            Gathered { done: before.done.push(trimmed(before.current)), current: slice }
        } else {
            Gathered { done: before.done, current: joined_parts(before.current, slice) }
        }
    }
}

pub open spec fn gathered_chunks(g: Gathered) -> Seq<Seq<char>> {
    if g.current.len() == 0 {
        g.done
    } else {
        g.done.push(trimmed(g.current))
    }
}

/// The slices of a prepared text.
pub open spec fn slices_of(m: ModelView, ready: Seq<char>, max_tokens: nat) -> Seq<Seq<char>> {
    all_sentence_slices(m, parts(ready, sentence_ends()), max_tokens)
}

/// The chunks that the slices of a prepared text are gathered into.
pub open spec fn sentence_chunks(m: ModelView, ready: Seq<char>, max_tokens: nat) -> Seq<Seq<char>> {
    gathered_chunks(gathered(m, slices_of(m, ready, max_tokens), max_tokens))
}

/// Whether all texts are within the budget.
pub open spec fn all_fit(m: ModelView, texts: Seq<Seq<char>>, max_tokens: nat) -> bool {
    forall|i: int| 0 <= i < texts.len() ==> token_count(m, #[trigger] texts[i]) <= max_tokens
}

/// Whether a text makes up one chunk as it is.
pub open spec fn stays_whole(m: ModelView, text: Seq<char>, ready: Seq<char>, max_tokens: nat)
    -> bool {
    sentence_chunks(m, ready, max_tokens).len() <= 1 && token_count(m, text) <= max_tokens
}

/// Whether a text is cut into its sentences: they make up several chunks, which
/// are within the budget, or the text cannot be cut to the budget at all.
pub open spec fn goes_by_sentence(m: ModelView, text: Seq<char>, ready: Seq<char>, max_tokens: nat)
    -> bool {
    let chunks = sentence_chunks(m, ready, max_tokens);
    &&& chunks.len() > 1
    &&& {
        ||| all_fit(m, chunks, max_tokens)
        ||| !all_fit(m, budget_pieces(m, text, max_tokens), max_tokens)
    }
}

/// The chunks of a trimmed text, given its prepared form. A text that is within
/// the budget and makes up one chunk stays as it is. Else it is cut into its
/// sentences, if these are several and within the budget, and else into pieces.
pub open spec fn chunks_from(m: ModelView, text: Seq<char>, ready: Seq<char>, max_tokens: nat)
    -> Seq<Seq<char>> {
    let pieces = budget_pieces(m, text, max_tokens);
    if text.len() == 0 {
        Seq::empty()
    } else if stays_whole(m, text, ready, max_tokens) {
        seq![text]
    } else if goes_by_sentence(m, text, ready, max_tokens) {
        sentence_chunks(m, ready, max_tokens)
    } else if all_fit(m, pieces, max_tokens) {
        pieces
    } else {
        seq![text]
    }
}

/// The budget that is worked with: at least one token.
pub open spec fn safe_budget(max_tokens: nat) -> nat {
    if max_tokens == 0 {
        1
    } else {
        max_tokens
    }
}

/// The chunks of a text.
pub open spec fn chunks_of(m: ModelView, text: Seq<char>, max_tokens: nat) -> Seq<Seq<char>> {
    let t = trimmed(text);
    chunks_from(m, t, prepared(t), safe_budget(max_tokens))
}

// --- The chunker ---

/// What lists of characters say.
pub open spec fn views(list: Seq<Vec<char>>) -> Seq<Seq<char>> {
    list.map_values(|v: Vec<char>| v@)
}

/// What a list of strings says.
pub open spec fn string_views(list: Seq<String>) -> Seq<Seq<char>> {
    list.map_values(|s: String| s@)
}

proof fn lemma_views_push(list: Seq<Vec<char>>, v: Vec<char>)
    ensures
        views(list.push(v)) == views(list).push(v@),
{
    assert(views(list.push(v)) == views(list).push(v@));
}

fn push_unless_empty(list: &mut Vec<Vec<char>>, v: Vec<char>)
    ensures
        views(final(list)@) == views(old(list)@) + unless_empty(v@),
{
    let ghost before = list@;
    proof {
        lemma_views_push(before, v);
        assert(views(before) + seq![v@] == views(before).push(v@));
        assert(views(before) + Seq::<Seq<char>>::empty() == views(before));
    }
    if v.len() > 0 {
        list.push(v);
    }
}

fn append_all(list: &mut Vec<Vec<char>>, other: Vec<Vec<char>>)
    ensures
        views(final(list)@) == views(old(list)@) + views(other@),
{
    let ghost before = list@;
    let mut other = other;
    proof {
        assert(views(before + other@) == views(before) + views(other@));
    }
    list.append(&mut other);
}

/// Split text by punctuation characters.
#[verifier::rlimit(60)]
fn split_text_by_punctuation(text: &Vec<char>, punctuation: &[char]) -> (r: Vec<Vec<char>>)
    ensures
        views(r@) == parts(text@, punctuation@),
{
    let close = closing_punctuation();
    let mut sentences: Vec<Vec<char>> = Vec::new();
    let mut start: usize = 0;
    let mut index: usize = 0;
    proof {
        assert(views(sentences@) == Seq::<Seq<char>>::empty());
        assert(views(sentences@) + parts(text@, punctuation@) == parts(text@, punctuation@));
    }
    while index < text.len()
        invariant
            start <= index <= text@.len(),
            close@ == closing(),
            mark_from(text@, index as nat, punctuation@) == mark_from(
                text@,
                start as nat,
                punctuation@,
            ),
            views(sentences@) + parts_from(text@, start as nat, punctuation@) == parts(
                text@,
                punctuation@,
            ),
        decreases text.len() - index,
    {
        if holds(punctuation, text[index]) {
            let mut end: usize = index + 1;
            while end < text.len() && holds(&close, text[end])
                invariant
                    index + 1 <= end <= text@.len(),
                    close@ == closing(),
                    closing_end(text@, end as nat) == closing_end(text@, (index + 1) as nat),
                decreases text.len() - end,
            {
                end = end + 1;
            }
            let mut next: usize = end;
            while next < text.len() && white(text[next])
                invariant
                    end <= next <= text@.len(),
                    white_end(text@, next as nat) == white_end(text@, end as nat),
                decreases text.len() - next,
            {
                next = next + 1;
            }
            let ghost before = views(sentences@);
            push_unless_empty(&mut sentences, trim_range(text, start, end));
            proof {
                let head = unless_empty(trimmed(text@.subrange(start as int, end as int)));
                let tail = parts_from(text@, next as nat, punctuation@);
                assert(before + (head + tail) == (before + head) + tail);
            }
            start = next;
            index = next;
        } else {
            index = index + 1;
        }
    }
    proof {
        assert(text@.subrange(start as int, text@.len() as int) == text@.skip(start as int));
    }
    push_unless_empty(&mut sentences, trim_range(text, start, text.len()));
    sentences
}

impl Tokenizer {
    /// The longest prefix within the token budget that bisection finds.
    #[verifier::rlimit(60)]
    fn longest_prefix(&self, text: &Vec<char>, max_tokens: usize) -> (best: usize)
        requires
            self.wf(),
            text@.len() > 0,
        ensures
            best == bisected(self@, text@, max_tokens as nat, 1, text@.len(), 1),
            1 <= best <= text@.len(),
    {
        let mut below: usize = 0;
        let mut high: usize = text.len();
        let mut best: usize = 1;
        while below < high
            invariant
                self.wf(),
                below <= text@.len(),
                high <= text@.len(),
                1 <= best <= text@.len(),
                bisected(
                    self@,
                    text@,
                    max_tokens as nat,
                    (below + 1) as nat,
                    high as nat,
                    best as nat,
                ) == bisected(self@, text@, max_tokens as nat, 1, text@.len(), 1),
            decreases high - below,
        {
            let mid: usize = below + 1 + (high - below - 1) / 2;
            let candidate = trim_range(text, 0, mid);
            let over = candidate.len() > 0 && self.count(&candidate) > max_tokens;
            proof {
                assert(text@.subrange(0, mid as int) == text@.take(mid as int));
                assert(mid == (below + 1 + high) / 2);
            }
            if over {
                high = mid - 1;
            } else {
                if candidate.len() > 0 {
                    best = mid;
                }
                below = mid;
            }
        }
        best
    }

    /// How much of a text that is over the budget is cut off.
    #[verifier::rlimit(60)]
    fn cut_index(&self, text: &Vec<char>, max_tokens: usize) -> (at: usize)
        requires
            self.wf(),
            text@.len() > 0,
        ensures
            at == cut(self@, text@, max_tokens as nat),
    {
        let best = self.longest_prefix(text, max_tokens);
        let clause = clause_split_punctuation();
        let sentence = sentence_end_punctuation();
        let low: usize = if best < 25 {
            0
        } else {
            best - 25
        };
        let mut at: usize = best;
        let mut scan: usize = best;
        while scan > low
            invariant_except_break
                at == best,
            invariant
                low <= scan <= best <= text@.len(),
                clause@ == clause_ends(),
                sentence@ == sentence_ends(),
                boundary_before(text@, low as nat, best as nat, scan as nat) == boundary_before(
                    text@,
                    low as nat,
                    best as nat,
                    best as nat,
                ),
            ensures
                at == boundary_before(text@, low as nat, best as nat, best as nat),
            decreases scan,
        {
            let c = text[scan - 1];
            if holds(&clause, c) || holds(&sentence, c) || c == ' ' {
                at = scan;
                break;
            }
            scan = scan - 1;
        }
        proof {
            lemma_boundary_before(text@, low as nat, best as nat, best as nat);
            assert(text@.subrange(0, at as int) == text@.take(at as int));
        }
        let piece = trim_range(text, 0, at);
        if piece.len() == 0 || self.count(&piece) > max_tokens {
            best
        } else {
            at
        }
    }

    /// Split text by token budget, trying to break at preferred boundary characters.
    #[verifier::rlimit(60)]
    fn split_text_by_token_budget(&self, text: &Vec<char>, max_tokens: usize) -> (r: Vec<Vec<char>>)
        requires
            self.wf(),
        ensures
            views(r@) == budget_pieces(self@, trimmed(text@), max_tokens as nat),
    {
        let mut remaining = trim(text);
        let mut pieces: Vec<Vec<char>> = Vec::new();
        let ghost all = budget_pieces(self@, trimmed(text@), max_tokens as nat);
        proof {
            assert(views(pieces@) + all == all);
        }
        while remaining.len() > 0
            invariant
                self.wf(),
                all == budget_pieces(self@, trimmed(text@), max_tokens as nat),
                views(pieces@) + budget_pieces(self@, remaining@, max_tokens as nat) == all,
            decreases remaining.len(),
        {
            if self.count(&remaining) <= max_tokens {
                proof {
                    lemma_views_push(pieces@, remaining);
                    assert(views(pieces@) + seq![remaining@] == views(pieces@).push(remaining@));
                }
                pieces.push(remaining);
                return pieces;
            }
            let at = self.cut_index(&remaining, max_tokens);
            proof {
                lemma_cut(self@, remaining@, max_tokens as nat);
                trimming(remaining@.skip(at as int));
                assert(remaining@.subrange(0, at as int) == remaining@.take(at as int));
                assert(remaining@.subrange(at as int, remaining@.len() as int) == remaining@.skip(
                    at as int,
                ));
            }
            let ghost before = views(pieces@);
            push_unless_empty(&mut pieces, trim_range(&remaining, 0, at));
            let rest = trim_range(&remaining, at, remaining.len());
            proof {
                let head = unless_empty(trimmed(remaining@.take(at as int)));
                let tail = budget_pieces(self@, rest@, max_tokens as nat);
                assert(before + (head + tail) == (before + head) + tail);
            }
            remaining = rest;
        }
        proof {
            assert(views(pieces@) + Seq::<Seq<char>>::empty() == views(pieces@));
        }
        pieces
    }

    /// The slices of a clause.
    fn slice_clause(&self, clause: Vec<char>, max_tokens: usize) -> (r: Vec<Vec<char>>)
        requires
            self.wf(),
        ensures
            views(r@) == clause_slices(self@, clause@, max_tokens as nat),
    {
        if self.count(&clause) <= max_tokens {
            let mut slices: Vec<Vec<char>> = Vec::new();
            proof {
                lemma_views_push(slices@, clause);
                assert(views(slices@).push(clause@) == seq![clause@]);
            }
            slices.push(clause);
            slices
        } else {
            self.split_text_by_token_budget(&clause, max_tokens)
        }
    }

    /// The slices of a sentence.
    #[verifier::rlimit(60)]
    fn slice_sentence(&self, sentence: Vec<char>, max_tokens: usize) -> (r: Vec<Vec<char>>)
        requires
            self.wf(),
        ensures
            views(r@) == sentence_slices(self@, sentence@, max_tokens as nat),
    {
        let mut slices: Vec<Vec<char>> = Vec::new();
        proof {
            lemma_views_push(slices@, sentence);
            assert(views(slices@).push(sentence@) == seq![sentence@]);
        }
        if self.count(&sentence) <= max_tokens {
            slices.push(sentence);
            return slices;
        }
        let marks = clause_split_punctuation();
        let mut clauses = split_text_by_punctuation(&sentence, &marks);
        if clauses.len() <= 1 {
            let mut single: Vec<Vec<char>> = Vec::new();
            single.push(sentence);
            clauses = single;
        }
        let ghost all = views(clauses@);
        let mut i: usize = 0;
        while i < clauses.len()
            invariant
                self.wf(),
                i <= clauses@.len(),
                all == views(clauses@),
                views(slices@) == all_clause_slices(
                    self@,
                    all.take(i as int),
                    max_tokens as nat,
                ),
            decreases clauses.len() - i,
        {
            let clause = copy_range(&clauses[i], 0, clauses[i].len());
            proof {
                assert(clause@ == clauses@[i as int]@);
                assert(all.take(i + 1).drop_last() == all.take(i as int));
                assert(all.take(i + 1).last() == clause@);
            }
            append_all(&mut slices, self.slice_clause(clause, max_tokens));
            i = i + 1;
        }
        proof {
            assert(all.take(i as int) == all);
        }
        slices
    }

    /// The slices of all sentences.
    fn slice_sentences(&self, sentences: Vec<Vec<char>>, max_tokens: usize) -> (r: Vec<Vec<char>>)
        requires
            self.wf(),
        ensures
            views(r@) == all_sentence_slices(self@, views(sentences@), max_tokens as nat),
    {
        let mut slices: Vec<Vec<char>> = Vec::new();
        let ghost all = views(sentences@);
        let mut i: usize = 0;
        proof {
            assert(views(slices@) == Seq::<Seq<char>>::empty());
        }
        while i < sentences.len()
            invariant
                self.wf(),
                i <= sentences@.len(),
                all == views(sentences@),
                views(slices@) == all_sentence_slices(
                    self@,
                    all.take(i as int),
                    max_tokens as nat,
                ),
            decreases sentences.len() - i,
        {
            let sentence = copy_range(&sentences[i], 0, sentences[i].len());
            proof {
                assert(sentence@ == sentences@[i as int]@);
                assert(all.take(i + 1).drop_last() == all.take(i as int));
                assert(all.take(i + 1).last() == sentence@);
            }
            append_all(&mut slices, self.slice_sentence(sentence, max_tokens));
            i = i + 1;
        }
        proof {
            assert(all.take(i as int) == all);
        }
        slices
    }

    /// Slices gathered into chunks.
    #[verifier::rlimit(60)]
    fn gather(&self, slices: &Vec<Vec<char>>, max_tokens: usize) -> (r: Vec<Vec<char>>)
        requires
            self.wf(),
        ensures
            views(r@) == gathered_chunks(gathered(self@, views(slices@), max_tokens as nat)),
    {
        let mut chunks: Vec<Vec<char>> = Vec::new();
        let mut current: Vec<char> = Vec::new();
        let ghost all = views(slices@);
        let mut i: usize = 0;
        proof {
            assert(views(chunks@) == Seq::<Seq<char>>::empty());
            assert(current@ == Seq::<char>::empty());
        }
        while i < slices.len()
            invariant
                self.wf(),
                i <= slices@.len(),
                all == views(slices@),
                views(chunks@) == gathered(self@, all.take(i as int), max_tokens as nat).done,
                current@ == gathered(self@, all.take(i as int), max_tokens as nat).current,
            decreases slices.len() - i,
        {
            let slice = copy_range(&slices[i], 0, slices[i].len());
            proof {
                assert(slice@ == slices@[i as int]@);
                assert(all.take(i + 1).drop_last() == all.take(i as int));
                assert(all.take(i + 1).last() == slice@);
            }
            if current.len() == 0 {
                current = slice;
            } else {
                let counted = self.count(&current);
                let joint = Self::join_sentence_parts(&current, &slice);
                let fit = counted <= max_tokens && self.count(&slice) <= max_tokens - counted
                    && self.count(&joint) <= max_tokens;
                proof {
                    assert(fit == joins(self@, current@, slice@, max_tokens as nat));
                }
                if fit {
                    current = joint;
                } else {
                    let chunk = trim(&current);
                    proof {
                        lemma_views_push(chunks@, chunk);
                    }
                    chunks.push(chunk);
                    current = slice;
                }
            }
            i = i + 1;
        }
        proof {
            assert(all.take(i as int) == all);
        }
        if current.len() > 0 {
            let chunk = trim(&current);
            proof {
                lemma_views_push(chunks@, chunk);
            }
            chunks.push(chunk);
        }
        chunks
    }

    /// Whether all texts are within the budget.
    fn fit(&self, texts: &Vec<Vec<char>>, max_tokens: usize) -> (r: bool)
        requires
            self.wf(),
        ensures
            r == all_fit(self@, views(texts@), max_tokens as nat),
    {
        let ghost all = views(texts@);
        let mut i: usize = 0;
        while i < texts.len()
            invariant
                self.wf(),
                i <= texts@.len(),
                all == views(texts@),
                forall|j: int|
                    0 <= j < i ==> token_count(self@, #[trigger] all[j]) <= max_tokens,
            decreases texts.len() - i,
        {
            proof {
                assert(all[i as int] == texts@[i as int]@);
            }
            if self.count(&texts[i]) > max_tokens {
                return false;
            }
            i = i + 1;
        }
        true
    }

    /// The chunks of a trimmed text that is not empty, given its prepared form.
    #[verifier::rlimit(60)]
    fn cut_into_chunks(&self, text: Vec<char>, ready: &Vec<char>, max_tokens: usize) -> (r: Vec<
        Vec<char>,
    >)
        requires
            self.wf(),
            text@.len() > 0,
            trimmed(text@) == text@,
        ensures
            views(r@) == chunks_from(self@, text@, ready@, max_tokens as nat),
    {
        let marks = sentence_end_punctuation();
        let sentences = split_text_by_punctuation(ready, &marks);
        let slices = self.slice_sentences(sentences, max_tokens);
        let chunks = self.gather(&slices, max_tokens);
        let mut whole: Vec<Vec<char>> = Vec::new();
        proof {
            assert(views(chunks@).len() == chunks@.len());
            lemma_views_push(whole@, text);
            assert(views(whole@).push(text@) == seq![text@]);
        }
        if chunks.len() <= 1 && self.count(&text) <= max_tokens {
            whole.push(text);
            return whole;
        }
        if chunks.len() > 1 && self.fit(&chunks, max_tokens) {
            return chunks;
        }
        let pieces = self.split_text_by_token_budget(&text, max_tokens);
        if self.fit(&pieces, max_tokens) {
            return pieces;
        }
        if chunks.len() > 1 {
            chunks
        } else {
            whole.push(text);
            whole
        }
    }

    /// Split long text into chunks suitable for voice cloning: whole sentences,
    /// as many to a chunk as its budget of tokens allows.
    /// Each chunk will have at most `max_tokens` tokens, if every character of
    /// the text by itself has (see `chunk_laws`).
    pub fn split_voice_clone_text(&self, text: &str, max_tokens: usize) -> (r: Vec<String>)
        requires
            self.wf(),
        ensures
            string_views(r@) == chunks_of(self@, text@, max_tokens as nat),
            lined_up(trimmed(text@)).last() <= '\u{7F}' ==> string_views(r@) == chunks_from(
                self@,
                trimmed(text@),
                prepared_with(
                    trimmed(text@),
                    is_ascii_word(lined_up(trimmed(text@)).last()),
                ),
                safe_budget(max_tokens as nat),
            ),
    {
        let normalized = trim(&chars_of(text));
        let mut r: Vec<String> = Vec::new();
        proof {
            assert(string_views(r@) == Seq::<Seq<char>>::empty());
            trimming(text@);
        }
        if normalized.len() == 0 {
            return r;
        }
        let safe_max: usize = if max_tokens == 0 {
            1
        } else {
            max_tokens
        };
        let ready = Self::prepare_text_for_sentence_chunking(&normalized);
        let chunks = self.cut_into_chunks(normalized, &ready, safe_max);
        let ghost all = views(chunks@);
        let mut i: usize = 0;
        while i < chunks.len()
            invariant
                i <= chunks@.len(),
                all == views(chunks@),
                string_views(r@) == all.take(i as int),
            decreases chunks.len() - i,
        {
            let chunk = string_of(&chunks[i], 0, chunks[i].len());
            let ghost before = r@;
            r.push(chunk);
            proof {
                assert(chunk@ == chunks@[i as int]@);
                assert(string_views(r@) == string_views(before).push(chunk@));
                assert(string_views(r@) == all.take(i + 1));
            }
            i = i + 1;
        }
        proof {
            assert(all.take(i as int) == all);
        }
        r
    }
}

} // verus!
