//! What holds of the chunks of a text.

use crate::chunking::{
    all_clause_slices, all_fit, all_sentence_slices, bisected, boundary_before, budget_pieces,
    chunks_of, clause_ends, clause_slices, closing_end, cut, gathered, gathered_chunks,
    goes_by_sentence, is_behind_boundary, is_boundary, joins, lemma_bisected, lemma_boundary_before,
    lemma_cut, lemma_ends, mark_from, parts, parts_from, safe_budget, sentence_chunks,
    sentence_slices, slices_of, unless_empty, white_end,
};
use crate::sp_model::ModelView;
use crate::tokenizer::{
    capitalized, joined_parts, lemma_flattened_begins, lined_up, padding, prepared, sentence_ends,
    token_count,
};
use crate::whitespace::{
    flattened, is_white, lemma_solid_concat, lemma_trimmed_back, lemma_trimmed_front, solid, trimmed,
    trimmed_front, trimming,
};
use vstd::prelude::*;

verus! {

/// The characters of texts, one text after the other, without whitespace.
pub open spec fn all_solid(texts: Seq<Seq<char>>) -> Seq<char>
    decreases texts.len(),
{
    if texts.len() == 0 {
        Seq::empty()
    } else {
        all_solid(texts.drop_last()) + solid(texts.last())
    }
}

proof fn lemma_all_solid_concat(a: Seq<Seq<char>>, b: Seq<Seq<char>>)
    ensures
        all_solid(a + b) == all_solid(a) + all_solid(b),
    decreases b.len(),
{
    if b.len() == 0 {
        assert(a + b == a);
        assert(all_solid(a) + all_solid(b) == all_solid(a));
    } else {
        lemma_all_solid_concat(a, b.drop_last());
        assert((a + b).drop_last() == a + b.drop_last());
        assert((all_solid(a) + all_solid(b.drop_last())) + solid(b.last()) == all_solid(a) + (
        all_solid(b.drop_last()) + solid(b.last())));
    }
}

proof fn lemma_all_solid_one(s: Seq<char>)
    ensures
        all_solid(seq![s]) == solid(s),
        all_solid(unless_empty(s)) == solid(s),
{
    assert(seq![s].drop_last() == Seq::<Seq<char>>::empty());
    assert(all_solid(seq![s].drop_last()) == Seq::<char>::empty());
    assert(seq![s].last() == s);
    assert(Seq::<char>::empty() + solid(s) == solid(s));
    assert(all_solid(seq![s]) == solid(s));
    if s.len() == 0 {
        assert(all_solid(Seq::<Seq<char>>::empty()) == Seq::<char>::empty());
        assert(solid(s) == Seq::<char>::empty());
    }
}

proof fn lemma_white_end_is_white(text: Seq<char>, i: nat)
    requires
        i <= text.len(),
    ensures
        i <= white_end(text, i) <= text.len(),
        solid(text.skip(i as int)) == solid(text.skip(white_end(text, i) as int)),
    decreases text.len() - i,
{
    if i < text.len() && is_white(text[i as int]) {
        lemma_white_end_is_white(text, i + 1);
        let head = seq![text[i as int]];
        assert(text.skip(i as int) == head + text.skip((i + 1) as int));
        lemma_solid_concat(head, text.skip((i + 1) as int));
        assert(head.last() == text[i as int]);
        assert(solid(head.drop_last()) == Seq::<char>::empty());
        assert(solid(head) == Seq::<char>::empty());
        assert(solid(head) + solid(text.skip((i + 1) as int)) == solid(text.skip((i + 1) as int)));
    }
}

proof fn lemma_parts_from_keep(text: Seq<char>, start: nat, marks: Seq<char>)
    requires
        start <= text.len(),
    ensures
        all_solid(parts_from(text, start, marks)) == solid(text.skip(start as int)),
    decreases text.len() - start,
{
    let mark = mark_from(text, start, marks);
    if start >= text.len() || mark >= text.len() {
        let tail = trimmed(text.skip(start as int));
        trimming(text.skip(start as int));
        lemma_all_solid_one(tail);
    } else {
        let end = closing_end(text, mark + 1);
        let next = white_end(text, end);
        lemma_ends(text, start, marks);
        lemma_ends(text, mark + 1, marks);
        lemma_white_end_is_white(text, end);
        lemma_parts_from_keep(text, next, marks);
        let head = text.subrange(start as int, end as int);
        trimming(head);
        lemma_all_solid_one(trimmed(head));
        lemma_all_solid_concat(unless_empty(trimmed(head)), parts_from(text, next, marks));
        assert(text.skip(start as int) == head + text.skip(end as int));
        lemma_solid_concat(head, text.skip(end as int));
    }
}

/// Splitting at punctuation loses nothing but whitespace.
pub proof fn parts_keep_text(text: Seq<char>, marks: Seq<char>)
    ensures
        all_solid(parts(text, marks)) == solid(text),
{
    lemma_parts_from_keep(text, 0, marks);
    assert(text.skip(0) == text);
}

/// Cutting by the number of tokens loses nothing but whitespace.
pub proof fn budget_pieces_keep_text(m: ModelView, text: Seq<char>, max_tokens: nat)
    ensures
        all_solid(budget_pieces(m, text, max_tokens)) == solid(text),
    decreases text.len(),
{
    if text.len() == 0 {
    } else if token_count(m, text) <= max_tokens {
        lemma_all_solid_one(text);
    } else {
        let at = cut(m, text, max_tokens);
        let head = text.take(at as int);
        let tail = text.skip(at as int);
        lemma_cut(m, text, max_tokens);
        trimming(head);
        trimming(tail);
        budget_pieces_keep_text(m, trimmed(tail), max_tokens);
        lemma_all_solid_one(trimmed(head));
        lemma_all_solid_concat(
            unless_empty(trimmed(head)),
            budget_pieces(m, trimmed(tail), max_tokens),
        );
        assert(text == head + tail);
        lemma_solid_concat(head, tail);
    }
}

proof fn lemma_clause_slices_keep(m: ModelView, clauses: Seq<Seq<char>>, max_tokens: nat)
    ensures
        all_solid(all_clause_slices(m, clauses, max_tokens)) == all_solid(clauses),
    decreases clauses.len(),
{
    if clauses.len() > 0 {
        let clause = clauses.last();
        lemma_clause_slices_keep(m, clauses.drop_last(), max_tokens);
        lemma_all_solid_one(clause);
        trimming(clause);
        budget_pieces_keep_text(m, trimmed(clause), max_tokens);
        lemma_all_solid_concat(
            all_clause_slices(m, clauses.drop_last(), max_tokens),
            clause_slices(m, clause, max_tokens),
        );
    }
}

proof fn lemma_sentence_slices_keep(m: ModelView, sentences: Seq<Seq<char>>, max_tokens: nat)
    ensures
        all_solid(all_sentence_slices(m, sentences, max_tokens)) == all_solid(sentences),
    decreases sentences.len(),
{
    if sentences.len() > 0 {
        let sentence = sentences.last();
        lemma_sentence_slices_keep(m, sentences.drop_last(), max_tokens);
        lemma_all_solid_one(sentence);
        let clauses = parts(sentence, clause_ends());
        parts_keep_text(sentence, clause_ends());
        lemma_clause_slices_keep(m, clauses, max_tokens);
        lemma_clause_slices_keep(m, seq![sentence], max_tokens);
        lemma_all_solid_concat(
            all_sentence_slices(m, sentences.drop_last(), max_tokens),
            sentence_slices(m, sentence, max_tokens),
        );
    }
}

proof fn lemma_join_keeps(left: Seq<char>, right: Seq<char>)
    ensures
        solid(joined_parts(left, right)) == solid(left) + solid(right),
{
    if left.len() == 0 {
        assert(solid(left) + solid(right) == solid(right));
    } else if right.len() == 0 {
        assert(solid(left) + solid(right) == solid(left));
    } else {
        lemma_solid_concat(left, right);
        lemma_solid_concat(left.push(' '), right);
        assert(left.push(' ').drop_last() == left);
        assert(left.push(' ').last() == ' ');
    }
}

proof fn lemma_gathered_keeps(m: ModelView, slices: Seq<Seq<char>>, max_tokens: nat)
    ensures
        all_solid(gathered(m, slices, max_tokens).done) + solid(
            gathered(m, slices, max_tokens).current,
        ) == all_solid(slices),
    decreases slices.len(),
{
    let g = gathered(m, slices, max_tokens);
    if slices.len() == 0 {
        assert(all_solid(g.done) + solid(g.current) == Seq::<char>::empty());
    } else {
        lemma_gathered_keeps(m, slices.drop_last(), max_tokens);
        let before = gathered(m, slices.drop_last(), max_tokens);
        let slice = slices.last();
        if before.current.len() == 0 {
            assert(all_solid(before.done) + solid(before.current) == all_solid(before.done));
        } else if !joins(m, before.current, slice, max_tokens) {
            assert(g.done.drop_last() == before.done);
            trimming(before.current);
        } else {
            lemma_join_keeps(before.current, slice);
            assert(all_solid(before.done) + (solid(before.current) + solid(slice)) == (all_solid(
                before.done,
            ) + solid(before.current)) + solid(slice));
        }
    }
}

/// Nothing is lost in cutting a text into chunks: but for whitespace, the
/// chunks one after the other are the prepared text, where it goes by sentence,
/// and else the text itself.
pub proof fn chunks_keep_text(m: ModelView, text: Seq<char>, max_tokens: nat)
    ensures
        ({
            let t = trimmed(text);
            all_solid(chunks_of(m, text, max_tokens)) == if t.len() > 0 && goes_by_sentence(
                m,
                t,
                prepared(t),
                safe_budget(max_tokens),
            ) {
                solid(prepared(t))
            } else {
                solid(text)
            }
        }),
{
    let safe_max = safe_budget(max_tokens);
    let t = trimmed(text);
    trimming(text);
    lemma_all_solid_one(t);
    parts_keep_text(prepared(t), sentence_ends());
    lemma_sentence_slices_keep(m, parts(prepared(t), sentence_ends()), safe_max);
    let slices = slices_of(m, prepared(t), safe_max);
    let g = gathered(m, slices, safe_max);
    lemma_gathered_keeps(m, slices, safe_max);
    budget_pieces_keep_text(m, t, safe_max);
    let chunks = gathered_chunks(g);
    if g.current.len() > 0 {
        assert(chunks.drop_last() == g.done);
        trimming(g.current);
    } else {
        assert(all_solid(g.done) + solid(g.current) == all_solid(g.done));
    }
}

proof fn lemma_solid_flattened(s: Seq<char>, blanks: Seq<char>)
    requires
        forall|i: int| 0 <= i < blanks.len() ==> is_white(#[trigger] blanks[i]),
    ensures
        solid(flattened(s, blanks)) == solid(s),
    decreases s.len(),
{
    if s.len() > 0 {
        let front = flattened(s.drop_last(), blanks);
        lemma_solid_flattened(s.drop_last(), blanks);
        let c = if blanks.contains(s.last()) {
            ' '
        } else {
            s.last()
        };
        if blanks.contains(s.last()) {
            let i = choose|i: int| 0 <= i < blanks.len() && blanks[i] == s.last();
            assert(is_white(blanks[i]));
        }
        assert(front.push(c).drop_last() == front);
        assert(front.push(c).last() == c);
    }
}

proof fn lemma_solid_capitalized(s: Seq<char>)
    requires
        s.len() > 0 ==> !is_white(s[0]),
    ensures
        solid(capitalized(s)) == capitalized(solid(s)),
{
    if s.len() > 0 {
        let head = seq![s[0]];
        let big = seq![capitalized(s)[0]];
        let tail = s.skip(1);
        assert(s == head + tail);
        assert(capitalized(s) == big + tail);
        lemma_solid_concat(head, tail);
        lemma_solid_concat(big, tail);
        assert(head.drop_last() == Seq::<char>::empty());
        assert(big.drop_last() == Seq::<char>::empty());
        assert(solid(head.drop_last()) == Seq::<char>::empty());
        assert(!is_white(big.last()));
        assert(solid(head) == head);
        assert(solid(big) == big);
        assert(capitalized(head + solid(tail)) == big + solid(tail));
    }
}

/// The characters of a text with those that preparing it may add at the end.
pub open spec fn is_ended_as(s: Seq<char>, plain: Seq<char>) -> bool {
    s == plain || s == plain.push('.') || s == plain.push('\u{3002}')
}

/// Preparing a text changes nothing but whitespace, the first letter, which may
/// become a capital, and the end, where a full stop may be added.
pub proof fn preparing_keeps_text(text: Seq<char>)
    requires
        trimmed(text).len() > 0,
    ensures
        is_ended_as(solid(prepared(text)), solid(text)) || is_ended_as(
            solid(prepared(text)),
            capitalized(solid(text)),
        ),
{
    let blanks = seq!['\r', '\n'];
    let t = trimmed(text);
    let s = flattened(t, blanks);
    trimming(text);
    lemma_solid_flattened(t, blanks);
    lemma_flattened_begins(t, blanks);
    lemma_solid_capitalized(s);
    let u = lined_up(text);
    assert(solid(u) == solid(text) || solid(u) == capitalized(solid(text)));
    assert(u.push('.').drop_last() == u && u.push('\u{3002}').drop_last() == u);
    assert(solid(u.push('.')) == solid(u).push('.'));
    assert(solid(u.push('\u{3002}')) == solid(u).push('\u{3002}'));
    lemma_solid_concat(padding(), u);
    lemma_solid_concat(padding(), u.push('.'));
    lemma_solid_padding();
    assert(Seq::<char>::empty() + solid(u) == solid(u));
    assert(Seq::<char>::empty() + solid(u.push('.')) == solid(u.push('.')));
}

proof fn lemma_solid_padding()
    ensures
        solid(padding()) == Seq::<char>::empty(),
{
    lemma_solid_of_white(padding());
}

proof fn lemma_solid_of_white(s: Seq<char>)
    requires
        forall|i: int| 0 <= i < s.len() ==> is_white(#[trigger] s[i]),
    ensures
        solid(s) == Seq::<char>::empty(),
    decreases s.len(),
{
    if s.len() > 0 {
        assert(is_white(s[s.len() - 1]));
        lemma_solid_of_white(s.drop_last());
    }
}

// --- The budget ---

/// Whether a text is not empty and has no whitespace around it.
pub open spec fn is_solid_around(s: Seq<char>) -> bool {
    s.len() > 0 && !is_white(s[0]) && !is_white(s.last())
}

pub open spec fn all_solid_around(texts: Seq<Seq<char>>) -> bool {
    forall|i: int| 0 <= i < texts.len() ==> is_solid_around(#[trigger] texts[i])
}

proof fn lemma_solid_around_concat(a: Seq<Seq<char>>, b: Seq<Seq<char>>)
    requires
        all_solid_around(a),
        all_solid_around(b),
    ensures
        all_solid_around(a + b),
{
    assert forall|i: int| 0 <= i < (a + b).len() implies is_solid_around(#[trigger] (a + b)[i]) by {
        if i < a.len() {
            assert((a + b)[i] == a[i]);
        } else {
            assert((a + b)[i] == b[i - a.len()]);
        }
    }
}

proof fn lemma_unless_empty_solid_around(s: Seq<char>)
    ensures
        all_solid_around(unless_empty(trimmed(s))),
{
    trimming(s);
}

proof fn lemma_parts_solid_around(text: Seq<char>, start: nat, marks: Seq<char>)
    requires
        start <= text.len(),
    ensures
        all_solid_around(parts_from(text, start, marks)),
    decreases text.len() - start,
{
    let mark = mark_from(text, start, marks);
    if start >= text.len() || mark >= text.len() {
        lemma_unless_empty_solid_around(text.skip(start as int));
    } else {
        let end = closing_end(text, mark + 1);
        let next = white_end(text, end);
        lemma_ends(text, start, marks);
        lemma_ends(text, mark + 1, marks);
        lemma_ends(text, end, marks);
        lemma_parts_solid_around(text, next, marks);
        let head = text.subrange(start as int, end as int);
        lemma_unless_empty_solid_around(head);
        lemma_solid_around_concat(unless_empty(trimmed(head)), parts_from(text, next, marks));
    }
}

proof fn lemma_budget_solid_around(m: ModelView, text: Seq<char>, max_tokens: nat)
    requires
        trimmed(text) == text,
    ensures
        all_solid_around(budget_pieces(m, text, max_tokens)),
    decreases text.len(),
{
    trimming(text);
    if text.len() > 0 && token_count(m, text) > max_tokens {
        let at = cut(m, text, max_tokens);
        let head = text.take(at as int);
        let tail = text.skip(at as int);
        lemma_cut(m, text, max_tokens);
        trimming(tail);
        lemma_budget_solid_around(m, trimmed(tail), max_tokens);
        lemma_unless_empty_solid_around(head);
        lemma_solid_around_concat(
            unless_empty(trimmed(head)),
            budget_pieces(m, trimmed(tail), max_tokens),
        );
    }
}

proof fn lemma_clauses_solid_around(m: ModelView, clauses: Seq<Seq<char>>, max_tokens: nat)
    requires
        all_solid_around(clauses),
    ensures
        all_solid_around(all_clause_slices(m, clauses, max_tokens)),
    decreases clauses.len(),
{
    if clauses.len() > 0 {
        let clause = clauses.last();
        assert(is_solid_around(clauses[clauses.len() - 1]));
        assert forall|i: int| 0 <= i < clauses.drop_last().len() implies is_solid_around(
            #[trigger] clauses.drop_last()[i],
        ) by {
            assert(clauses.drop_last()[i] == clauses[i]);
        }
        lemma_clauses_solid_around(m, clauses.drop_last(), max_tokens);
        trimming(clause);
        lemma_budget_solid_around(m, trimmed(clause), max_tokens);
        lemma_solid_around_concat(
            all_clause_slices(m, clauses.drop_last(), max_tokens),
            clause_slices(m, clause, max_tokens),
        );
    }
}

proof fn lemma_sentences_solid_around(m: ModelView, sentences: Seq<Seq<char>>, max_tokens: nat)
    requires
        all_solid_around(sentences),
    ensures
        all_solid_around(all_sentence_slices(m, sentences, max_tokens)),
    decreases sentences.len(),
{
    if sentences.len() > 0 {
        let sentence = sentences.last();
        assert(is_solid_around(sentences[sentences.len() - 1]));
        assert forall|i: int| 0 <= i < sentences.drop_last().len() implies is_solid_around(
            #[trigger] sentences.drop_last()[i],
        ) by {
            assert(sentences.drop_last()[i] == sentences[i]);
        }
        lemma_sentences_solid_around(m, sentences.drop_last(), max_tokens);
        lemma_parts_solid_around(sentence, 0, clause_ends());
        lemma_clauses_solid_around(m, parts(sentence, clause_ends()), max_tokens);
        lemma_clauses_solid_around(m, seq![sentence], max_tokens);
        lemma_solid_around_concat(
            all_sentence_slices(m, sentences.drop_last(), max_tokens),
            sentence_slices(m, sentence, max_tokens),
        );
    }
}

proof fn lemma_all_fit_push(m: ModelView, texts: Seq<Seq<char>>, text: Seq<char>, max_tokens: nat)
    ensures
        all_fit(m, texts.push(text), max_tokens) == (all_fit(m, texts, max_tokens) && token_count(
            m,
            text,
        ) <= max_tokens),
{
    let all = texts.push(text);
    if all_fit(m, all, max_tokens) {
        assert(token_count(m, all[texts.len() as int]) <= max_tokens);
        assert forall|i: int| 0 <= i < texts.len() implies token_count(m, #[trigger] texts[i])
            <= max_tokens by {
            assert(all[i] == texts[i]);
        }
    }
}

proof fn lemma_gathered_solid(m: ModelView, slices: Seq<Seq<char>>, max_tokens: nat)
    requires
        all_solid_around(slices),
    ensures
        ({
            let g = gathered(m, slices, max_tokens);
            &&& all_solid_around(g.done)
            &&& g.current.len() > 0 ==> is_solid_around(g.current)
        }),
    decreases slices.len(),
{
    if slices.len() > 0 {
        let front = slices.drop_last();
        let slice = slices.last();
        let before = gathered(m, front, max_tokens);
        let g = gathered(m, slices, max_tokens);
        assert(is_solid_around(slices[slices.len() - 1]));
        assert forall|i: int| 0 <= i < front.len() implies is_solid_around(#[trigger] front[i]) by {
            assert(front[i] == slices[i]);
        }
        lemma_gathered_solid(m, front, max_tokens);
        if before.current.len() > 0 {
            assert(trimmed(before.current) == before.current);
            let joint = joined_parts(before.current, slice);
            assert(joint[0] == before.current[0]);
            assert(joint.last() == slice.last());
        }
    }
}

/// No chunk is empty or has whitespace around it.
pub proof fn chunks_are_solid(m: ModelView, text: Seq<char>, max_tokens: nat)
    ensures
        all_solid_around(chunks_of(m, text, max_tokens)),
{
    let safe_max = safe_budget(max_tokens);
    let t = trimmed(text);
    trimming(text);
    lemma_parts_solid_around(prepared(t), 0, sentence_ends());
    lemma_sentences_solid_around(m, parts(prepared(t), sentence_ends()), safe_max);
    let slices = slices_of(m, prepared(t), safe_max);
    lemma_gathered_solid(m, slices, safe_max);
    lemma_budget_solid_around(m, t, safe_max);
    let g = gathered(m, slices, safe_max);
    if g.current.len() > 0 {
        assert(trimmed(g.current) == g.current);
    }
}

/// The number of tokens in the first `k` characters of a text.
#[verifier::opaque]
pub open spec fn prefix_count(m: ModelView, text: Seq<char>, k: int) -> nat {
    token_count(m, trimmed(text.take(k)))
}

/// Whether more text never has fewer tokens.
pub open spec fn counts_grow(m: ModelView) -> bool {
    forall|text: Seq<char>, a: int, b: int|
        #![trigger prefix_count(m, text, a), prefix_count(m, text, b)]
        0 <= a <= b <= text.len() ==> prefix_count(m, text, a) <= prefix_count(m, text, b)
}

/// Whether each character of a text by itself is within the budget; whitespace
/// does not count.
pub open spec fn characters_fit(m: ModelView, text: Seq<char>, max_tokens: nat) -> bool {
    forall|i: int|
        0 <= i < text.len() && !is_white(#[trigger] text[i]) ==> token_count(m, seq![text[i]])
            <= max_tokens
}

proof fn lemma_prefix_is_solid(text: Seq<char>, k: int)
    requires
        is_solid_around(text),
        1 <= k <= text.len(),
    ensures
        trimmed(text.take(k)).len() > 0,
        k == 1 ==> trimmed(text.take(k)) == seq![text[0]],
{
    let p = text.take(k);
    assert(p[0] == text[0]);
    lemma_trimmed_back(p);
    if k == 1 {
        assert(p.last() == text[0]);
        assert(p == seq![text[0]]);
    }
}

/// One step of the bisection.
proof fn lemma_bisected_step(
    m: ModelView,
    text: Seq<char>,
    max_tokens: nat,
    low: nat,
    high: nat,
    best: nat,
)
    requires
        is_solid_around(text),
        1 <= low <= high <= text.len(),
    ensures
        ({
            let mid = (low + high) as nat / 2;
            bisected(m, text, max_tokens, low, high, best) == if prefix_count(m, text, mid as int)
                <= max_tokens {
                bisected(m, text, max_tokens, mid + 1, high, mid)
            } else {
                bisected(m, text, max_tokens, low, (mid - 1) as nat, best)
            }
        }),
{
    reveal(prefix_count);
    lemma_prefix_is_solid(text, ((low + high) / 2) as int);
}

#[verifier::rlimit(50)]
proof fn lemma_bisection(
    m: ModelView,
    text: Seq<char>,
    max_tokens: nat,
    low: nat,
    high: nat,
    best: nat,
)
    requires
        counts_grow(m),
        is_solid_around(text),
        1 <= low <= high + 1,
        high <= text.len(),
        best >= 1,
        best + 1 == low || low == 1 && best == 1,
        prefix_count(m, text, best as int) <= max_tokens,
        forall|k: int|
            high < k <= text.len() ==> #[trigger] prefix_count(m, text, k) > max_tokens,
    ensures
        ({
            let r = bisected(m, text, max_tokens, low, high, best);
            &&& 1 <= r <= text.len()
            &&& prefix_count(m, text, r as int) <= max_tokens
            &&& forall|k: int|
                r < k <= text.len() ==> #[trigger] prefix_count(m, text, k) > max_tokens
        }),
    decreases high + 1 - low,
{
    if low <= high {
        let mid = (low + high) as nat / 2;
        lemma_bisected_step(m, text, max_tokens, low, high, best);
        if prefix_count(m, text, mid as int) <= max_tokens {
            lemma_bisection(m, text, max_tokens, mid + 1, high, mid);
        } else {
            assert forall|k: int| mid - 1 < k <= text.len() implies #[trigger] prefix_count(
                m,
                text,
                k,
            ) > max_tokens by {
                assert(prefix_count(m, text, mid as int) <= prefix_count(m, text, k));
            }
            lemma_bisection(m, text, max_tokens, low, (mid - 1) as nat, best);
        }
    }
}

/// Where more text never has fewer tokens, bisection finds the longest prefix
/// within the budget.
pub proof fn bisection_finds_longest(m: ModelView, text: Seq<char>, max_tokens: nat)
    requires
        counts_grow(m),
        characters_fit(m, text, max_tokens),
        is_solid_around(text),
    ensures
        ({
            let r = bisected(m, text, max_tokens, 1, text.len(), 1);
            &&& 1 <= r <= text.len()
            &&& prefix_count(m, text, r as int) <= max_tokens
            &&& forall|k: int|
                r < k <= text.len() ==> #[trigger] prefix_count(m, text, k) > max_tokens
        }),
{
    lemma_prefix_is_solid(text, 1);
    assert(!is_white(text[0]));
    assert(prefix_count(m, text, 1) == token_count(m, seq![text[0]])) by {
        reveal(prefix_count);
    }
    lemma_bisection(m, text, max_tokens, 1, text.len(), 1);
}

proof fn lemma_fit_concat(m: ModelView, a: Seq<Seq<char>>, b: Seq<Seq<char>>, max_tokens: nat)
    requires
        all_fit(m, a, max_tokens),
        all_fit(m, b, max_tokens),
    ensures
        all_fit(m, a + b, max_tokens),
{
    assert forall|i: int| 0 <= i < (a + b).len() implies token_count(m, #[trigger] (a + b)[i])
        <= max_tokens by {
        if i < a.len() {
            assert((a + b)[i] == a[i]);
        } else {
            assert((a + b)[i] == b[i - a.len()]);
        }
    }
}

/// The characters of a part of a text fit if those of the text do.
proof fn lemma_part_fits(
    m: ModelView,
    text: Seq<char>,
    start: int,
    end: int,
    max_tokens: nat,
)
    requires
        0 <= start <= end <= text.len(),
        characters_fit(m, text, max_tokens),
    ensures
        characters_fit(m, trimmed(text.subrange(start, end)), max_tokens),
{
    let s = text.subrange(start, end);
    let f = trimmed_front(s);
    let t = trimmed(s);
    lemma_trimmed_front(s);
    lemma_trimmed_back(f);
    let k = start + s.len() - f.len();
    assert forall|i: int| 0 <= i < t.len() && !is_white(#[trigger] t[i]) implies token_count(
        m,
        seq![t[i]],
    ) <= max_tokens by {
        assert(t[i] == f[i]);
        assert(t[i] == text[i + k]);
    }
}

/// What bisection finds is within the budget, whatever the counts are like.
proof fn lemma_bisected_fits(
    m: ModelView,
    text: Seq<char>,
    max_tokens: nat,
    low: nat,
    high: nat,
    best: nat,
)
    requires
        token_count(m, trimmed(text.take(best as int))) <= max_tokens,
    ensures
        token_count(
            m,
            trimmed(text.take(bisected(m, text, max_tokens, low, high, best) as int)),
        ) <= max_tokens,
    decreases high + 1 - low,
{
    if low <= high && low > 0 {
        let mid = (low + high) as nat / 2;
        let prefix = trimmed(text.take(mid as int));
        if prefix.len() == 0 {
            lemma_bisected_fits(m, text, max_tokens, mid + 1, high, best);
        } else if token_count(m, prefix) <= max_tokens {
            lemma_bisected_fits(m, text, max_tokens, mid + 1, high, mid);
        } else {
            lemma_bisected_fits(m, text, max_tokens, low, (mid - 1) as nat, best);
        }
    }
}

/// What is cut off is within the budget.
proof fn lemma_cut_fits(m: ModelView, text: Seq<char>, max_tokens: nat)
    requires
        is_solid_around(text),
        characters_fit(m, text, max_tokens),
    ensures
        token_count(m, trimmed(text.take(cut(m, text, max_tokens) as int))) <= max_tokens,
{
    lemma_prefix_is_solid(text, 1);
    assert(!is_white(text[0]));
    lemma_bisected_fits(m, text, max_tokens, 1, text.len(), 1);
}

/// Whether a text may well be cut behind a character: a space, or a mark that
/// ends a clause or a sentence.
pub open spec fn is_break(c: char) -> bool {
    ||| c == ' '
    ||| c == ','
    ||| c == '.'
    ||| c == '!'
    ||| c == '?'
    ||| c == ';'
    ||| c == ':'
    ||| c == '\u{3001}'
    ||| c == '\u{3002}'
    ||| c == '\u{FF01}'
    ||| c == '\u{FF0C}'
    ||| c == '\u{FF1A}'
    ||| c == '\u{FF1B}'
    ||| c == '\u{FF1F}'
}

proof fn lemma_break_is_boundary(c: char)
    ensures
        is_break(c) == is_boundary(c),
{
    let a = clause_ends();
    let b = sentence_ends();
    if is_break(c) {
        assert(a[0] == ',' && a[1] == '\u{FF0C}' && a[2] == '\u{3001}' && a[3] == '\u{FF1B}' && a[4]
            == ';' && a[5] == '\u{FF1A}' && a[6] == ':');
        assert(b[0] == '.' && b[1] == '!' && b[2] == '?' && b[3] == '\u{3002}' && b[4]
            == '\u{FF01}' && b[5] == '\u{FF1F}');
    }
}

/// A text that is over the budget is not cut inside a word if that can be
/// helped: if one of the last 25 characters of a prefix of `longest` characters,
/// the longest within the budget, is a space or a mark, and the text up to it
/// is within the budget, then what is cut off first ends with such a character,
/// the last one of the kind. If none is, it is the whole prefix.
pub proof fn words_are_kept_whole(
    m: ModelView,
    text: Seq<char>,
    max_tokens: nat,
    longest: int,
)
    requires
        counts_grow(m),
        characters_fit(m, text, max_tokens),
        is_solid_around(text),
        token_count(m, text) > max_tokens,
        1 <= longest <= text.len(),
        token_count(m, trimmed(text.take(longest))) <= max_tokens,
        forall|k: int|
            longest < k <= text.len() ==> token_count(m, trimmed(#[trigger] text.take(k)))
                > max_tokens,
    ensures
        exists|c: int|
            1 <= c <= longest && budget_pieces(m, text, max_tokens) == seq![
                trimmed(#[trigger] text.take(c)),
            ] + budget_pieces(m, trimmed(text.skip(c)), max_tokens) && if exists|p: int|
                0 <= p < longest && longest - 25 <= p && #[trigger] is_break(text[p]) {
                is_break(text[c - 1]) && longest - 25 < c && forall|p: int|
                    c <= p < longest ==> !#[trigger] is_break(text[p])
            } else {
                c == longest
            },
{
    let best = bisected(m, text, max_tokens, 1, text.len(), 1);
    bisection_finds_longest(m, text, max_tokens);
    assert(best == longest) by {
        reveal(prefix_count);
        if best < longest {
            assert(prefix_count(m, text, longest) > max_tokens);
        } else if longest < best {
            assert(token_count(m, trimmed(text.take(best as int))) > max_tokens);
        }
    }
    let low = if best < 25 {
        0
    } else {
        (best - 25) as nat
    };
    lemma_boundary_before(text, low, best, best);
    let at = boundary_before(text, low, best, best) as int;
    lemma_prefix_is_solid(text, at);
    assert(token_count(m, trimmed(text.take(at))) <= max_tokens) by {
        reveal(prefix_count);
        assert(prefix_count(m, text, at) <= prefix_count(m, text, longest));
    }
    let c = cut(m, text, max_tokens) as int;
    assert(c == at);
    assert(unless_empty(trimmed(text.take(c))) == seq![trimmed(text.take(c))]);
    if exists|p: int| 0 <= p < longest && longest - 25 <= p && #[trigger] is_break(text[p]) {
        let p = choose|p: int|
            0 <= p < longest && longest - 25 <= p && #[trigger] is_break(text[p]);
        lemma_break_is_boundary(text[p]);
        assert(is_behind_boundary(text, (p + 1) as nat));
        lemma_break_is_boundary(text[c - 1]);
        assert forall|p: int| c <= p < longest implies !#[trigger] is_break(text[p]) by {
            lemma_break_is_boundary(text[p]);
            if is_break(text[p]) {
                assert(is_behind_boundary(text, (p + 1) as nat));
            }
        }
    } else {
        if c != longest {
            lemma_break_is_boundary(text[c - 1]);
            assert(is_break(text[c - 1]));
        }
    }
    assert(text.take(c) == text.take(c));
}

/// The same without any trust in the counts: a text is cut behind the last break
/// among the last 25 characters of the prefix that bisection finds, if up to it
/// the text is within the budget, and else behind the whole prefix.
pub proof fn cut_is_behind_the_last_break(m: ModelView, text: Seq<char>, max_tokens: nat, p: int)
    requires
        is_solid_around(text),
        ({
            let found = bisected(m, text, max_tokens, 1, text.len(), 1);
            &&& 0 <= p < found && found - 25 <= p
            &&& forall|q: int| p < q < found ==> !#[trigger] is_break(text[q])
        }),
        p < text.len(),
        is_break(text[p]),
    ensures
        cut(m, text, max_tokens) == if token_count(m, trimmed(text.take(p + 1))) <= max_tokens {
            p + 1
        } else {
            bisected(m, text, max_tokens, 1, text.len(), 1) as int
        },
{
    let best = bisected(m, text, max_tokens, 1, text.len(), 1);
    let low = if best < 25 {
        0
    } else {
        (best - 25) as nat
    };
    lemma_bisected(m, text, max_tokens, 1, text.len(), 1);
    lemma_boundary_before(text, low, best, best);
    let at = boundary_before(text, low, best, best) as int;
    lemma_break_is_boundary(text[p]);
    assert(is_behind_boundary(text, (p + 1) as nat));
    lemma_break_is_boundary(text[at - 1]);
    assert(at == p + 1) by {
        if p < at - 1 {
            assert(is_break(text[at - 1]));
        }
    }
    lemma_prefix_is_solid(text, p + 1);
}

/// The pieces of a text are within the budget, if each of its characters is.
pub proof fn budget_pieces_fit(m: ModelView, text: Seq<char>, max_tokens: nat)
    requires
        trimmed(text) == text,
        characters_fit(m, text, max_tokens),
    ensures
        all_fit(m, budget_pieces(m, text, max_tokens), max_tokens),
    decreases text.len(),
{
    trimming(text);
    if text.len() > 0 && token_count(m, text) > max_tokens {
        let at = cut(m, text, max_tokens) as int;
        let head = text.take(at);
        let tail = text.skip(at);
        lemma_cut(m, text, max_tokens);
        lemma_cut_fits(m, text, max_tokens);
        trimming(tail);
        assert(tail == text.subrange(at, text.len() as int));
        lemma_part_fits(m, text, at, text.len() as int, max_tokens);
        budget_pieces_fit(m, trimmed(tail), max_tokens);
        lemma_fit_concat(
            m,
            unless_empty(trimmed(head)),
            budget_pieces(m, trimmed(tail), max_tokens),
            max_tokens,
        );
    }
}

/// Each chunk has at most `max_tokens` tokens, if each character of the text by
/// itself has.
pub proof fn chunks_are_within_budget(m: ModelView, text: Seq<char>, max_tokens: nat)
    requires
        max_tokens > 0,
        characters_fit(m, text, max_tokens),
    ensures
        all_fit(m, chunks_of(m, text, max_tokens), max_tokens),
{
    let t = trimmed(text);
    trimming(text);
    assert(text.subrange(0, text.len() as int) == text);
    lemma_part_fits(m, text, 0, text.len() as int, max_tokens);
    budget_pieces_fit(m, t, max_tokens);
}

/// A text that is not blank has a piece.
pub proof fn lemma_some_piece(m: ModelView, text: Seq<char>, max_tokens: nat)
    requires
        is_solid_around(text),
    ensures
        budget_pieces(m, text, max_tokens).len() > 0,
{
    if token_count(m, text) > max_tokens {
        lemma_cut(m, text, max_tokens);
        lemma_prefix_is_solid(text, cut(m, text, max_tokens) as int);
    }
}

/// A text that is cut into one piece only stays as it is.
proof fn lemma_one_piece(m: ModelView, text: Seq<char>, max_tokens: nat)
    requires
        is_solid_around(text),
        budget_pieces(m, text, max_tokens).len() == 1,
    ensures
        budget_pieces(m, text, max_tokens)[0] == text,
{
    if token_count(m, text) > max_tokens {
        let at = cut(m, text, max_tokens) as int;
        let tail = text.skip(at);
        lemma_cut(m, text, max_tokens);
        lemma_prefix_is_solid(text, at);
        if at < text.len() {
            assert(tail.last() == text.last());
            lemma_solid_end(tail);
            trimming(tail);
            lemma_some_piece(m, trimmed(tail), max_tokens);
        } else {
            assert(text.take(at) == text);
            assert(trimmed(text) == text);
        }
    }
}

/// A text that ends in something else than whitespace is not blank.
proof fn lemma_solid_end(s: Seq<char>)
    requires
        s.len() > 0,
        !is_white(s.last()),
    ensures
        trimmed(s).len() > 0,
{
    lemma_trimmed_front(s);
    assert(solid(s).len() > 0);
    trimming(s);
    if trimmed(s).len() == 0 {
        assert(solid(trimmed(s)) == Seq::<char>::empty());
    }
}

/// A text that comes back as one chunk comes back as it is, but for the
/// whitespace around it.
pub proof fn one_chunk_is_the_text(m: ModelView, text: Seq<char>, max_tokens: nat)
    ensures
        chunks_of(m, text, max_tokens).len() == 1 ==> chunks_of(m, text, max_tokens)[0] == trimmed(
            text,
        ),
{
    let t = trimmed(text);
    let safe_max = safe_budget(max_tokens);
    trimming(text);
    if t.len() > 0 && budget_pieces(m, t, safe_max).len() == 1 {
        lemma_one_piece(m, t, safe_max);
    }
}

/// A text that is not blank has chunks, and nothing of it is lost, repeated or
/// put in another order: but for whitespace, one chunk is the text, and several
/// are the text, with perhaps a capital at its start and a full stop at its end.
pub proof fn chunks_lose_nothing(m: ModelView, text: Seq<char>, max_tokens: nat)
    requires
        trimmed(text).len() > 0,
    ensures
        ({
            let chunks = chunks_of(m, text, max_tokens);
            &&& chunks.len() > 0
            &&& chunks.len() == 1 ==> all_solid(chunks) == solid(text)
            &&& chunks.len() > 1 ==> is_ended_as(all_solid(chunks), solid(text)) || is_ended_as(
                all_solid(chunks),
                capitalized(solid(text)),
            )
        }),
{
    let t = trimmed(text);
    trimming(text);
    lemma_some_piece(m, t, safe_budget(max_tokens));
    chunks_keep_text(m, text, max_tokens);
    preparing_keeps_text(t);
}

proof fn lemma_parts_fit(
    m: ModelView,
    text: Seq<char>,
    start: nat,
    marks: Seq<char>,
    max_tokens: nat,
    i: int,
)
    requires
        start <= text.len(),
        characters_fit(m, text, max_tokens),
        0 <= i < parts_from(text, start, marks).len(),
    ensures
        characters_fit(m, parts_from(text, start, marks)[i], max_tokens),
    decreases text.len() - start,
{
    let mark = mark_from(text, start, marks);
    if start >= text.len() || mark >= text.len() {
        assert(text.skip(start as int) == text.subrange(start as int, text.len() as int));
        lemma_part_fits(m, text, start as int, text.len() as int, max_tokens);
    } else {
        let end = closing_end(text, mark + 1);
        let next = white_end(text, end);
        lemma_ends(text, start, marks);
        lemma_ends(text, mark + 1, marks);
        lemma_ends(text, end, marks);
        let head = unless_empty(trimmed(text.subrange(start as int, end as int)));
        let all = parts_from(text, start, marks);
        lemma_part_fits(m, text, start as int, end as int, max_tokens);
        if i < head.len() {
            assert(all[i] == head[i]);
        } else {
            assert(all[i] == parts_from(text, next, marks)[i - head.len()]);
            lemma_parts_fit(m, text, next, marks, max_tokens, i - head.len());
        }
    }
}

proof fn lemma_clause_slices_fit(m: ModelView, clauses: Seq<Seq<char>>, max_tokens: nat)
    requires
        forall|i: int|
            0 <= i < clauses.len() ==> characters_fit(m, #[trigger] clauses[i], max_tokens),
    ensures
        all_fit(m, all_clause_slices(m, clauses, max_tokens), max_tokens),
    decreases clauses.len(),
{
    if clauses.len() > 0 {
        let front = clauses.drop_last();
        let clause = clauses.last();
        assert forall|i: int| 0 <= i < front.len() implies characters_fit(
            m,
            #[trigger] front[i],
            max_tokens,
        ) by {
            assert(front[i] == clauses[i]);
        }
        lemma_clause_slices_fit(m, front, max_tokens);
        assert(characters_fit(m, clauses[clauses.len() - 1], max_tokens));
        trimming(clause);
        assert(clause.subrange(0, clause.len() as int) == clause);
        lemma_part_fits(m, clause, 0, clause.len() as int, max_tokens);
        budget_pieces_fit(m, trimmed(clause), max_tokens);
        lemma_fit_concat(
            m,
            all_clause_slices(m, front, max_tokens),
            clause_slices(m, clause, max_tokens),
            max_tokens,
        );
    }
}

proof fn lemma_sentence_slices_fit(m: ModelView, sentences: Seq<Seq<char>>, max_tokens: nat)
    requires
        forall|i: int|
            0 <= i < sentences.len() ==> characters_fit(m, #[trigger] sentences[i], max_tokens),
    ensures
        all_fit(m, all_sentence_slices(m, sentences, max_tokens), max_tokens),
    decreases sentences.len(),
{
    if sentences.len() > 0 {
        let front = sentences.drop_last();
        let sentence = sentences.last();
        assert forall|i: int| 0 <= i < front.len() implies characters_fit(
            m,
            #[trigger] front[i],
            max_tokens,
        ) by {
            assert(front[i] == sentences[i]);
        }
        lemma_sentence_slices_fit(m, front, max_tokens);
        assert(characters_fit(m, sentences[sentences.len() - 1], max_tokens));
        let clauses = parts(sentence, clause_ends());
        assert forall|i: int| 0 <= i < clauses.len() implies characters_fit(
            m,
            #[trigger] clauses[i],
            max_tokens,
        ) by {
            lemma_parts_fit(m, sentence, 0, clause_ends(), max_tokens, i);
        }
        lemma_clause_slices_fit(m, clauses, max_tokens);
        lemma_clause_slices_fit(m, seq![sentence], max_tokens);
        lemma_fit_concat(
            m,
            all_sentence_slices(m, front, max_tokens),
            sentence_slices(m, sentence, max_tokens),
            max_tokens,
        );
    }
}

proof fn lemma_gathered_fits(m: ModelView, slices: Seq<Seq<char>>, max_tokens: nat)
    requires
        all_solid_around(slices),
        all_fit(m, slices, max_tokens),
    ensures
        ({
            let g = gathered(m, slices, max_tokens);
            &&& g.current.len() > 0 ==> is_solid_around(g.current) && token_count(m, g.current)
                <= max_tokens
            &&& all_fit(m, g.done, max_tokens)
        }),
    decreases slices.len(),
{
    if slices.len() > 0 {
        let front = slices.drop_last();
        let before = gathered(m, front, max_tokens);
        assert(front.push(slices.last()) == slices);
        lemma_all_fit_push(m, front, slices.last(), max_tokens);
        assert forall|i: int| 0 <= i < front.len() implies is_solid_around(#[trigger] front[i]) by {
            assert(front[i] == slices[i]);
        }
        lemma_gathered_fits(m, front, max_tokens);
        lemma_gathered_solid(m, slices, max_tokens);
        if before.current.len() > 0 {
            assert(trimmed(before.current) == before.current);
            lemma_all_fit_push(m, before.done, before.current, max_tokens);
        }
    }
}

/// The chunks of sentences are within the budget, if each character of the
/// prepared text by itself is.
pub proof fn sentence_chunks_are_within_budget(m: ModelView, ready: Seq<char>, max_tokens: nat)
    requires
        characters_fit(m, ready, max_tokens),
    ensures
        all_fit(m, sentence_chunks(m, ready, max_tokens), max_tokens),
{
    let sentences = parts(ready, sentence_ends());
    assert forall|i: int| 0 <= i < sentences.len() implies characters_fit(
        m,
        #[trigger] sentences[i],
        max_tokens,
    ) by {
        lemma_parts_fit(m, ready, 0, sentence_ends(), max_tokens, i);
    }
    lemma_sentence_slices_fit(m, sentences, max_tokens);
    lemma_parts_solid_around(ready, 0, sentence_ends());
    lemma_sentences_solid_around(m, sentences, max_tokens);
    let slices = slices_of(m, ready, max_tokens);
    lemma_gathered_fits(m, slices, max_tokens);
    let g = gathered(m, slices, max_tokens);
    if g.current.len() > 0 {
        assert(trimmed(g.current) == g.current);
        lemma_all_fit_push(m, g.done, g.current, max_tokens);
    }
}

} // verus!
