//! Where text is cut, character by character.

use crate::chunking::{
    all_clause_slices, all_fit, all_sentence_slices, budget_pieces, chunks_of, clause_ends,
    closing, closing_end, gathered, gathered_chunks, lemma_ends, mark_from, parts, parts_from, sentence_chunks, slices_of,
    white_end,
};
use crate::sp_model::{normal_char, ModelView};
use crate::tokenizer::{
    has_cjk, is_cjk, is_terminal, prepared, sentence_ends, token_count, wide_terminals,
};
use crate::whitespace::{is_white, trimmed};
use vstd::prelude::*;

verus! {

// --- Characters ---

/// The marks that end a sentence.
pub open spec fn ends_sentence(c: char) -> bool {
    ||| c == '.'
    ||| c == '!'
    ||| c == '?'
    ||| c == ';'
    ||| c == '\u{3002}'
    ||| c == '\u{FF01}'
    ||| c == '\u{FF1F}'
    ||| c == '\u{FF1B}'
}

/// The marks that end a clause.
pub open spec fn ends_clause(c: char) -> bool {
    ||| c == ','
    ||| c == ';'
    ||| c == ':'
    ||| c == '\u{3001}'
    ||| c == '\u{FF0C}'
    ||| c == '\u{FF1B}'
    ||| c == '\u{FF1A}'
}

/// Quotes and brackets that close.
pub open spec fn closes(c: char) -> bool {
    ||| c == '"'
    ||| c == '\''
    ||| c == ')'
    ||| c == ']'
    ||| c == '}'
    ||| c == '\u{FF09}'
    ||| c == '\u{3011}'
    ||| c == '\u{300B}'
    ||| c == '\u{300D}'
    ||| c == '\u{300F}'
}

/// The lists of marks hold what they are for, and nothing else.
pub proof fn marks_are_complete(c: char)
    ensures
        sentence_ends().contains(c) == ends_sentence(c),
        clause_ends().contains(c) == ends_clause(c),
        closing().contains(c) == closes(c),
{
    let a = sentence_ends();
    let b = clause_ends();
    let d = closing();
    if ends_sentence(c) {
        assert(a[0] == '.' && a[1] == '!' && a[2] == '?' && a[3] == '\u{3002}' && a[4]
            == '\u{FF01}' && a[5] == '\u{FF1F}' && a[6] == '\u{FF1B}' && a[7] == ';');
    }
    if ends_clause(c) {
        assert(b[0] == ',' && b[1] == '\u{FF0C}' && b[2] == '\u{3001}' && b[3] == '\u{FF1B}' && b[4]
            == ';' && b[5] == '\u{FF1A}' && b[6] == ':');
    }
    if closes(c) {
        assert(d[0] == '"' && d[1] == '\'' && d[2] == ')' && d[3] == ']' && d[4] == '}' && d[5]
            == '\u{FF09}' && d[6] == '\u{3011}' && d[7] == '\u{300B}' && d[8] == '\u{300D}' && d[9]
            == '\u{300F}');
    }
}

/// The characters that count as whitespace, by their code points.
pub proof fn whitespace_is_complete(c: char)
    ensures
        is_white(c) == ({
            let n = c as u32;
            ||| 0x9 <= n <= 0xD
            ||| n == 0x20 || n == 0x85 || n == 0xA0 || n == 0x1680
            ||| 0x2000 <= n <= 0x200A
            ||| n == 0x2028 || n == 0x2029 || n == 0x202F || n == 0x205F || n == 0x3000
        }),
{
}

/// The characters that count as Chinese, Japanese or Korean, by their code points:
/// two blocks of ideographs, kana and syllables.
pub proof fn cjk_is_complete(c: char)
    ensures
        is_cjk(c) == ({
            let n = c as u32;
            ||| 0x4E00 <= n <= 0x9FFF
            ||| 0x3400 <= n <= 0x4DBF
            ||| 0x3040 <= n <= 0x30FF
            ||| 0xAC00 <= n <= 0xD7AF
        }),
{
}

/// A text may end with ASCII punctuation, which is every graphic ASCII character
/// that is no letter and no digit, or with one of twelve wide marks.
pub proof fn terminals_are_complete(c: char)
    ensures
        is_terminal(c) == ({
            let n = c as u32;
            ||| 0x21 <= n <= 0x7E && !(0x30 <= n <= 0x39) && !(0x41 <= n <= 0x5A) && !(0x61 <= n
                <= 0x7A)
            ||| n == 0x3001 || n == 0x3002 || n == 0x300B || n == 0x300D || n == 0x300F || n
                == 0x3011
            ||| n == 0xFF01 || n == 0xFF09 || n == 0xFF0C || n == 0xFF1A || n == 0xFF1B || n
                == 0xFF1F
        }),
{
    let w = wide_terminals();
    assert(w[0] == '\u{3002}' && w[1] == '\u{FF01}' && w[2] == '\u{FF1F}' && w[3] == '\u{FF1B}'
        && w[4] == '\u{FF1A}' && w[5] == '\u{3001}' && w[6] == '\u{FF0C}' && w[7] == '\u{FF09}'
        && w[8] == '\u{3011}' && w[9] == '\u{300B}' && w[10] == '\u{300D}' && w[11] == '\u{300F}');
}

/// What becomes of a character in a model's text: a wide form becomes the ASCII
/// character 0xFEE0 below it, but for the comma and the two marks that have
/// entries of their own; the wide space becomes a space; the seven ligatures
/// become `f`; and no other character changes.
pub proof fn characters_are_normalized(c: char)
    ensures
        ({
            let n = c as u32;
            let r = normal_char(c) as u32;
            &&& 0xFF01 <= n <= 0xFF5E && n != 0xFF0C && n != 0xFF01 && n != 0xFF1F ==> r + 0xFEE0
                == n
            &&& n == 0x3000 ==> r == 0x20
            &&& 0xFB00 <= n <= 0xFB06 ==> r == 0x66
            &&& !(0xFF02 <= n <= 0xFF5E) && n != 0x3000 && !(0xFB00 <= n <= 0xFB06) ==> r == n
            &&& n == 0xFF0C || n == 0xFF01 || n == 0xFF1F ==> r == n
        }),
{
}

// --- Parts ---

/// Parts do not depend on what is before them.
proof fn lemma_parts_shift(text: Seq<char>, start: nat, pos: nat, marks: Seq<char>)
    requires
        start <= pos <= text.len(),
    ensures
        parts_from(text, pos, marks) == parts_from(
            text.skip(start as int),
            (pos - start) as nat,
            marks,
        ),
    decreases text.len() - pos,
{
    let rest = text.skip(start as int);
    let p = (pos - start) as nat;
    lemma_ends_shift(text, start, pos, marks);
    lemma_ends(text, pos, marks);
    let mark = mark_from(text, pos, marks);
    assert(rest.skip(p as int) == text.skip(pos as int));
    if pos < text.len() && mark < text.len() {
        lemma_ends_shift(text, start, mark + 1, marks);
        lemma_ends(text, mark + 1, marks);
        let end = closing_end(text, mark + 1);
        lemma_ends_shift(text, start, end, marks);
        lemma_ends(text, end, marks);
        assert(text.subrange(pos as int, end as int) == rest.subrange(p as int, end - start));
        lemma_parts_shift(text, start, white_end(text, end), marks);
    }
}

proof fn lemma_ends_shift(text: Seq<char>, start: nat, pos: nat, marks: Seq<char>)
    requires
        start <= pos <= text.len(),
    ensures
        ({
            let rest = text.skip(start as int);
            let p = (pos - start) as nat;
            &&& mark_from(text, pos, marks) == mark_from(rest, p, marks) + start
            &&& closing_end(text, pos) == closing_end(rest, p) + start
            &&& white_end(text, pos) == white_end(rest, p) + start
        }),
    decreases text.len() - pos,
{
    if pos < text.len() {
        assert(text.skip(start as int)[pos - start] == text[pos as int]);
        lemma_ends_shift(text, start, pos + 1, marks);
    }
}

proof fn lemma_found_ends(text: Seq<char>, pos: nat, marks: Seq<char>, mark: nat, end: nat, next: nat)
    requires
        pos <= mark < end <= next <= text.len(),
        marks.contains(text[mark as int]),
        forall|i: int| pos <= i < mark ==> !marks.contains(#[trigger] text[i]),
        forall|i: int| mark < i < end ==> closes(#[trigger] text[i]),
        end < text.len() ==> !closes(text[end as int]),
        forall|i: int| end <= i < next ==> is_white(#[trigger] text[i]),
        next < text.len() ==> !is_white(text[next as int]),
    ensures
        mark_from(text, pos, marks) == mark,
        closing_end(text, mark + 1) == end,
        white_end(text, end) == next,
{
    lemma_mark_found(text, pos, marks, mark);
    lemma_closing_found(text, mark + 1, end);
    lemma_white_found(text, end, next);
}

proof fn lemma_mark_found(text: Seq<char>, pos: nat, marks: Seq<char>, mark: nat)
    requires
        pos <= mark < text.len(),
        marks.contains(text[mark as int]),
        forall|i: int| pos <= i < mark ==> !marks.contains(#[trigger] text[i]),
    ensures
        mark_from(text, pos, marks) == mark,
    decreases mark - pos,
{
    if pos < mark {
        assert(!marks.contains(text[pos as int]));
        lemma_mark_found(text, pos + 1, marks, mark);
    }
}

proof fn lemma_closing_found(text: Seq<char>, pos: nat, end: nat)
    requires
        pos <= end <= text.len(),
        forall|i: int| pos <= i < end ==> closes(#[trigger] text[i]),
        end < text.len() ==> !closes(text[end as int]),
    ensures
        closing_end(text, pos) == end,
    decreases end - pos,
{
    if pos < text.len() {
        marks_are_complete(text[pos as int]);
    }
    if pos < end {
        assert(closes(text[pos as int]));
        lemma_closing_found(text, pos + 1, end);
    }
}

proof fn lemma_white_found(text: Seq<char>, pos: nat, end: nat)
    requires
        pos <= end <= text.len(),
        forall|i: int| pos <= i < end ==> is_white(#[trigger] text[i]),
        end < text.len() ==> !is_white(text[end as int]),
    ensures
        white_end(text, pos) == end,
    decreases end - pos,
{
    if pos < end {
        assert(is_white(text[pos as int]));
        lemma_white_found(text, pos + 1, end);
    }
}

/// A text is split behind its first mark: the mark and the closing quotes and
/// brackets behind it, up to `end`, stay with what is before them, the whitespace
/// up to `next` is dropped, and what follows is split as a text of its own.
pub proof fn split_behind_first_mark(
    text: Seq<char>,
    marks: Seq<char>,
    mark: int,
    end: int,
    next: int,
)
    requires
        0 <= mark < end <= next <= text.len(),
        marks.contains(text[mark]),
        forall|i: int| 0 <= i < mark ==> !marks.contains(#[trigger] text[i]),
        forall|i: int| mark < i < end ==> closes(#[trigger] text[i]),
        end < text.len() ==> !closes(text[end]),
        forall|i: int| end <= i < next ==> is_white(#[trigger] text[i]),
        next < text.len() ==> !is_white(text[next]),
    ensures
        trimmed(text.take(end)).len() > 0 ==> parts(text, marks) == seq![trimmed(text.take(end))]
            + parts(text.skip(next), marks),
        trimmed(text.take(end)).len() == 0 ==> parts(text, marks) == parts(
            text.skip(next),
            marks,
        ),
{
    lemma_found_ends(text, 0, marks, mark as nat, end as nat, next as nat);
    lemma_parts_shift(text, next as nat, next as nat, marks);
    assert(text.subrange(0, end) == text.take(end));
    let rest = parts(text.skip(next), marks);
    assert(Seq::<Seq<char>>::empty() + rest == rest);
}

/// A text without marks is not split.
pub proof fn no_mark_no_split(text: Seq<char>, marks: Seq<char>)
    requires
        forall|i: int| 0 <= i < text.len() ==> !marks.contains(#[trigger] text[i]),
        trimmed(text).len() > 0,
    ensures
        parts(text, marks) == seq![trimmed(text)],
{
    lemma_no_mark(text, 0, marks);
    assert(text.skip(0) == text);
}

proof fn lemma_no_mark(text: Seq<char>, pos: nat, marks: Seq<char>)
    requires
        pos <= text.len(),
        forall|i: int| 0 <= i < text.len() ==> !marks.contains(#[trigger] text[i]),
    ensures
        mark_from(text, pos, marks) == text.len(),
    decreases text.len() - pos,
{
    if pos < text.len() {
        lemma_no_mark(text, pos + 1, marks);
    }
}

// --- Slices ---

/// A sentence within the budget is one slice. One over it is cut at its clauses,
/// if it has several, and else by the budget.
pub proof fn sentences_are_cut_if_too_long(
    m: ModelView,
    sentences: Seq<Seq<char>>,
    sentence: Seq<char>,
    max_tokens: nat,
)
    ensures
        ({
            let before = all_sentence_slices(m, sentences, max_tokens);
            let all = all_sentence_slices(m, sentences.push(sentence), max_tokens);
            let clauses = parts(sentence, clause_ends());
            &&& token_count(m, sentence) <= max_tokens ==> all == before.push(sentence)
            &&& token_count(m, sentence) > max_tokens && clauses.len() > 1 ==> all == before
                + all_clause_slices(m, clauses, max_tokens)
            &&& token_count(m, sentence) > max_tokens && clauses.len() <= 1 ==> all == before
                + budget_pieces(m, trimmed(sentence), max_tokens)
        }),
{
    let all = sentences.push(sentence);
    assert(all.drop_last() == sentences);
    let none = Seq::<Seq<char>>::empty();
    assert(seq![sentence].drop_last() == none);
    assert(all_clause_slices(m, none, max_tokens) == none);
    let pieces = budget_pieces(m, trimmed(sentence), max_tokens);
    assert(none + pieces == pieces);
    assert(all_sentence_slices(m, sentences, max_tokens) + seq![sentence] == all_sentence_slices(
        m,
        sentences,
        max_tokens,
    ).push(sentence));
}

/// A clause within the budget is one slice, and one over it is cut by the budget.
pub proof fn clauses_are_cut_if_too_long(
    m: ModelView,
    clauses: Seq<Seq<char>>,
    clause: Seq<char>,
    max_tokens: nat,
)
    ensures
        ({
            let before = all_clause_slices(m, clauses, max_tokens);
            all_clause_slices(m, clauses.push(clause), max_tokens) == if token_count(m, clause)
                <= max_tokens {
                before.push(clause)
            } else {
                before + budget_pieces(m, trimmed(clause), max_tokens)
            }
        }),
{
    let all = clauses.push(clause);
    assert(all.drop_last() == clauses);
    assert(all_clause_slices(m, clauses, max_tokens) + seq![clause] == all_clause_slices(
        m,
        clauses,
        max_tokens,
    ).push(clause));
}

// --- Chunks ---

/// One more slice goes into the last chunk as long as there is room for it, and
/// else into a chunk of its own. Two texts are put together with a space between
/// them, but for Chinese, Japanese and Korean.
pub proof fn chunks_fill_up(
    m: ModelView,
    slices: Seq<Seq<char>>,
    slice: Seq<char>,
    max_tokens: nat,
)
    requires
        slice.len() > 0,
        trimmed(slice) == slice,
        gathered(m, slices, max_tokens).current.len() > 0,
    ensures
        ({
            let g = gathered(m, slices, max_tokens);
            let chunks = gathered_chunks(gathered(m, slices.push(slice), max_tokens));
            let joint = if has_cjk(g.current) || has_cjk(slice) {
                g.current + slice
            } else {
                g.current + seq![' '] + slice
            };
            if token_count(m, g.current) + token_count(m, slice) <= max_tokens && token_count(
                m,
                joint,
            ) <= max_tokens {
                chunks == g.done.push(trimmed(joint))
            } else {
                chunks == g.done.push(trimmed(g.current)).push(slice)
            }
        }),
{
    let g = gathered(m, slices, max_tokens);
    let all = slices.push(slice);
    assert(all.drop_last() == slices);
    assert(all.last() == slice);
    assert(g.current.push(' ') + slice == g.current + seq![' '] + slice);
}

/// Two sentences that are each within the budget make up one chunk, if there is
/// room for both, and else two.
pub proof fn two_sentences_share_a_chunk_if_they_can(
    m: ModelView,
    ready: Seq<char>,
    a: Seq<char>,
    b: Seq<char>,
    max_tokens: nat,
)
    requires
        parts(ready, sentence_ends()) == seq![a, b],
        a.len() > 0 && trimmed(a) == a,
        b.len() > 0 && trimmed(b) == b,
        token_count(m, a) <= max_tokens,
        token_count(m, b) <= max_tokens,
    ensures
        ({
            let joint = if has_cjk(a) || has_cjk(b) {
                a + b
            } else {
                a + seq![' '] + b
            };
            sentence_chunks(m, ready, max_tokens) == if token_count(m, a) + token_count(m, b)
                <= max_tokens && token_count(m, joint) <= max_tokens {
                seq![trimmed(joint)]
            } else {
                seq![a, b]
            }
        }),
{
    let none = Seq::<Seq<char>>::empty();
    assert(none.push(a) == seq![a]);
    assert(none.push(a).push(b) == seq![a, b]);
    sentences_are_cut_if_too_long(m, none, a, max_tokens);
    sentences_are_cut_if_too_long(m, none.push(a), b, max_tokens);
    assert(all_sentence_slices(m, none, max_tokens) == none);
    let slices = slices_of(m, ready, max_tokens);
    assert(slices == none.push(a).push(b));
    let first = none.push(a);
    assert(first.drop_last() == none);
    assert(gathered(m, none, max_tokens).current.len() == 0);
    assert(gathered(m, first, max_tokens).current == a);
    assert(gathered(m, first, max_tokens).done == none);
    chunks_fill_up(m, first, b, max_tokens);
}

/// How a text is cut: into the chunks that its sentences make up, if these are
/// several and within the budget. A text that is within the budget and makes up
/// one chunk stays whole. What is left is cut by the budget alone, if that works.
pub proof fn sentences_come_first(m: ModelView, text: Seq<char>, max_tokens: nat)
    requires
        max_tokens > 0,
        trimmed(text).len() > 0,
    ensures
        ({
            let t = trimmed(text);
            let by_sentence = sentence_chunks(m, prepared(t), max_tokens);
            let by_budget = budget_pieces(m, t, max_tokens);
            let chunks = chunks_of(m, text, max_tokens);
            &&& by_sentence.len() > 1 && all_fit(m, by_sentence, max_tokens) ==> chunks
                == by_sentence
            &&& by_sentence.len() <= 1 && token_count(m, t) <= max_tokens ==> chunks == seq![t]
            &&& by_sentence.len() <= 1 && token_count(m, t) > max_tokens && all_fit(
                m,
                by_budget,
                max_tokens,
            ) ==> chunks == by_budget
            &&& by_sentence.len() > 1 && !all_fit(m, by_sentence, max_tokens) && all_fit(
                m,
                by_budget,
                max_tokens,
            ) ==> chunks == by_budget
            &&& by_sentence.len() > 1 && !all_fit(m, by_budget, max_tokens) ==> chunks
                == by_sentence
        }),
{
}

/// A budget of nothing is one of a single token.
pub proof fn some_budget_is_there(m: ModelView, text: Seq<char>)
    ensures
        chunks_of(m, text, 0) == chunks_of(m, text, 1),
{
}

} // verus!
