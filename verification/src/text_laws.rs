//! How texts are made ready, word by word.

use crate::sp_model::{
    after_space, is_blank, normal_char, normal_text, normal_text_to, NormalizerSpec,
};
use crate::tokenizer::{has_cjk, prepared_with, tts_text};
use crate::whitespace::{flattened, is_white, trimmed, trimmed_back, trimmed_front, words};
use vstd::prelude::*;

verus! {

// --- Words ---

/// Whether a text is whitespace all through.
pub open spec fn is_all_white(s: Seq<char>) -> bool {
    forall|i: int| 0 <= i < s.len() ==> is_white(#[trigger] s[i])
}

/// Whether a text holds no whitespace.
pub open spec fn has_no_white(s: Seq<char>) -> bool {
    forall|i: int| 0 <= i < s.len() ==> !is_white(#[trigger] s[i])
}

/// Whitespace is no word.
pub proof fn whitespace_has_no_words(s: Seq<char>)
    requires
        is_all_white(s),
    ensures
        words(s) == 0,
    decreases s.len(),
{
    if s.len() > 0 {
        assert(is_white(s[s.len() - 1]));
        whitespace_has_no_words(s.drop_last());
    }
}

/// What holds no whitespace is one word.
pub proof fn a_word_is_one(s: Seq<char>)
    requires
        s.len() > 0,
        has_no_white(s),
    ensures
        words(s) == 1,
    decreases s.len(),
{
    assert(!is_white(s[s.len() - 1]));
    if s.len() > 1 {
        assert(!is_white(s[s.len() - 2]));
        a_word_is_one(s.drop_last());
    } else {
        assert(words(s.drop_last()) == 0);
    }
}

/// Whitespace between two texts keeps their words apart.
pub proof fn words_add_up(a: Seq<char>, w: char, b: Seq<char>)
    requires
        is_white(w),
    ensures
        words(a.push(w) + b) == words(a) + words(b),
    decreases b.len(),
{
    let s = a.push(w) + b;
    if b.len() == 0 {
        assert(s == a.push(w));
        assert(s.drop_last() == a);
    } else {
        words_add_up(a, w, b.drop_last());
        assert(s.drop_last() == a.push(w) + b.drop_last());
        assert(s.last() == b.last());
        if b.len() > 1 {
            assert(s[s.len() - 2] == b[b.len() - 2]);
        } else {
            assert(s[s.len() - 2] == w);
        }
    }
}

// --- Normalization ---

/// The settings of a model that says nothing else.
pub open spec fn usual() -> NormalizerSpec {
    NormalizerSpec {
        add_dummy_prefix: true,
        remove_extra_whitespaces: true,
        escape_whitespaces: true,
    }
}

/// Whether a character is read as a blank.
pub open spec fn reads_blank(c: char) -> bool {
    c == ' ' || c == '\t' || c == '\n' || c == '\r' || c == '\u{3000}'
}

proof fn lemma_reads_blank(c: char)
    ensures
        is_blank(normal_char(c)) == reads_blank(c),
{
}

proof fn lemma_normal_prefix(n: NormalizerSpec, a: Seq<char>, b: Seq<char>, i: nat)
    requires
        i <= a.len(),
    ensures
        normal_text_to(n, a + b, i) == normal_text_to(n, a, i),
    decreases i,
{
    if i > 0 {
        lemma_normal_prefix(n, a, b, (i - 1) as nat);
        assert((a + b)[i - 1] == a[i - 1]);
        if i > 1 {
            assert((a + b)[i - 2] == a[i - 2]);
        }
    }
}

/// Behind blanks a text is normalized as by itself, without the mark in front.
proof fn lemma_normal_behind(n: NormalizerSpec, a: Seq<char>, b: Seq<char>, i: nat)
    requires
        n.add_dummy_prefix,
        a.len() > 0,
        reads_blank(a.last()),
        i <= b.len(),
    ensures
        seq!['\u{2581}'] + normal_text_to(n, a + b, a.len() + i) == seq!['\u{2581}']
            + normal_text(n, a) + normal_text_to(n, b, i).drop_first(),
        normal_text_to(n, b, i).len() > 0,
        normal_text_to(n, b, i)[0] == '\u{2581}',
    decreases i,
{
    let whole = a + b;
    if i == 0 {
        lemma_normal_prefix(n, a, b, a.len());
        assert(seq!['\u{2581}'].drop_first() == Seq::<char>::empty());
        let x = seq!['\u{2581}'] + normal_text(n, a);
        assert(x + Seq::<char>::empty() == x);
    } else {
        lemma_normal_behind(n, a, b, (i - 1) as nat);
        let k = a.len() + i;
        assert(whole[k - 1] == b[i - 1]);
        lemma_reads_blank(a.last());
        if i > 1 {
            assert(whole[k - 2] == b[i - 2]);
        } else {
            assert(whole[k - 2] == a.last());
        }
        assert(after_space(n, whole, k - 1) == after_space(n, b, i - 1));
        let before = normal_text_to(n, b, (i - 1) as nat);
        let more = crate::sp_model::contribution(n, after_space(n, b, i - 1), b[i - 1]);
        assert((before + more).drop_first() == before.drop_first() + more);
        assert(normal_text_to(n, whole, k) == normal_text_to(n, whole, (k - 1) as nat) + more);
        let x = seq!['\u{2581}'] + normal_text(n, a);
        assert(x + before.drop_first() + more == x + (before.drop_first() + more));
        assert(seq!['\u{2581}'] + (normal_text_to(n, whole, (k - 1) as nat) + more) == seq![
            '\u{2581}',
        ] + normal_text_to(n, whole, (k - 1) as nat) + more);
    }
}

/// Blanks behind a text become one mark, however many there are.
proof fn lemma_normal_blanks(a: Seq<char>, blanks: Seq<char>)
    requires
        a.len() > 0,
        !reads_blank(a.last()),
        blanks.len() > 0,
        forall|i: int| 0 <= i < blanks.len() ==> reads_blank(#[trigger] blanks[i]),
    ensures
        normal_text(usual(), a + blanks) == normal_text(usual(), a).push('\u{2581}'),
    decreases blanks.len(),
{
    let n = usual();
    let s = a + blanks;
    let front = blanks.drop_last();
    let before = a + front;
    assert(s == before + seq![blanks.last()]);
    lemma_normal_prefix(n, before, seq![blanks.last()], before.len());
    lemma_reads_blank(blanks[blanks.len() - 1]);
    assert(s[s.len() - 1] == blanks[blanks.len() - 1]);
    if front.len() > 0 {
        assert forall|i: int| 0 <= i < front.len() implies reads_blank(#[trigger] front[i]) by {
            assert(front[i] == blanks[i]);
        }
        lemma_normal_blanks(a, front);
        assert(s[s.len() - 2] == blanks[blanks.len() - 2]);
        lemma_reads_blank(blanks[blanks.len() - 2]);
        let x = normal_text(n, before);
        assert(x + Seq::<char>::empty() == x);
    } else {
        assert(before == a);
        assert(s[s.len() - 2] == a.last());
        lemma_reads_blank(a.last());
        assert(normal_text(n, a) + seq!['\u{2581}'] == normal_text(n, a).push('\u{2581}'));
    }
}

/// With the usual settings, words are normalized one by one: with blanks between
/// two texts, however many, the two are normalized each by itself and put one
/// behind the other.
pub proof fn words_are_normalized_apart(a: Seq<char>, blanks: Seq<char>, b: Seq<char>)
    requires
        a.len() > 0,
        !reads_blank(a.last()),
        blanks.len() > 0,
        forall|i: int| 0 <= i < blanks.len() ==> reads_blank(#[trigger] blanks[i]),
    ensures
        normal_text(usual(), a + blanks + b) == normal_text(usual(), a) + normal_text(usual(), b),
{
    let n = usual();
    let c = a + blanks;
    assert(c.last() == blanks[blanks.len() - 1]);
    lemma_normal_blanks(a, blanks);
    lemma_normal_behind(n, c, b, b.len());
    let mark = seq!['\u{2581}'];
    let whole = normal_text(n, c + b);
    let last = normal_text(n, b);
    let first = normal_text(n, a);
    assert(c.len() + b.len() == (c + b).len());
    assert(mark + whole == mark + first.push('\u{2581}') + last.drop_first());
    assert(first.push('\u{2581}') + last.drop_first() == first + last);
    assert((mark + whole).skip(1) == whole);
    assert((mark + first.push('\u{2581}') + last.drop_first()).skip(1) == first.push('\u{2581}')
        + last.drop_first());
}

/// With the usual settings, blanks before a text are dropped.
pub proof fn leading_blanks_are_dropped(blanks: Seq<char>, b: Seq<char>)
    requires
        forall|i: int| 0 <= i < blanks.len() ==> reads_blank(#[trigger] blanks[i]),
    ensures
        normal_text(usual(), blanks + b) == normal_text(usual(), b),
    decreases blanks.len(),
{
    let n = usual();
    if blanks.len() == 0 {
        assert(blanks + b == b);
    } else {
        lemma_only_blanks(blanks);
        assert(reads_blank(blanks[blanks.len() - 1]));
        lemma_normal_behind(n, blanks, b, b.len());
        let mark = seq!['\u{2581}'];
        let whole = normal_text(n, blanks + b);
        let last = normal_text(n, b);
        assert(blanks.len() + b.len() == (blanks + b).len());
        assert(mark + whole == mark + mark + last.drop_first());
        assert(mark + last.drop_first() == last);
        assert(mark + mark + last.drop_first() == mark + (mark + last.drop_first()));
        assert((mark + whole).skip(1) == whole);
        assert((mark + last).skip(1) == last);
    }
}

proof fn lemma_only_blanks(blanks: Seq<char>)
    requires
        forall|i: int| 0 <= i < blanks.len() ==> reads_blank(#[trigger] blanks[i]),
    ensures
        normal_text(usual(), blanks) == seq!['\u{2581}'],
    decreases blanks.len(),
{
    let n = usual();
    if blanks.len() > 0 {
        let front = blanks.drop_last();
        assert forall|i: int| 0 <= i < front.len() implies reads_blank(#[trigger] front[i]) by {
            assert(front[i] == blanks[i]);
        }
        lemma_only_blanks(front);
        assert(blanks == front + seq![blanks.last()]);
        lemma_normal_prefix(n, front, seq![blanks.last()], front.len());
        lemma_reads_blank(blanks[blanks.len() - 1]);
        if front.len() > 0 {
            lemma_reads_blank(blanks[blanks.len() - 2]);
        }
        assert(seq!['\u{2581}'] + Seq::<char>::empty() == seq!['\u{2581}']);
    }
}

/// A text without blanks is normalized character by character, whatever the
/// settings. The mark for a space comes before it if the settings say so.
pub proof fn a_word_is_normalized_by_character(n: NormalizerSpec, s: Seq<char>)
    requires
        forall|i: int| 0 <= i < s.len() ==> !reads_blank(#[trigger] s[i]),
    ensures
        normal_text(n, s) == (if n.add_dummy_prefix {
            seq!['\u{2581}']
        } else {
            Seq::empty()
        }) + s.map_values(|c: char| normal_char(c)),
{
    lemma_word(n, s, s.len());
    assert(s.take(s.len() as int) == s);
}

proof fn lemma_word(n: NormalizerSpec, s: Seq<char>, i: nat)
    requires
        i <= s.len(),
        forall|i: int| 0 <= i < s.len() ==> !reads_blank(#[trigger] s[i]),
    ensures
        normal_text_to(n, s, i) == (if n.add_dummy_prefix {
            seq!['\u{2581}']
        } else {
            Seq::empty()
        }) + s.take(i as int).map_values(|c: char| normal_char(c)),
    decreases i,
{
    let start = if n.add_dummy_prefix {
        seq!['\u{2581}']
    } else {
        Seq::empty()
    };
    let f = |c: char| normal_char(c);
    if i == 0 {
        assert(s.take(0).map_values(f) == Seq::<char>::empty());
        assert(start + Seq::<char>::empty() == start);
    } else {
        lemma_word(n, s, (i - 1) as nat);
        assert(!reads_blank(s[i - 1]));
        lemma_reads_blank(s[i - 1]);
        assert(s.take(i as int).map_values(f) == s.take(i - 1).map_values(f).push(
            normal_char(s[i - 1]),
        ));
        let x = s.take(i - 1).map_values(f);
        assert(start + x + seq![normal_char(s[i - 1])] == start + x.push(normal_char(s[i - 1])));
    }
}

/// Without a mark in front, a text that begins with no blank is normalized as it
/// is with one, less the mark.
pub proof fn prefix_is_one_mark(with: NormalizerSpec, without: NormalizerSpec, s: Seq<char>)
    requires
        with.add_dummy_prefix && !without.add_dummy_prefix,
        with.remove_extra_whitespaces == without.remove_extra_whitespaces,
        with.escape_whitespaces == without.escape_whitespaces,
        s.len() > 0 ==> !reads_blank(s[0]),
    ensures
        normal_text(with, s) == seq!['\u{2581}'] + normal_text(without, s),
{
    lemma_prefix(with, without, s, s.len());
}

proof fn lemma_prefix(with: NormalizerSpec, without: NormalizerSpec, s: Seq<char>, i: nat)
    requires
        i <= s.len(),
        with.add_dummy_prefix && !without.add_dummy_prefix,
        with.remove_extra_whitespaces == without.remove_extra_whitespaces,
        with.escape_whitespaces == without.escape_whitespaces,
        s.len() > 0 ==> !reads_blank(s[0]),
    ensures
        normal_text_to(with, s, i) == seq!['\u{2581}'] + normal_text_to(without, s, i),
    decreases i,
{
    let mark = seq!['\u{2581}'];
    if i == 0 {
        assert(mark + Seq::<char>::empty() == mark);
    } else {
        lemma_prefix(with, without, s, (i - 1) as nat);
        lemma_reads_blank(s[0]);
        let more = crate::sp_model::contribution(with, after_space(with, s, i - 1), s[i - 1]);
        let x = normal_text_to(without, s, (i - 1) as nat);
        assert(mark + x + more == mark + (x + more));
    }
}

// --- Plain texts ---

/// Whether a text is plain: it has no whitespace around it, no line breaks, no
/// tabs and no two spaces in a row.
pub open spec fn is_plain(s: Seq<char>) -> bool {
    &&& s.len() > 0
    &&& !is_white(s[0])
    &&& !is_white(s.last())
    &&& forall|i: int|
        0 <= i < s.len() ==> #[trigger] s[i] != '\r' && s[i] != '\n' && s[i] != '\t'
    &&& forall|i: int| 0 <= i < s.len() - 1 ==> !(#[trigger] s[i] == ' ' && s[i + 1] == ' ')
}

proof fn lemma_plain_is_trimmed(s: Seq<char>)
    requires
        s.len() > 0,
        !is_white(s[0]),
        !is_white(s.last()),
    ensures
        trimmed(s) == s,
{
    assert(trimmed_front(s) == s);
    assert(trimmed_back(s) == s);
}

proof fn lemma_plain_is_flat(s: Seq<char>, blanks: Seq<char>)
    requires
        forall|i: int| 0 <= i < s.len() ==> !blanks.contains(#[trigger] s[i]),
        forall|i: int| 0 <= i < s.len() - 1 ==> !(#[trigger] s[i] == ' ' && s[i + 1] == ' '),
    ensures
        flattened(s, blanks) == s,
    decreases s.len(),
{
    if s.len() > 0 {
        let front = s.drop_last();
        assert forall|i: int| 0 <= i < front.len() implies !blanks.contains(
            #[trigger] front[i],
        ) by {
            assert(front[i] == s[i]);
        }
        assert forall|i: int| 0 <= i < front.len() - 1 implies !(#[trigger] front[i] == ' '
            && front[i + 1] == ' ') by {
            assert(front[i] == s[i] && front[i + 1] == s[i + 1]);
        }
        lemma_plain_is_flat(front, blanks);
        assert(!blanks.contains(s[s.len() - 1]));
        if front.len() > 0 {
            assert(front.last() == s[s.len() - 2]);
            assert(!(s[s.len() - 2] == ' ' && s[s.len() - 2 + 1] == ' '));
        }
        assert(front.push(s.last()) == s);
    }
}

/// A plain text is ready for synthesis as it stands, if it ends with a mark, and
/// else with a full stop behind it, which is a wide one behind Chinese, Japanese
/// and Korean.
pub proof fn plain_text_gets_a_full_stop(s: Seq<char>)
    requires
        is_plain(s),
    ensures
        ({
            let n = s.last() as u32;
            let ended = {
                ||| 0x21 <= n <= 0x7E && !(0x30 <= n <= 0x39) && !(0x41 <= n <= 0x5A) && !(0x61
                    <= n <= 0x7A)
                ||| n == 0x3001 || n == 0x3002 || n == 0x300B || n == 0x300D || n == 0x300F || n
                    == 0x3011
                ||| n == 0xFF01 || n == 0xFF09 || n == 0xFF0C || n == 0xFF1A || n == 0xFF1B || n
                    == 0xFF1F
            };
            tts_text(s) == if ended {
                s
            } else if has_cjk(s) {
                s.push('\u{3002}')
            } else {
                s.push('.')
            }
        }),
{
    let blanks = seq!['\r', '\n', '\t'];
    lemma_plain_is_trimmed(s);
    assert forall|i: int| 0 <= i < s.len() implies !blanks.contains(#[trigger] s[i]) by {
        assert(s[i] != '\r' && s[i] != '\n' && s[i] != '\t');
    }
    lemma_plain_is_flat(s, blanks);
    crate::split_laws::terminals_are_complete(s.last());
}

/// A plain text in an alphabet is got ready for cutting by a capital in front, a
/// full stop behind it if it ends in a letter or a digit, and, if it then has
/// fewer than five words, eight spaces before it.
pub proof fn plain_text_is_prepared(s: Seq<char>, ends_in_word: bool)
    requires
        is_plain(s),
        !has_cjk(s),
    ensures
        ({
            let r = prepared_with(s, ends_in_word);
            let all = if ends_in_word {
                s.push('.')
            } else {
                s
            };
            let pad: int = if words(all) < 5 {
                8
            } else {
                0
            };
            &&& r.len() == pad + all.len()
            &&& forall|i: int| 0 <= i < pad ==> #[trigger] r[i] == ' '
            &&& forall|i: int| pad < i < r.len() ==> #[trigger] r[i] == all[i - pad]
            &&& 'a' <= s[0] <= 'z' ==> r[pad] as int == s[0] as int - 32
            &&& !('a' <= s[0] <= 'z') ==> r[pad] == s[0]
        }),
{
    let blanks = seq!['\r', '\n'];
    lemma_plain_is_trimmed(s);
    assert forall|i: int| 0 <= i < s.len() implies !blanks.contains(#[trigger] s[i]) by {
        assert(s[i] != '\r' && s[i] != '\n');
    }
    lemma_plain_is_flat(s, blanks);
    let c = crate::tokenizer::capitalized(s);
    let all = if ends_in_word {
        s.push('.')
    } else {
        s
    };
    let now = if ends_in_word {
        c.push('.')
    } else {
        c
    };
    assert(now.len() == all.len());
    assert forall|i: int| 0 <= i < all.len() implies is_white(#[trigger] all[i]) == is_white(
        now[i],
    ) by {}
    lemma_same_words(all, now);
}

/// Words are told by whitespace alone.
proof fn lemma_same_words(a: Seq<char>, b: Seq<char>)
    requires
        a.len() == b.len(),
        forall|i: int| 0 <= i < a.len() ==> is_white(#[trigger] a[i]) == is_white(b[i]),
    ensures
        words(a) == words(b),
    decreases a.len(),
{
    if a.len() > 0 {
        let x = a.drop_last();
        let y = b.drop_last();
        assert forall|i: int| 0 <= i < x.len() implies is_white(#[trigger] x[i]) == is_white(
            y[i],
        ) by {
            assert(x[i] == a[i]);
        }
        lemma_same_words(x, y);
        assert(is_white(a[a.len() - 1]) == is_white(b[a.len() - 1]));
        if a.len() > 1 {
            assert(is_white(a[a.len() - 2]) == is_white(b[a.len() - 2]));
        }
    }
}

// --- Line breaks ---

/// Whether the characters are spaces, or to be made spaces.
pub open spec fn are_gaps(gaps: Seq<char>, blanks: Seq<char>) -> bool {
    forall|i: int| 0 <= i < gaps.len() ==> #[trigger] gaps[i] == ' ' || blanks.contains(gaps[i])
}

/// Line breaks and spaces between two texts, however many, become one space.
pub proof fn breaks_become_spaces(
    a: Seq<char>,
    gaps: Seq<char>,
    b: Seq<char>,
    blanks: Seq<char>,
)
    requires
        a.len() > 0,
        a.last() != ' ' && !blanks.contains(a.last()),
        gaps.len() > 0,
        are_gaps(gaps, blanks),
        b.len() > 0,
        b[0] != ' ' && !blanks.contains(b[0]),
    ensures
        flattened(a + gaps + b, blanks) == flattened(a, blanks).push(' ') + flattened(b, blanks),
    decreases b.len(),
{
    let s = a + gaps + b;
    assert(s.drop_last() == a + gaps + b.drop_last());
    assert(s.last() == b.last());
    let head = flattened(a, blanks).push(' ');
    if b.len() == 1 {
        assert(b.drop_last() == Seq::<char>::empty());
        assert(flattened(b.drop_last(), blanks) == Seq::<char>::empty());
        assert(a + gaps + b.drop_last() == a + gaps);
        lemma_gaps(a, gaps, blanks);
        assert(Seq::<char>::empty().push(b.last()) == seq![b.last()]);
        assert(head.push(b.last()) == head + seq![b.last()]);
    } else {
        let front = b.drop_last();
        breaks_become_spaces(a, gaps, front, blanks);
        let tail = flattened(front, blanks);
        crate::tokenizer::lemma_flattened_begins(front, blanks);
        assert((head + tail).last() == tail.last());
        let c = if blanks.contains(b.last()) {
            ' '
        } else {
            b.last()
        };
        assert((head + tail).push(c) == head + tail.push(c));
    }
}

proof fn lemma_gaps(a: Seq<char>, gaps: Seq<char>, blanks: Seq<char>)
    requires
        a.len() > 0,
        a.last() != ' ' && !blanks.contains(a.last()),
        gaps.len() > 0,
        are_gaps(gaps, blanks),
    ensures
        flattened(a + gaps, blanks) == flattened(a, blanks).push(' '),
    decreases gaps.len(),
{
    let s = a + gaps;
    let front = gaps.drop_last();
    assert(s.drop_last() == a + front);
    assert(s.last() == gaps[gaps.len() - 1]);
    if front.len() == 0 {
        assert(a + front == a);
        assert(flattened(a, blanks).last() == a.last());
    } else {
        assert forall|i: int| 0 <= i < front.len() implies #[trigger] front[i] == ' '
            || blanks.contains(front[i]) by {
            assert(front[i] == gaps[i]);
        }
        lemma_gaps(a, front, blanks);
    }
}

} // verus!
