//! The tokenizer, and how texts are made ready for it.

use crate::encoding::tokens_of;
use crate::error::TtsError;
use crate::sp_model::{model_of, ModelView, SentencePieceModel};
use crate::text::{chars_of, string_of};
use crate::token::{token_views, Token};
use crate::whitespace::{
    count_words, flatten, flattened, flattening, holds, is_white, trim, trimmed, trimming, words,
};
use crate::wire::reports;
use vstd::prelude::*;

verus! {

/// Characters that end a sentence.
pub open spec fn sentence_ends() -> Seq<char> {
    seq!['.', '!', '?', '\u{3002}', '\u{FF01}', '\u{FF1F}', '\u{FF1B}', ';']
}

pub(crate) fn sentence_end_punctuation() -> (r: [char; 8])
    ensures
        r@ == sentence_ends(),
{
    let r = ['.', '!', '?', '\u{3002}', '\u{FF01}', '\u{FF1F}', '\u{FF1B}', ';'];
    proof {
        assert(r@ == sentence_ends());
    }
    r
}

/// What a normalized text may end with, besides ASCII punctuation.
pub open spec fn wide_terminals() -> Seq<char> {
    seq![
        '\u{3002}',
        '\u{FF01}',
        '\u{FF1F}',
        '\u{FF1B}',
        '\u{FF1A}',
        '\u{3001}',
        '\u{FF0C}',
        '\u{FF09}',
        '\u{3011}',
        '\u{300B}',
        '\u{300D}',
        '\u{300F}',
    ]
}

pub open spec fn is_ascii_mark(c: char) -> bool {
    ||| '!' <= c <= '/'
    ||| ':' <= c <= '@'
    ||| '[' <= c <= '`'
    ||| '{' <= c <= '~'
}

/// Whether a normalized text may end with a character.
pub open spec fn is_terminal(c: char) -> bool {
    is_ascii_mark(c) || wide_terminals().contains(c)
}

fn terminal(c: char) -> (r: bool)
    ensures
        r == is_terminal(c),
{
    let wide = [
        '\u{3002}',
        '\u{FF01}',
        '\u{FF1F}',
        '\u{FF1B}',
        '\u{FF1A}',
        '\u{3001}',
        '\u{FF0C}',
        '\u{FF09}',
        '\u{3011}',
        '\u{300B}',
        '\u{300D}',
        '\u{300F}',
    ];
    proof {
        assert(wide@ == wide_terminals());
    }
    ('!' <= c && c <= '/') || (':' <= c && c <= '@') || ('[' <= c && c <= '`') || ('{' <= c && c
        <= '~') || holds(&wide, c)
}

/// Whether a character is Chinese, Japanese or Korean.
pub open spec fn is_cjk(c: char) -> bool {
    ||| '\u{4e00}' <= c <= '\u{9fff}'
    ||| '\u{3400}' <= c <= '\u{4dbf}'
    ||| '\u{3040}' <= c <= '\u{30ff}'
    ||| '\u{ac00}' <= c <= '\u{d7af}'
}

/// Whether a text holds Chinese, Japanese or Korean characters.
pub open spec fn has_cjk(s: Seq<char>) -> bool {
    exists|i: int| 0 <= i < s.len() && is_cjk(#[trigger] s[i])
}

pub(crate) fn any_cjk(v: &Vec<char>) -> (r: bool)
    ensures
        r == has_cjk(v@),
{
    let mut i: usize = 0;
    while i < v.len()
        invariant
            i <= v@.len(),
            forall|j: int| 0 <= j < i ==> !is_cjk(#[trigger] v@[j]),
        decreases v.len() - i,
    {
        let c = v[i];
        if ('\u{4e00}' <= c && c <= '\u{9fff}') || ('\u{3400}' <= c && c <= '\u{4dbf}') || (
        '\u{3040}' <= c && c <= '\u{30ff}') || ('\u{ac00}' <= c && c <= '\u{d7af}') {
            proof {
                assert(is_cjk(v@[i as int]));
            }
            return true;
        }
        i = i + 1;
    }
    false
}

/// A text ready for synthesis: on one line, with single spaces, and with
/// punctuation at its end.
pub open spec fn tts_text(text: Seq<char>) -> Seq<char> {
    let s = trimmed(flattened(trimmed(text), seq!['\r', '\n', '\t']));
    if s.len() == 0 || is_terminal(s.last()) {
        s
    } else if has_cjk(s) {
        s.push('\u{3002}')
    } else {
        s.push('.')
    }
}

/// Whether a character is a letter or a digit, as `char::is_alphanumeric` of
/// the standard library has it.
pub uninterp spec fn alphanumeric(c: char) -> bool;

/// `char::is_alphanumeric` of the standard library: the character is a letter
/// or a number by its Unicode properties; among ASCII characters these are the
/// letters and the decimal digits.
#[verifier::external_body]
fn is_alphanumeric(c: char) -> (r: bool)
    ensures
        r == alphanumeric(c),
        c <= '\u{7F}' ==> r == is_ascii_word(c),
{
    c.is_alphanumeric()
}

/// A text with its first letter made a capital.
pub open spec fn capitalized(s: Seq<char>) -> Seq<char> {
    if s.len() > 0 && 'a' <= s[0] <= 'z' {
        s.update(0, ((s[0] as u8) - 32) as u8 as char)
    } else {
        s
    }
}

/// The spaces before a short text.
pub open spec fn padding() -> Seq<char> {
    seq![' ', ' ', ' ', ' ', ' ', ' ', ' ', ' ']
}

/// A text on one line, with single spaces and a capital to begin with.
pub open spec fn lined_up(text: Seq<char>) -> Seq<char> {
    let s = flattened(trimmed(text), seq!['\r', '\n']);
    if has_cjk(s) {
        s
    } else {
        capitalized(s)
    }
}

/// A text ready to be cut into sentences, given whether it ends in a letter or
/// a digit.
pub open spec fn prepared_with(text: Seq<char>, ends_in_word: bool) -> Seq<char> {
    let s = lined_up(text);
    if s.len() == 0 {
        s
    } else if has_cjk(flattened(trimmed(text), seq!['\r', '\n'])) {
        if sentence_ends().contains(s.last()) {
            s
        } else {
            s.push('\u{3002}')
        }
    } else {
        let ended = if ends_in_word {
            s.push('.')
        } else {
            s
        };
        if words(ended) < 5 {
            padding() + ended
        } else {
            ended
        }
    }
}

/// A text ready to be cut into sentences.
pub open spec fn prepared(text: Seq<char>) -> Seq<char> {
    prepared_with(text, alphanumeric(lined_up(text).last()))
}

/// The ASCII letters and digits.
pub open spec fn is_ascii_word(c: char) -> bool {
    '0' <= c <= '9' || 'A' <= c <= 'Z' || 'a' <= c <= 'z'
}

/// Two parts of a text as one, with a space between them unless one is Chinese,
/// Japanese or Korean.
pub open spec fn joined_parts(left: Seq<char>, right: Seq<char>) -> Seq<char> {
    if left.len() == 0 {
        right
    } else if right.len() == 0 {
        left
    } else if has_cjk(left) || has_cjk(right) {
        left + right
    } else {
        left.push(' ') + right
    }
}

/// The IDs of a text's tokens.
pub open spec fn ids_of(m: ModelView, text: Seq<char>) -> Seq<i32> {
    tokens_of(m, text).map_values(|t: crate::token::TokenView| t.id)
}

/// The number of a text's tokens.
pub open spec fn token_count(m: ModelView, text: Seq<char>) -> nat {
    tokens_of(m, text).len()
}

/// A flattened text begins as the text does.
pub(crate) proof fn lemma_flattened_begins(s: Seq<char>, blanks: Seq<char>)
    requires
        s.len() > 0,
        !blanks.contains(s[0]),
        s[0] != ' ',
    ensures
        flattened(s, blanks).len() > 0,
        flattened(s, blanks)[0] == s[0],
    decreases s.len(),
{
    if s.len() > 1 {
        lemma_flattened_begins(s.drop_last(), blanks);
    } else {
        assert(flattened(s.drop_last(), blanks) == Seq::<char>::empty());
    }
}

proof fn lemma_flat_stays(s: Seq<char>, blanks: Seq<char>)
    requires
        forall|i: int| 0 <= i < s.len() - 1 ==> !(#[trigger] s[i] == ' ' && s[i + 1] == ' '),
        forall|i: int| 0 <= i < s.len() ==> #[trigger] s[i] == ' ' || !blanks.contains(s[i]),
    ensures
        flattened(s, blanks) == s,
    decreases s.len(),
{
    if s.len() > 0 {
        let front = s.drop_last();
        assert forall|i: int| 0 <= i < front.len() - 1 implies !(#[trigger] front[i] == ' '
            && front[i + 1] == ' ') by {
            assert(front[i] == s[i] && front[i + 1] == s[i + 1]);
        }
        assert forall|i: int| 0 <= i < front.len() implies #[trigger] front[i] == ' '
            || !blanks.contains(front[i]) by {
            assert(front[i] == s[i]);
        }
        lemma_flat_stays(front, blanks);
        assert(front.push(s.last()) == s);
        if front.len() > 0 {
            assert(front.last() == s[s.len() - 2]);
            assert(!(s[s.len() - 2] == ' ' && s[s.len() - 2 + 1] == ' '));
        }
        assert(s[s.len() - 1] == ' ' || !blanks.contains(s[s.len() - 1]));
    }
}

/// What a text is like before punctuation is added: trimmed and flat.
proof fn lemma_before_punctuation(text: Seq<char>)
    ensures
        ({
            let blanks = seq!['\r', '\n', '\t'];
            let s = trimmed(flattened(trimmed(text), blanks));
            &&& trimmed(text).len() > 0 ==> s.len() > 0
            &&& s.len() > 0 ==> !is_white(s[0]) && !is_white(s.last())
            &&& forall|i: int|
                0 <= i < s.len() - 1 ==> !(#[trigger] s[i] == ' ' && s[i + 1] == ' ')
            &&& forall|i: int| 0 <= i < s.len() ==> #[trigger] s[i] == ' ' || !blanks.contains(s[i])
        }),
{
    let blanks = seq!['\r', '\n', '\t'];
    let t = trimmed(text);
    let f = flattened(t, blanks);
    let s = trimmed(f);
    trimming(text);
    trimming(f);
    flattening(t, blanks);
    if t.len() > 0 {
        lemma_flattened_begins(t, blanks);
    }
    crate::whitespace::lemma_trimmed_front(f);
    crate::whitespace::lemma_trimmed_back(crate::whitespace::trimmed_front(f));
    let k = f.len() - crate::whitespace::trimmed_front(f).len();
    assert forall|i: int| 0 <= i < s.len() implies #[trigger] s[i] == f[i + k] by {}
    assert forall|i: int| 0 <= i < s.len() - 1 implies !(#[trigger] s[i] == ' ' && s[i + 1]
        == ' ') by {
        assert(s[i] == f[i + k]);
        assert(s[i + 1] == f[i + 1 + k]);
        assert(!(f[i + k] == ' ' && f[i + k + 1] == ' '));
    }
}

/// A text that is not blank is given punctuation to end with.
pub proof fn tts_text_is_ended(text: Seq<char>)
    requires
        trimmed(text).len() > 0,
    ensures
        tts_text(text).len() > 0,
        is_terminal(tts_text(text).last()),
{
    lemma_before_punctuation(text);
    assert(wide_terminals()[0] == '\u{3002}');
}

/// A text that is ready for synthesis has no whitespace around it.
pub proof fn tts_text_is_solid(text: Seq<char>)
    ensures
        trimmed(tts_text(text)) == tts_text(text),
{
    lemma_before_punctuation(text);
    assert(wide_terminals()[0] == '\u{3002}');
}

/// A text that is ready for synthesis stays as it is.
pub proof fn tts_text_is_stable(text: Seq<char>)
    ensures
        tts_text(tts_text(text)) == tts_text(text),
{
    let blanks = seq!['\r', '\n', '\t'];
    let r = tts_text(text);
    lemma_before_punctuation(text);
    if trimmed(text).len() == 0 {
        assert(flattened(trimmed(text), blanks) == Seq::<char>::empty());
        assert(r == Seq::<char>::empty());
        assert(flattened(r, blanks) == r);
    } else {
        tts_text_is_ended(text);
        let s = trimmed(flattened(trimmed(text), blanks));
        assert(!is_white(r[0]) && !is_white(r.last()));
        assert(trimmed(r) == r);
        assert forall|i: int| 0 <= i < r.len() - 1 implies !(#[trigger] r[i] == ' ' && r[i + 1]
            == ' ') by {
            if i + 1 < s.len() {
                assert(r[i] == s[i] && r[i + 1] == s[i + 1]);
            }
        }
        assert forall|i: int| 0 <= i < r.len() implies #[trigger] r[i] == ' ' || !blanks.contains(
            r[i],
        ) by {
            if i < s.len() {
                assert(r[i] == s[i]);
            }
        }
        lemma_flat_stays(r, blanks);
    }
}

/// Tokenizer with text chunking support.
pub struct Tokenizer {
    sp: SentencePieceModel,
}

impl View for Tokenizer {
    type V = ModelView;

    closed spec fn view(&self) -> ModelView {
        self.sp@
    }
}

impl Tokenizer {
    pub closed spec fn wf(self) -> bool {
        self.sp.wf()
    }

    /// The tokenizer of the model in a file, given the file's contents.
    pub fn from_bytes(data: &[u8]) -> (r: Result<Self, TtsError>)
        ensures
            match model_of(data@) {
                Ok(view) => r matches Ok(t) && t@ == view && t.wf(),
                Err(fault) => r matches Err(e) && reports(e, fault),
            },
    {
        match SentencePieceModel::from_bytes(data) {
            Ok(sp) => Ok(Tokenizer { sp }),
            Err(e) => Err(e),
        }
    }

    /// Encode text to token IDs.
    pub fn encode(&self, text: &str) -> (r: Vec<i32>)
        requires
            self.wf(),
        ensures
            r@ == ids_of(self@, text@),
    {
        let tokens: Vec<Token> = match self.sp.encode(text) {
            Ok(tokens) => tokens,
            Err(_) => Vec::new(),
        };
        let mut ids: Vec<i32> = Vec::new();
        let mut i: usize = 0;
        let ghost all = ids_of(self@, text@);
        while i < tokens.len()
            invariant
                i <= tokens@.len(),
                token_views(tokens@) == tokens_of(self@, text@),
                all == ids_of(self@, text@),
                all.len() == tokens@.len(),
                ids@ == all.take(i as int),
            decreases tokens.len() - i,
        {
            ids.push(tokens[i].id);
            proof {
                assert(token_views(tokens@)[i as int].id == tokens@[i as int].id);
                assert(ids@ == all.take(i + 1));
            }
            i = i + 1;
        }
        proof {
            assert(all.take(i as int) == all);
        }
        ids
    }

    /// Count tokens in text.
    pub fn count_tokens(&self, text: &str) -> (r: usize)
        requires
            self.wf(),
        ensures
            r == token_count(self@, text@),
    {
        self.encode(text).len()
    }

    pub(crate) fn count(&self, v: &Vec<char>) -> (r: usize)
        requires
            self.wf(),
        ensures
            r == token_count(self@, v@),
    {
        proof {
            assert(v@.subrange(0, v@.len() as int) == v@);
        }
        let s = string_of(v, 0, v.len());
        self.count_tokens(s.as_str())
    }

    /// Normalize text for TTS: ensure terminal punctuation, handle whitespace.
    pub fn normalize_for_tts(&self, text: &str) -> (r: String)
        ensures
            r@ == tts_text(text@),
    {
        let blanks = ['\r', '\n', '\t'];
        let first = trim(&chars_of(text));
        let mut s = trim(&flatten(&first, &blanks));
        proof {
            assert(blanks@ == seq!['\r', '\n', '\t']);
        }
        if s.len() > 0 && !terminal(s[s.len() - 1]) {
            if any_cjk(&s) {
                s.push('\u{3002}');
            } else {
                s.push('.');
            }
        }
        proof {
            assert(s@.subrange(0, s@.len() as int) == s@);
        }
        string_of(&s, 0, s.len())
    }

    /// Check if text contains CJK characters.
    pub fn contains_cjk(text: &str) -> (r: bool)
        ensures
            r == has_cjk(text@),
    {
        any_cjk(&chars_of(text))
    }

    /// Prepare text for sentence chunking by normalizing whitespace and adding
    /// terminal punctuation.
    pub(crate) fn prepare_text_for_sentence_chunking(text: &Vec<char>) -> (r: Vec<char>)
        ensures
            r@ == prepared(text@),
            lined_up(text@).last() <= '\u{7F}' ==> r@ == prepared_with(
                text@,
                is_ascii_word(lined_up(text@).last()),
            ),
    {
        let blanks = ['\r', '\n'];
        let mut s = flatten(&trim(text), &blanks);
        proof {
            assert(blanks@ == seq!['\r', '\n']);
        }
        if s.len() == 0 {
            return s;
        }
        if any_cjk(&s) {
            let ends = sentence_end_punctuation();
            if !holds(&ends, s[s.len() - 1]) {
                s.push('\u{3002}');
            }
            return s;
        }
        let first = s[0];
        if 'a' <= first && first <= 'z' {
            let small: u8 = first as u8;
            let capital: char = (small - 32) as char;
            s.set(0, capital);
        }
        proof {
            assert(s@ == lined_up(text@));
        }
        if is_alphanumeric(s[s.len() - 1]) {
            s.push('.');
        }
        if count_words(&s) < 5 {
            let mut padded: Vec<char> = Vec::new();
            let mut i: usize = 0;
            while i < 8
                invariant
                    i <= 8,
                    padded@ == padding().take(i as int),
                decreases 8 - i,
            {
                padded.push(' ');
                i = i + 1;
            }
            proof {
                assert(padding().take(8) == padding());
            }
            padded.append(&mut s);
            return padded;
        }
        s
    }

    /// Join two sentence parts, adding space for non-CJK text.
    pub(crate) fn join_sentence_parts(left: &Vec<char>, right: &Vec<char>) -> (r: Vec<char>)
        ensures
            r@ == joined_parts(left@, right@),
    {
        let mut r: Vec<char> = crate::text::copy_range(left, 0, left.len());
        let mut tail: Vec<char> = crate::text::copy_range(right, 0, right.len());
        proof {
            assert(r@ == left@);
            assert(tail@ == right@);
        }
        if left.len() == 0 {
            return tail;
        }
        if right.len() == 0 {
            return r;
        }
        if !any_cjk(left) && !any_cjk(right) {
            r.push(' ');
        }
        r.append(&mut tail);
        r
    }
}

} // verus!
