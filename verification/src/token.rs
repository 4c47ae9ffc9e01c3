//! Tokens, and what stands for a character that the vocabulary lacks.

use crate::sp_model::ModelView;
use crate::vocabulary::{place_of, Vocabulary};
use vstd::prelude::*;
use vstd::utf8::{
    char_is_scalar, encode_scalar, encode_utf8,
};

verus! {

/// A token with its ID and piece string.
#[derive(Debug)]
pub struct Token {
    pub id: i32,
    pub piece: String,
}

/// What a token says.
pub struct TokenView {
    pub id: i32,
    pub piece: Seq<char>,
}

impl View for Token {
    type V = TokenView;

    open spec fn view(&self) -> TokenView {
        TokenView { id: self.id, piece: self.piece@ }
    }
}

pub open spec fn token_views(tokens: Seq<Token>) -> Seq<TokenView> {
    tokens.map_values(|t: Token| t@)
}

/// A stretch of a text with the ID that it gets.
#[derive(Clone, Copy, Debug)]
pub struct Span {
    pub start: usize,
    pub end: usize,
    pub id: i32,
}

/// The tokens that spans stand for.
pub open spec fn spelled(text: Seq<char>, spans: Seq<Span>) -> Seq<TokenView> {
    spans.map_values(
        |s: Span|
            TokenView { id: s.id, piece: text.subrange(s.start as int, s.end as int) },
    )
}

/// The spans follow on one another, none is empty, and together they make up
/// the first `n` places.
pub open spec fn partition(spans: Seq<Span>, n: nat) -> bool
    decreases spans.len(),
{
    if spans.len() == 0 {
        n == 0
    } else {
        spans.last().end == n && spans.last().start < n && partition(
            spans.drop_last(),
            spans.last().start as nat,
        )
    }
}

/// The pieces of tokens, one after the other.
pub open spec fn concatenated(tokens: Seq<TokenView>) -> Seq<char>
    decreases tokens.len(),
{
    if tokens.len() == 0 {
        Seq::empty()
    } else {
        concatenated(tokens.drop_last()) + tokens.last().piece
    }
}

/// The pieces of a partition give back the text.
pub proof fn lemma_partition_spells(text: Seq<char>, spans: Seq<Span>, n: nat)
    requires
        partition(spans, n),
        n <= text.len(),
    ensures
        concatenated(spelled(text, spans)) == text.take(n as int),
    decreases spans.len(),
{
    if spans.len() > 0 {
        let s = spans.last();
        lemma_partition_spells(text, spans.drop_last(), s.start as nat);
        assert(spelled(text, spans).drop_last() == spelled(text, spans.drop_last()));
        assert(text.take(s.start as int) + text.subrange(s.start as int, n as int) == text.take(
            n as int,
        ));
    } else {
        assert(text.take(0) == Seq::<char>::empty());
    }
}

/// The digit of a hexadecimal number.
pub open spec fn hex_digit(d: int) -> char {
    if d < 10 {
        ((0x30 + d) as u8) as char
    } else {
        ((0x41 + (d - 10)) as u8) as char
    }
}

/// The piece that stands for a byte.
pub open spec fn byte_piece(b: u8) -> Seq<char> {
    seq!['<', '0', 'x', hex_digit(b as int / 16), hex_digit(b as int % 16), '>']
}

/// The first byte of a character's UTF-8 form.
pub open spec fn first_byte(c: char) -> u8 {
    encode_utf8(seq![c])[0]
}

/// The ID of the piece at a place.
pub open spec fn id_of(place: nat) -> i32 {
    #[verifier::truncate]
    (place as i32)
}

/// The place of the piece for a character's first byte, where the model has
/// pieces for bytes.
pub open spec fn byte_place(m: ModelView, c: char) -> Option<nat> {
    if m.trainer.byte_fallback {
        place_of(m.pieces, byte_piece(first_byte(c)))
    } else {
        None
    }
}

/// The ID of a character that is no piece by itself.
pub open spec fn fallback_id(m: ModelView, c: char) -> i32 {
    match byte_place(m, c) {
        Some(i) => id_of(i),
        None => m.trainer.unk_id,
    }
}

fn hex(d: u8) -> (r: char)
    requires
        d < 16,
    ensures
        r == hex_digit(d as int),
{
    if d < 10 {
        (0x30 + d) as char
    } else {
        (0x41 + (d - 10)) as char
    }
}

fn leading_byte(c: char) -> (r: u8)
    ensures
        r == first_byte(c),
{
    let v: u32 = c as u32;
    proof {
        char_is_scalar(c);
        assert(encode_utf8(seq![c]) == encode_scalar(c as u32)) by {
            assert(seq![c].drop_first().len() == 0);
            assert(encode_utf8(seq![c].drop_first()) == Seq::<u8>::empty());
        }
    }
    if v <= 0x7F {
        (v & 0x7F) as u8
    } else if v <= 0x7FF {
        0xC0 | ((v >> 6) & 0x1F) as u8
    } else if v <= 0xFFFF {
        0xE0 | ((v >> 12) & 0x0F) as u8
    } else {
        0xF0 | ((v >> 18) & 0x07) as u8
    }
}

/// The place of the piece for a character's first byte.
pub(crate) fn find_byte(vocabulary: &Vocabulary, c: char) -> (r: Option<usize>)
    requires
        vocabulary.wf(),
    ensures
        match place_of(vocabulary@, byte_piece(first_byte(c))) {
            Some(i) => r == Some(i as usize) && i < vocabulary@.len() && i <= usize::MAX,
            None => r is None,
        },
{
    let b = leading_byte(c);
    let mut name: Vec<char> = Vec::new();
    name.push('<');
    name.push('0');
    name.push('x');
    name.push(hex(b / 16));
    name.push(hex(b % 16));
    name.push('>');
    proof {
        assert(name@.subrange(0, 6) == byte_piece(first_byte(c)));
    }
    vocabulary.find(&name, 0, 6)
}

/// The tokens for spans of a text.
pub(crate) fn spell(text: &Vec<char>, spans: &Vec<Span>) -> (r: Vec<Token>)
    requires
        forall|i: int|
            0 <= i < spans@.len() ==> (#[trigger] spans@[i]).start <= spans@[i].end <= text@.len(),
    ensures
        token_views(r@) == spelled(text@, spans@),
{
    let mut tokens: Vec<Token> = Vec::new();
    let mut i: usize = 0;
    while i < spans.len()
        invariant
            i <= spans@.len(),
            forall|i: int|
                0 <= i < spans@.len() ==> (#[trigger] spans@[i]).start <= spans@[i].end
                    <= text@.len(),
            token_views(tokens@) == spelled(text@, spans@).take(i as int),
        decreases spans.len() - i,
    {
        let s = spans[i];
        let ghost before = tokens@;
        tokens.push(Token { id: s.id, piece: crate::text::string_of(text, s.start, s.end) });
        proof {
            assert(token_views(tokens@) == token_views(before).push(tokens@.last()@));
            assert(token_views(tokens@) == spelled(text@, spans@).take(i + 1));
        }
        i = i + 1;
    }
    proof {
        assert(spelled(text@, spans@).take(i as int) == spelled(text@, spans@));
    }
    tokens
}

/// The value of a digit of a hexadecimal number with capitals, if it is one.
pub open spec fn digit_value(c: char) -> Option<int> {
    if '0' <= c <= '9' {
        Some(c as u32 - 0x30)
    } else if 'A' <= c <= 'F' {
        Some(c as u32 - 0x41 + 10)
    } else {
        None
    }
}

/// The piece for a byte is its value in two hexadecimal digits with capitals,
/// between `<0x` and `>`.
pub proof fn byte_piece_spells_the_byte(b: u8)
    ensures
        ({
            let p = byte_piece(b);
            &&& p.len() == 6
            &&& p[0] == '<' && p[1] == '0' && p[2] == 'x' && p[5] == '>'
            &&& digit_value(p[3]) matches Some(high) && digit_value(p[4]) matches Some(low) && high
                * 16 + low == b
        }),
{
    let high = b as int / 16;
    let low = b as int % 16;
    assert(0 <= high < 16 && 0 <= low < 16);
    assert(digit_value(hex_digit(high)) == Some(high));
    assert(digit_value(hex_digit(low)) == Some(low));
}

/// The ID of a piece is its place, as long as places fit in 31 bits.
pub proof fn ids_are_places(place: nat)
    requires
        place <= i32::MAX,
    ensures
        id_of(place) == place,
{
}

} // verus!
