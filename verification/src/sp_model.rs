//! SentencePiece models: their file format and the normalization of text.

use crate::error::TtsError;
use crate::float::number::Binary32;
use crate::text::chars_of;
use crate::token::{byte_place, fallback_id, find_byte};
use crate::vocabulary::{
    fingerprint, piece_type_of, place_of, Piece, PieceType, PieceView, Vocabulary,
};
use crate::wire::{
    decode_varint, left, lemma_field_advances, message, part, read_content, reports, Content, Fault,
    FieldKind, Item,
};
use std::string::FromUtf8Error;
use vstd::prelude::*;
use vstd::utf8::{decode_utf8, valid_utf8};

verus! {

/// `String::from_utf8` of the standard library: succeeds exactly on valid
/// UTF-8, and then gives the string that the bytes encode.
pub assume_specification[ String::from_utf8 ](vec: Vec<u8>) -> (r: Result<String, FromUtf8Error>)
    ensures
        r is Ok <==> valid_utf8(vec@),
        r matches Ok(s) ==> s@ == decode_utf8(vec@),
;

/// The settings of a model's training that matter for encoding.
#[derive(Clone, Copy, Debug)]
pub struct TrainerSpec {
    pub unk_id: i32,
    pub byte_fallback: bool,
    /// 1 unigram, 2 byte-pair encoding, 3 words, 4 characters.
    pub model_type: i32,
}

/// The settings of a model's normalization.
#[derive(Clone, Copy, Debug)]
pub struct NormalizerSpec {
    pub add_dummy_prefix: bool,
    pub remove_extra_whitespaces: bool,
    pub escape_whitespaces: bool,
}

// --- What the messages of a model file hold ---

pub open spec fn piece_kinds() -> spec_fn(u64) -> FieldKind {
    |field: u64|
        if field == 1 {
            FieldKind::Bytes
        } else if field == 2 {
            FieldKind::Score
        } else if field == 3 {
            FieldKind::Number
        } else {
            FieldKind::Unknown
        }
}

pub open spec fn piece_step() -> spec_fn(PieceView, u64, Content) -> Result<PieceView, Fault> {
    |p: PieceView, field: u64, content: Content|
        match content {
            Content::Bytes(b) => if valid_utf8(b) {
                Ok(PieceView { text: decode_utf8(b), ..p })
            } else {
                Err(Fault::Utf8)
            },
            Content::Score(x) => Ok(PieceView { score: x, ..p }),
            Content::Number(v) => Ok(PieceView { piece_type: piece_type_of(#[verifier::truncate] (v as i32)), ..p }),
            Content::Nothing => Ok(p),
        }
}

/// The piece that a message describes.
pub open spec fn piece_of(data: Seq<u8>) -> Result<PieceView, Fault> {
    message(
        data,
        0,
        piece_kinds(),
        piece_step(),
        PieceView {
            text: Seq::empty(),
            score: Binary32 { bits: 0 },
            piece_type: PieceType::Normal,
        },
    )
}

pub open spec fn trainer_kinds() -> spec_fn(u64) -> FieldKind {
    |field: u64|
        if field == 3 || field == 35 || field == 40 {
            FieldKind::Number
        } else {
            FieldKind::Unknown
        }
}

pub open spec fn trainer_step() -> spec_fn(TrainerSpec, u64, Content) -> Result<
    TrainerSpec,
    Fault,
> {
    |t: TrainerSpec, field: u64, content: Content|
        match content {
            Content::Number(v) => if field == 3 {
                Ok(TrainerSpec { model_type: #[verifier::truncate] (v as i32), ..t })
            } else if field == 35 {
                Ok(TrainerSpec { byte_fallback: v != 0, ..t })
            } else {
                Ok(TrainerSpec { unk_id: #[verifier::truncate] (v as i32), ..t })
            },
            _ => Ok(t),
        }
}

/// The training settings that a message describes.
pub open spec fn trainer_of(data: Seq<u8>) -> Result<TrainerSpec, Fault> {
    message(
        data,
        0,
        trainer_kinds(),
        trainer_step(),
        TrainerSpec { unk_id: 0, byte_fallback: false, model_type: 1 },
    )
}

pub open spec fn normalizer_kinds() -> spec_fn(u64) -> FieldKind {
    |field: u64|
        if field == 1 {
            FieldKind::Jump
        } else if field == 3 || field == 4 || field == 5 {
            FieldKind::Number
        } else {
            FieldKind::Unknown
        }
}

pub open spec fn normalizer_step() -> spec_fn(NormalizerSpec, u64, Content) -> Result<
    NormalizerSpec,
    Fault,
> {
    |n: NormalizerSpec, field: u64, content: Content|
        match content {
            Content::Number(v) => if field == 3 {
                Ok(NormalizerSpec { add_dummy_prefix: v != 0, ..n })
            } else if field == 4 {
                Ok(NormalizerSpec { remove_extra_whitespaces: v != 0, ..n })
            } else {
                Ok(NormalizerSpec { escape_whitespaces: v != 0, ..n })
            },
            _ => Ok(n),
        }
}

/// The normalization settings that a message describes.
pub open spec fn normalizer_of(data: Seq<u8>) -> Result<NormalizerSpec, Fault> {
    message(
        data,
        0,
        normalizer_kinds(),
        normalizer_step(),
        NormalizerSpec {
            add_dummy_prefix: true,
            remove_extra_whitespaces: true,
            escape_whitespaces: true,
        },
    )
}

/// What a model file says.
pub struct ModelView {
    pub pieces: Seq<PieceView>,
    pub trainer: TrainerSpec,
    pub normalizer: NormalizerSpec,
}

pub open spec fn model_kinds() -> spec_fn(u64) -> FieldKind {
    |field: u64|
        if field == 1 || field == 2 || field == 3 {
            FieldKind::Bytes
        } else {
            FieldKind::Unknown
        }
}

pub open spec fn model_step() -> spec_fn(ModelView, u64, Content) -> Result<ModelView, Fault> {
    |m: ModelView, field: u64, content: Content|
        match content {
            Content::Bytes(b) => if field == 1 {
                match piece_of(b) {
                    Ok(p) => Ok(ModelView { pieces: m.pieces.push(p), ..m }),
                    Err(fault) => Err(fault),
                }
            } else if field == 2 {
                match trainer_of(b) {
                    Ok(t) => Ok(ModelView { trainer: t, ..m }),
                    Err(fault) => Err(fault),
                }
            } else {
                match normalizer_of(b) {
                    Ok(n) => Ok(ModelView { normalizer: n, ..m }),
                    Err(fault) => Err(fault),
                }
            },
            _ => Ok(m),
        }
}

/// The model that a file describes.
pub open spec fn model_of(data: Seq<u8>) -> Result<ModelView, Fault> {
    message(
        data,
        0,
        model_kinds(),
        model_step(),
        ModelView {
            pieces: Seq::empty(),
            trainer: TrainerSpec { unk_id: 0, byte_fallback: false, model_type: 1 },
            normalizer: NormalizerSpec {
                add_dummy_prefix: true,
                remove_extra_whitespaces: true,
                escape_whitespaces: true,
            },
        },
    )
}

// --- Scores ---

/// The positive infinity.
pub open spec fn infinity() -> Binary32 {
    Binary32 { bits: 0x7f80_0000 }
}

/// The lesser of two numbers; what is no number does not count.
pub open spec fn lesser(a: Binary32, b: Binary32) -> Binary32 {
    if a.is_nan() || a.gt(b) {
        b
    } else {
        a
    }
}

/// The least score of a vocabulary.
pub open spec fn least_score(pieces: Seq<PieceView>) -> Binary32
    decreases pieces.len(),
{
    if pieces.len() == 0 {
        infinity()
    } else {
        lesser(least_score(pieces.drop_last()), pieces.last().score)
    }
}

// --- Normalization ---

/// The mark that stands for a space.
pub open spec fn space_mark() -> char {
    '\u{2581}'
}

/// Punctuation of Chinese and Japanese that has the form of a wide ASCII
/// character: comma, exclamation mark and question mark.
pub open spec fn is_wide_mark(c: char) -> bool {
    c == '\u{FF0C}' || c == '\u{FF01}' || c == '\u{FF1F}'
}

/// The character that a character is read as.
pub open spec fn normal_char(c: char) -> char {
    if is_wide_mark(c) {
        c
    } else if '\u{FF01}' <= c <= '\u{FF5E}' {
        ((c as u32 - 0xFF01 + 0x21) as u8) as char
    } else if c == '\u{3000}' {
        ' '
    } else if '\u{FB00}' <= c <= '\u{FB06}' {
        'f'
    } else {
        c
    }
}

pub open spec fn is_blank(c: char) -> bool {
    c == ' ' || c == '\t' || c == '\n' || c == '\r'
}

/// What a character adds to the normalized text; `after_space` says whether a
/// space came before it.
pub open spec fn contribution(n: NormalizerSpec, after_space: bool, c: char) -> Seq<char> {
    let c = normal_char(c);
    if !is_blank(c) {
        seq![c]
    } else if n.escape_whitespaces {
        let first = if after_space {
            Seq::empty()
        } else {
            seq![space_mark()]
        };
        if n.remove_extra_whitespaces {
            first
        } else {
            first.push(space_mark())
        }
    } else if after_space && n.remove_extra_whitespaces {
        Seq::empty()
    } else {
        seq![c]
    }
}

/// Whether the characters before place `i` end in a space; the prefix counts
/// as one.
pub open spec fn after_space(n: NormalizerSpec, text: Seq<char>, i: int) -> bool {
    if i <= 0 {
        n.add_dummy_prefix
    } else {
        is_blank(normal_char(text[i - 1]))
    }
}

/// The normalized form of the first `i` characters of a text.
pub open spec fn normal_text_to(n: NormalizerSpec, text: Seq<char>, i: nat) -> Seq<char>
    decreases i,
{
    if i == 0 {
        if n.add_dummy_prefix {
            seq![space_mark()]
        } else {
            Seq::empty()
        }
    } else {
        normal_text_to(n, text, (i - 1) as nat) + contribution(
            n,
            after_space(n, text, i - 1),
            text[i - 1],
        )
    }
}

/// The normalized form of a text.
pub open spec fn normal_text(n: NormalizerSpec, text: Seq<char>) -> Seq<char> {
    normal_text_to(n, text, text.len())
}

/// A SentencePiece model.
pub struct SentencePieceModel {
    pub(crate) vocabulary: Vocabulary,
    pub(crate) trainer: TrainerSpec,
    pub(crate) normalizer: NormalizerSpec,
    pub(crate) min_score: Binary32,
}

impl View for SentencePieceModel {
    type V = ModelView;

    closed spec fn view(&self) -> ModelView {
        ModelView {
            pieces: self.vocabulary@,
            trainer: self.trainer,
            normalizer: self.normalizer,
        }
    }
}

impl SentencePieceModel {
    /// The vocabulary is filed, and the least score is known.
    pub closed spec fn wf(self) -> bool {
        self.vocabulary.wf() && self.min_score == least_score(self@.pieces)
    }

    /// Parse a SentencePiece model from bytes.
    pub fn from_bytes(data: &[u8]) -> (r: Result<Self, TtsError>)
        ensures
            match model_of(data@) {
                Ok(view) => r matches Ok(m) && m@ == view && m.wf(),
                Err(fault) => r matches Err(e) && reports(e, fault),
            },
    {
        Self::decode_model_proto(data)
    }

    /// Decodes the message that a model file is.
    pub fn decode_model_proto(data: &[u8]) -> (r: Result<Self, TtsError>)
        ensures
            match model_of(data@) {
                Ok(view) => r matches Ok(m) && m@ == view && m.wf(),
                Err(fault) => r matches Err(e) && reports(e, fault),
            },
    {
        let mut pieces: Vec<Piece> = Vec::new();
        let mut trainer = TrainerSpec { unk_id: 0, byte_fallback: false, model_type: 1 };
        let mut normalizer = NormalizerSpec {
            add_dummy_prefix: true,
            remove_extra_whitespaces: true,
            escape_whitespaces: true,
        };
        let mut pos: usize = 0;
        proof {
            assert(pieces@.map_values(|p: Piece| p@) == Seq::<PieceView>::empty());
        }
        while pos < data.len()
            invariant
                model_of(data@) == message(
                    data@,
                    pos as nat,
                    model_kinds(),
                    model_step(),
                    ModelView { pieces: pieces@.map_values(|p: Piece| p@), trainer, normalizer },
                ),
            decreases left(data@, pos as nat),
        {
            let (tag, next) = decode_varint(data, pos)?;
            let field: u64 = tag / 8;
            let kind = if field == 1 || field == 2 || field == 3 {
                FieldKind::Bytes
            } else {
                FieldKind::Unknown
            };
            let (item, after) = read_content(data, next, kind, tag % 8)?;
            if let Item::Bytes { start } = item {
                let inner = part(data, start, after);
                if field == 1 {
                    let piece = Self::decode_sentence_piece(inner)?;
                    let ghost before = pieces@;
                    pieces.push(piece);
                    proof {
                        assert(pieces@.map_values(|p: Piece| p@) == before.map_values(
                            |p: Piece| p@,
                        ).push(piece@));
                    }
                } else if field == 2 {
                    trainer = Self::decode_trainer_spec(inner)?;
                } else {
                    normalizer = Self::decode_normalizer_spec(inner)?;
                }
            }
            proof {
                lemma_field_advances(data@, pos as nat, kind);
            }
            pos = after;
        }
        let min_score = Self::least(&pieces);
        let vocabulary = Vocabulary::new(pieces);
        Ok(SentencePieceModel { vocabulary, trainer, normalizer, min_score })
    }

    fn least(pieces: &Vec<Piece>) -> (r: Binary32)
        ensures
            r == least_score(pieces@.map_values(|p: Piece| p@)),
    {
        let mut least = Binary32 { bits: 0x7f80_0000 };
        let mut i: usize = 0;
        let ghost all = pieces@.map_values(|p: Piece| p@);
        while i < pieces.len()
            invariant
                i <= pieces@.len(),
                all == pieces@.map_values(|p: Piece| p@),
                least == least_score(all.take(i as int)),
            decreases pieces.len() - i,
        {
            let score = pieces[i].score;
            proof {
                assert(all.take(i + 1).drop_last() == all.take(i as int));
            }
            if least.not_a_number() || least.exceeds(score) {
                least = score;
            }
            i = i + 1;
        }
        proof {
            assert(all.take(i as int) == all);
        }
        least
    }

    fn decode_sentence_piece(data: &[u8]) -> (r: Result<Piece, TtsError>)
        ensures
            match piece_of(data@) {
                Ok(view) => r matches Ok(p) && p@ == view,
                Err(fault) => r matches Err(e) && reports(e, fault),
            },
    {
        let mut piece = Piece {
            text: Vec::new(),
            score: Binary32 { bits: 0 },
            piece_type: PieceType::Normal,
        };
        let mut pos: usize = 0;
        while pos < data.len()
            invariant
                piece_of(data@) == message(
                    data@,
                    pos as nat,
                    piece_kinds(),
                    piece_step(),
                    piece@,
                ),
            decreases left(data@, pos as nat),
        {
            let (tag, next) = decode_varint(data, pos)?;
            let field: u64 = tag / 8;
            let kind = if field == 1 {
                FieldKind::Bytes
            } else if field == 2 {
                FieldKind::Score
            } else if field == 3 {
                FieldKind::Number
            } else {
                FieldKind::Unknown
            };
            let (item, after) = read_content(data, next, kind, tag % 8)?;
            match item {
                Item::Bytes { start } => {
                    let bytes = vstd::slice::slice_to_vec(part(data, start, after));
                    match String::from_utf8(bytes) {
                        Ok(s) => {
                            piece.text = chars_of(s.as_str());
                        },
                        Err(e) => {
                            return Err(TtsError::FromUtf8(e));
                        },
                    }
                },
                Item::Score(x) => {
                    piece.score = x;
                },
                Item::Number(v) => {
                    piece.piece_type = PieceType::from_i32(#[verifier::truncate] (v as i32));
                },
                Item::Nothing => {},
            }
            proof {
                lemma_field_advances(data@, pos as nat, kind);
            }
            pos = after;
        }
        Ok(piece)
    }

    fn decode_trainer_spec(data: &[u8]) -> (r: Result<TrainerSpec, TtsError>)
        ensures
            match trainer_of(data@) {
                Ok(view) => r matches Ok(t) && t == view,
                Err(fault) => r matches Err(e) && reports(e, fault),
            },
    {
        let mut settings = TrainerSpec { unk_id: 0, byte_fallback: false, model_type: 1 };
        let mut pos: usize = 0;
        while pos < data.len()
            invariant
                trainer_of(data@) == message(
                    data@,
                    pos as nat,
                    trainer_kinds(),
                    trainer_step(),
                    settings,
                ),
            decreases left(data@, pos as nat),
        {
            let (tag, next) = decode_varint(data, pos)?;
            let field: u64 = tag / 8;
            let kind = if field == 3 || field == 35 || field == 40 {
                FieldKind::Number
            } else {
                FieldKind::Unknown
            };
            let (item, after) = read_content(data, next, kind, tag % 8)?;
            if let Item::Number(v) = item {
                if field == 3 {
                    settings.model_type = #[verifier::truncate] (v as i32);
                } else if field == 35 {
                    settings.byte_fallback = v != 0;
                } else {
                    settings.unk_id = #[verifier::truncate] (v as i32);
                }
            }
            proof {
                lemma_field_advances(data@, pos as nat, kind);
            }
            pos = after;
        }
        Ok(settings)
    }

    fn decode_normalizer_spec(data: &[u8]) -> (r: Result<NormalizerSpec, TtsError>)
        ensures
            match normalizer_of(data@) {
                Ok(view) => r matches Ok(n) && n == view,
                Err(fault) => r matches Err(e) && reports(e, fault),
            },
    {
        let mut settings = NormalizerSpec {
            add_dummy_prefix: true,
            remove_extra_whitespaces: true,
            escape_whitespaces: true,
        };
        let mut pos: usize = 0;
        while pos < data.len()
            invariant
                normalizer_of(data@) == message(
                    data@,
                    pos as nat,
                    normalizer_kinds(),
                    normalizer_step(),
                    settings,
                ),
            decreases left(data@, pos as nat),
        {
            let (tag, next) = decode_varint(data, pos)?;
            let field: u64 = tag / 8;
            let kind = if field == 1 {
                FieldKind::Jump
            } else if field == 3 || field == 4 || field == 5 {
                FieldKind::Number
            } else {
                FieldKind::Unknown
            };
            let (item, after) = read_content(data, next, kind, tag % 8)?;
            if let Item::Number(v) = item {
                if field == 3 {
                    settings.add_dummy_prefix = v != 0;
                } else if field == 4 {
                    settings.remove_extra_whitespaces = v != 0;
                } else {
                    settings.escape_whitespaces = v != 0;
                }
            }
            proof {
                lemma_field_advances(data@, pos as nat, kind);
            }
            pos = after;
        }
        Ok(settings)
    }

    /// The place of the text that stands in `v` from `start` to `end`.
    pub fn find(&self, v: &Vec<char>, start: usize, end: usize) -> (r: Option<usize>)
        requires
            self.wf(),
            start <= end <= v@.len(),
        ensures
            match place_of(self@.pieces, v@.subrange(start as int, end as int)) {
                Some(i) => r == Some(i as usize) && i < self@.pieces.len() && i <= usize::MAX,
                None => r is None,
            },
    {
        self.vocabulary.find(v, start, end)
    }

    /// As `find`, given the text's fingerprint.
    pub(crate) fn find_filed(&self, h: u64, v: &Vec<char>, start: usize, end: usize) -> (r: Option<
        usize,
    >)
        requires
            self.wf(),
            start <= end <= v@.len(),
            h == fingerprint(v@.subrange(start as int, end as int)),
        ensures
            match place_of(self@.pieces, v@.subrange(start as int, end as int)) {
                Some(i) => r == Some(i as usize) && i < self@.pieces.len() && i <= usize::MAX,
                None => r is None,
            },
    {
        self.vocabulary.find_filed(h, v, start, end)
    }

    /// The piece at a place.
    pub(crate) fn piece(&self, i: usize) -> (p: &Piece)
        requires
            i < self@.pieces.len(),
        ensures
            p@ == self@.pieces[i as int],
    {
        self.vocabulary.piece(i)
    }

    /// The place of the piece for a character's first byte, where the model
    /// has pieces for bytes.
    pub(crate) fn byte_piece(&self, c: char) -> (r: Option<usize>)
        requires
            self.wf(),
        ensures
            match byte_place(self@, c) {
                Some(i) => r == Some(i as usize) && i < self@.pieces.len() && i <= usize::MAX,
                None => r is None,
            },
    {
        if self.trainer.byte_fallback {
            find_byte(&self.vocabulary, c)
        } else {
            None
        }
    }

    /// The ID of a character that is no piece by itself.
    pub(crate) fn stand_in(&self, c: char) -> (id: i32)
        requires
            self.wf(),
        ensures
            id == fallback_id(self@, c),
    {
        match self.byte_piece(c) {
            Some(i) => #[verifier::truncate] (i as i32),
            None => self.trainer.unk_id,
        }
    }

    pub(crate) fn model_type(&self) -> (r: i32)
        ensures
            r == self@.trainer.model_type,
    {
        self.trainer.model_type
    }

    pub(crate) fn unk_id(&self) -> (id: i32)
        ensures
            id == self@.trainer.unk_id,
    {
        self.trainer.unk_id
    }

    /// The least score of the vocabulary.
    pub fn min_score(&self) -> (r: Binary32)
        requires
            self.wf(),
        ensures
            r == least_score(self@.pieces),
    {
        self.min_score
    }

    /// The character that a character is read as: full-width forms and Latin
    /// ligatures become plain characters. CJK punctuation (full stop, comma,
    /// exclamation and question mark) is not normalized: it has vocabulary
    /// entries of its own.
    pub fn normalize_char(c: char) -> (r: char)
        ensures
            r == normal_char(c),
    {
        if c == '\u{FF0C}' || c == '\u{FF01}' || c == '\u{FF1F}' {
            c
        } else if '\u{FF01}' <= c && c <= '\u{FF5E}' {
            let b: u8 = (c as u32 - 0xFF01 + 0x21) as u8;
            b as char
        } else if c == '\u{3000}' {
            ' '
        } else if '\u{FB00}' <= c && c <= '\u{FB06}' {
            'f'
        } else {
            c
        }
    }

    /// Normalize text before tokenization.
    pub fn normalize(&self, text: &str) -> (r: Vec<char>)
        ensures
            r@ == normal_text(self@.normalizer, text@),
    {
        let n = self.normalizer;
        let chars = chars_of(text);
        let mut result: Vec<char> = Vec::new();
        if n.add_dummy_prefix {
            result.push('\u{2581}');
        }
        let mut prev_is_space = n.add_dummy_prefix;
        let mut i: usize = 0;
        while i < chars.len()
            invariant
                i <= chars@.len(),
                prev_is_space == after_space(n, chars@, i as int),
                result@ == normal_text_to(n, chars@, i as nat),
            decreases chars.len() - i,
        {
            let c = Self::normalize_char(chars[i]);
            let ghost before = result@;
            if c == ' ' || c == '\t' || c == '\n' || c == '\r' {
                if n.escape_whitespaces {
                    if !prev_is_space {
                        result.push('\u{2581}');
                    }
                    if !n.remove_extra_whitespaces {
                        result.push('\u{2581}');
                    }
                } else if !n.remove_extra_whitespaces || !prev_is_space {
                    result.push(c);
                }
                prev_is_space = true;
            } else {
                result.push(c);
                prev_is_space = false;
            }
            proof {
                assert(result@ == before + contribution(
                    n,
                    after_space(n, chars@, i as int),
                    chars@[i as int],
                ));
            }
            i = i + 1;
        }
        result
    }
}

} // verus!
