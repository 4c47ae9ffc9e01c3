//! Model files that were written, read back.

use crate::float::number::Binary32;
use crate::sp_model::{
    model_kinds, model_of, model_step, normalizer_kinds, normalizer_of, normalizer_step,
    piece_kinds, piece_of, piece_step, trainer_kinds, trainer_of, trainer_step, ModelView,
    NormalizerSpec, TrainerSpec,
};
use crate::vocabulary::{PieceType, PieceView};
use crate::wire::{digits_at, message, varint_at, Content, Fault, FieldKind};
use vstd::arithmetic::power2::*;
use vstd::prelude::*;
use vstd::utf8::encode_utf8;

verus! {

// --- Writing ---

/// A number in groups of seven bits, the lowest first. All but the last have the
/// high bit set.
pub open spec fn written_number(n: nat) -> Seq<u8>
    decreases n,
{
    if n < 128 {
        seq![n as u8]
    } else {
        seq![(n % 128 + 128) as u8] + written_number(n / 128)
    }
}

/// A field that holds a number.
pub open spec fn number_field(field: nat, v: u64) -> Seq<u8> {
    written_number(8 * field) + written_number(v as nat)
}

/// A field that holds bytes.
pub open spec fn bytes_field(field: nat, bytes: Seq<u8>) -> Seq<u8> {
    written_number(8 * field + 2) + written_number(bytes.len()) + bytes
}

/// A field that holds a number of the 32-bit format.
pub open spec fn score_field(field: nat, x: Binary32) -> Seq<u8> {
    written_number(8 * field + 5) + seq![
        (x.bits % 0x100) as u8,
        (x.bits / 0x100 % 0x100) as u8,
        (x.bits / 0x1_0000 % 0x100) as u8,
        (x.bits / 0x100_0000) as u8,
    ]
}

/// An integer as it goes into a field.
pub open spec fn extended(x: i32) -> u64 {
    #[verifier::truncate]
    ((x as i64) as u64)
}

/// A truth value as it goes into a field.
pub open spec fn flag(b: bool) -> u64 {
    if b {
        1
    } else {
        0
    }
}

/// The number of a piece type.
pub open spec fn type_number(t: PieceType) -> u64 {
    match t {
        PieceType::Normal => 1,
        PieceType::Unknown => 2,
        PieceType::Control => 3,
        PieceType::UserDefined => 4,
        PieceType::Unused => 5,
        PieceType::Byte => 6,
    }
}

pub open spec fn written_piece(p: PieceView) -> Seq<u8> {
    bytes_field(1, encode_utf8(p.text)) + (score_field(2, p.score) + number_field(
        3,
        type_number(p.piece_type),
    ))
}

pub open spec fn written_trainer(t: TrainerSpec) -> Seq<u8> {
    number_field(3, extended(t.model_type)) + (number_field(35, flag(t.byte_fallback))
        + number_field(40, extended(t.unk_id)))
}

pub open spec fn written_normalizer(n: NormalizerSpec) -> Seq<u8> {
    number_field(3, flag(n.add_dummy_prefix)) + (number_field(4, flag(n.remove_extra_whitespaces))
        + number_field(5, flag(n.escape_whitespaces)))
}

pub open spec fn written_pieces(pieces: Seq<PieceView>) -> Seq<u8>
    decreases pieces.len(),
{
    if pieces.len() == 0 {
        Seq::empty()
    } else {
        bytes_field(1, written_piece(pieces[0])) + written_pieces(pieces.drop_first())
    }
}

/// A model file: the pieces, the settings of training and those of normalization.
pub open spec fn written_model(m: ModelView) -> Seq<u8> {
    written_pieces(m.pieces) + (bytes_field(2, written_trainer(m.trainer)) + bytes_field(
        3,
        written_normalizer(m.normalizer),
    ))
}

// --- Reading ---

/// Whether bytes stand at a position.
pub open spec fn stands_at(data: Seq<u8>, pos: nat, s: Seq<u8>) -> bool {
    &&& pos + s.len() <= data.len()
    &&& forall|i: int| 0 <= i < s.len() ==> #[trigger] data[pos + i] == s[i]
}

proof fn lemma_stands_both(data: Seq<u8>, pos: nat, a: Seq<u8>, b: Seq<u8>)
    requires
        stands_at(data, pos, a + b),
    ensures
        stands_at(data, pos, a),
        stands_at(data, pos + a.len(), b),
{
    let s = a + b;
    assert forall|i: int| 0 <= i < a.len() implies #[trigger] data[pos + i] == a[i] by {
        assert(data[pos + i] == s[i]);
    }
    assert forall|i: int| 0 <= i < b.len() implies #[trigger] data[pos + a.len() + i] == b[i] by {
        assert(data[pos + (a.len() + i)] == s[a.len() + i]);
    }
}

proof fn lemma_stands_alone(s: Seq<u8>)
    ensures
        stands_at(s, 0, s),
{
}

proof fn lemma_digits_written(data: Seq<u8>, pos: nat, n: nat, index: nat)
    requires
        index < 10,
        n < pow2((7 * (10 - index)) as nat),
        stands_at(data, pos, written_number(n)),
    ensures
        digits_at(data, pos, index) == Some((n, pos + written_number(n).len())),
    decreases 10 - index,
{
    let s = written_number(n);
    assert(data[pos as int + 0] == s[0]);
    if n >= 128 {
        let rest = written_number(n / 128);
        lemma2_to64();
        lemma_pow2_adds((7 * (9 - index)) as nat, 7);
        assert(index < 9);
        assert(s == seq![(n % 128 + 128) as u8] + rest);
        lemma_stands_both(data, pos, seq![(n % 128 + 128) as u8], rest);
        lemma_digits_written(data, pos + 1, n / 128, index + 1);
    }
}

/// A number that was written is read back, and nothing behind it.
pub proof fn numbers_are_read_back(data: Seq<u8>, pos: nat, n: u64)
    requires
        stands_at(data, pos, written_number(n as nat)),
    ensures
        varint_at(data, pos) == Ok::<(u64, nat), Fault>(
            (n, pos + written_number(n as nat).len()),
        ),
{
    lemma2_to64();
    lemma2_to64_rest();
    lemma_pow2_strictly_increases(64, 70);
    lemma_digits_written(data, pos, n as nat, 0);
}

proof fn lemma_written_is_not_empty(n: nat)
    ensures
        written_number(n).len() > 0,
{
}

proof fn lemma_number_field<A>(
    data: Seq<u8>,
    pos: nat,
    field: nat,
    v: u64,
    kinds: spec_fn(u64) -> FieldKind,
    step: spec_fn(A, u64, Content) -> Result<A, Fault>,
    acc: A,
)
    requires
        field < 1000,
        stands_at(data, pos, number_field(field, v)),
        kinds(field as u64) == FieldKind::Number,
        step(acc, field as u64, Content::Number(v)) is Ok,
    ensures
        message(data, pos, kinds, step, acc) == message(
            data,
            pos + number_field(field, v).len(),
            kinds,
            step,
            step(acc, field as u64, Content::Number(v))->Ok_0,
        ),
{
    let tag = (8 * field) as u64;
    lemma_stands_both(data, pos, written_number(8 * field), written_number(v as nat));
    numbers_are_read_back(data, pos, tag);
    numbers_are_read_back(data, pos + written_number(8 * field).len(), v);
    lemma_written_is_not_empty(8 * field);
    assert(tag / 8 == field as u64);
}

proof fn lemma_bytes_field<A>(
    data: Seq<u8>,
    pos: nat,
    field: nat,
    bytes: Seq<u8>,
    kinds: spec_fn(u64) -> FieldKind,
    step: spec_fn(A, u64, Content) -> Result<A, Fault>,
    acc: A,
)
    requires
        field < 1000,
        bytes.len() <= u64::MAX,
        stands_at(data, pos, bytes_field(field, bytes)),
        kinds(field as u64) == FieldKind::Bytes,
        step(acc, field as u64, Content::Bytes(bytes)) is Ok,
    ensures
        message(data, pos, kinds, step, acc) == message(
            data,
            pos + bytes_field(field, bytes).len(),
            kinds,
            step,
            step(acc, field as u64, Content::Bytes(bytes))->Ok_0,
        ),
{
    let tag = (8 * field + 2) as u64;
    let head = written_number(8 * field + 2);
    let len = written_number(bytes.len());
    lemma_stands_both(data, pos, head + len, bytes);
    lemma_stands_both(data, pos, head, len);
    numbers_are_read_back(data, pos, tag);
    numbers_are_read_back(data, pos + head.len(), bytes.len() as u64);
    lemma_written_is_not_empty(8 * field + 2);
    assert(tag / 8 == field as u64);
    let next = pos + head.len() + len.len();
    assert(next == pos + (head + len).len());
    let part = data.subrange(next as int, (next + bytes.len()) as int);
    assert forall|i: int| 0 <= i < bytes.len() implies #[trigger] part[i] == bytes[i] by {
        assert(data[next + i] == bytes[i]);
    }
    assert(part == bytes);
}

proof fn lemma_score_field<A>(
    data: Seq<u8>,
    pos: nat,
    field: nat,
    x: Binary32,
    kinds: spec_fn(u64) -> FieldKind,
    step: spec_fn(A, u64, Content) -> Result<A, Fault>,
    acc: A,
)
    requires
        field < 1000,
        stands_at(data, pos, score_field(field, x)),
        kinds(field as u64) == FieldKind::Score,
        step(acc, field as u64, Content::Score(x)) is Ok,
    ensures
        message(data, pos, kinds, step, acc) == message(
            data,
            pos + score_field(field, x).len(),
            kinds,
            step,
            step(acc, field as u64, Content::Score(x))->Ok_0,
        ),
{
    let tag = (8 * field + 5) as u64;
    let head = written_number(8 * field + 5);
    let four = seq![
        (x.bits % 0x100) as u8,
        (x.bits / 0x100 % 0x100) as u8,
        (x.bits / 0x1_0000 % 0x100) as u8,
        (x.bits / 0x100_0000) as u8,
    ];
    lemma_stands_both(data, pos, head, four);
    numbers_are_read_back(data, pos, tag);
    lemma_written_is_not_empty(8 * field + 5);
    assert(tag / 8 == field as u64);
    let next = pos + head.len();
    assert(data[next as int + 0] == four[0]);
    assert(data[next as int + 1] == four[1]);
    assert(data[next as int + 2] == four[2]);
    assert(data[next as int + 3] == four[3]);
    assert(crate::wire::score_at(data, next) == x);
}

/// A piece that was written is read back.
pub proof fn pieces_are_read_back(p: PieceView)
    requires
        encode_utf8(p.text).len() <= u64::MAX,
    ensures
        piece_of(written_piece(p)) == Ok::<PieceView, Fault>(p),
{
    let data = written_piece(p);
    let text = encode_utf8(p.text);
    let (a, b, c) = (
        bytes_field(1, text),
        score_field(2, p.score),
        number_field(3, type_number(p.piece_type)),
    );
    vstd::utf8::encode_utf8_valid_utf8(p.text);
    vstd::utf8::encode_utf8_decode_utf8(p.text);
    lemma_stands_alone(data);
    lemma_stands_both(data, 0, a, b + c);
    lemma_stands_both(data, a.len(), b, c);
    let none = PieceView {
        text: Seq::empty(),
        score: Binary32 { bits: 0 },
        piece_type: PieceType::Normal,
    };
    let one = PieceView { text: p.text, ..none };
    let two = PieceView { score: p.score, ..one };
    lemma_bytes_field(data, 0, 1, text, piece_kinds(), piece_step(), none);
    lemma_score_field(data, a.len(), 2, p.score, piece_kinds(), piece_step(), one);
    lemma_number_field(
        data,
        a.len() + b.len(),
        3,
        type_number(p.piece_type),
        piece_kinds(),
        piece_step(),
        two,
    );
    assert(data.len() == a.len() + b.len() + c.len());
}

proof fn lemma_extended(x: i32)
    ensures
        (#[verifier::truncate] (extended(x) as i32)) == x,
{
    assert((((x as i64) as u64) as i32) == x) by (bit_vector);
}

/// The settings of training that were written are read back.
pub proof fn training_settings_are_read_back(t: TrainerSpec)
    ensures
        trainer_of(written_trainer(t)) == Ok::<TrainerSpec, Fault>(t),
{
    let data = written_trainer(t);
    let (a, b, c) = (
        number_field(3, extended(t.model_type)),
        number_field(35, flag(t.byte_fallback)),
        number_field(40, extended(t.unk_id)),
    );
    lemma_extended(t.model_type);
    lemma_extended(t.unk_id);
    lemma_stands_alone(data);
    lemma_stands_both(data, 0, a, b + c);
    lemma_stands_both(data, a.len(), b, c);
    let none = TrainerSpec { unk_id: 0, byte_fallback: false, model_type: 1 };
    let one = TrainerSpec { model_type: t.model_type, ..none };
    let two = TrainerSpec { byte_fallback: t.byte_fallback, ..one };
    let (kinds, step) = (trainer_kinds(), trainer_step());
    lemma_number_field(data, 0, 3, extended(t.model_type), kinds, step, none);
    lemma_number_field(data, a.len(), 35, flag(t.byte_fallback), kinds, step, one);
    lemma_number_field(data, a.len() + b.len(), 40, extended(t.unk_id), kinds, step, two);
    assert(data.len() == a.len() + b.len() + c.len());
}

/// The settings of normalization that were written are read back.
pub proof fn normalization_settings_are_read_back(n: NormalizerSpec)
    ensures
        normalizer_of(written_normalizer(n)) == Ok::<NormalizerSpec, Fault>(n),
{
    let data = written_normalizer(n);
    let (a, b, c) = (
        number_field(3, flag(n.add_dummy_prefix)),
        number_field(4, flag(n.remove_extra_whitespaces)),
        number_field(5, flag(n.escape_whitespaces)),
    );
    lemma_stands_alone(data);
    lemma_stands_both(data, 0, a, b + c);
    lemma_stands_both(data, a.len(), b, c);
    let none = NormalizerSpec {
        add_dummy_prefix: true,
        remove_extra_whitespaces: true,
        escape_whitespaces: true,
    };
    let one = NormalizerSpec { add_dummy_prefix: n.add_dummy_prefix, ..none };
    let two = NormalizerSpec { remove_extra_whitespaces: n.remove_extra_whitespaces, ..one };
    let (kinds, step) = (normalizer_kinds(), normalizer_step());
    lemma_number_field(data, 0, 3, flag(n.add_dummy_prefix), kinds, step, none);
    lemma_number_field(data, a.len(), 4, flag(n.remove_extra_whitespaces), kinds, step, one);
    lemma_number_field(data, a.len() + b.len(), 5, flag(n.escape_whitespaces), kinds, step, two);
    assert(data.len() == a.len() + b.len() + c.len());
}

proof fn lemma_pieces_written(data: Seq<u8>, pos: nat, pieces: Seq<PieceView>, acc: ModelView)
    requires
        data.len() <= u64::MAX,
        stands_at(data, pos, written_pieces(pieces)),
    ensures
        message(data, pos, model_kinds(), model_step(), acc) == message(
            data,
            pos + written_pieces(pieces).len(),
            model_kinds(),
            model_step(),
            ModelView { pieces: acc.pieces + pieces, ..acc },
        ),
    decreases pieces.len(),
{
    if pieces.len() == 0 {
        assert(acc.pieces + pieces == acc.pieces);
    } else {
        let p = pieces[0];
        let one = written_piece(p);
        let first = bytes_field(1, one);
        let rest = written_pieces(pieces.drop_first());
        lemma_stands_both(data, pos, first, rest);
        assert(one.len() <= first.len());
        assert(encode_utf8(p.text).len() <= bytes_field(1, encode_utf8(p.text)).len());
        assert(encode_utf8(p.text).len() <= one.len());
        pieces_are_read_back(p);
        let now = ModelView { pieces: acc.pieces.push(p), ..acc };
        lemma_bytes_field(data, pos, 1, one, model_kinds(), model_step(), acc);
        lemma_pieces_written(data, pos + first.len(), pieces.drop_first(), now);
        assert(acc.pieces.push(p) + pieces.drop_first() == acc.pieces + pieces);
    }
}

/// A model that was written is read back, whatever its pieces and settings are.
pub proof fn models_are_read_back(m: ModelView)
    requires
        written_model(m).len() <= u64::MAX,
    ensures
        model_of(written_model(m)) == Ok::<ModelView, Fault>(m),
{
    let data = written_model(m);
    let (t, n) = (written_trainer(m.trainer), written_normalizer(m.normalizer));
    let (a, b, c) = (written_pieces(m.pieces), bytes_field(2, t), bytes_field(3, n));
    lemma_stands_alone(data);
    lemma_stands_both(data, 0, a, b + c);
    lemma_stands_both(data, a.len(), b, c);
    training_settings_are_read_back(m.trainer);
    normalization_settings_are_read_back(m.normalizer);
    let none = ModelView {
        pieces: Seq::empty(),
        trainer: TrainerSpec { unk_id: 0, byte_fallback: false, model_type: 1 },
        normalizer: NormalizerSpec {
            add_dummy_prefix: true,
            remove_extra_whitespaces: true,
            escape_whitespaces: true,
        },
    };
    let one = ModelView { pieces: none.pieces + m.pieces, ..none };
    assert(one.pieces == m.pieces);
    let two = ModelView { trainer: m.trainer, ..one };
    assert(t.len() <= b.len() && n.len() <= c.len());
    lemma_pieces_written(data, 0, m.pieces, none);
    lemma_bytes_field(data, a.len(), 2, t, model_kinds(), model_step(), one);
    lemma_bytes_field(data, a.len() + b.len(), 3, n, model_kinds(), model_step(), two);
    assert(data.len() == a.len() + b.len() + c.len());
}

} // verus!
