//! What holds of model files.

use crate::sp_model::{
    infinity, least_score, model_kinds, model_of, model_step, ModelView, NormalizerSpec,
    TrainerSpec,
};
use crate::vocabulary::{lemma_place_of, place_of, PieceView};
use crate::wire::{
    content_at, digits_at, left, lemma_field_advances, message, varint_at, Content, Fault,
    FieldKind,
};
use vstd::prelude::*;

verus! {

// --- Files one after the other ---

/// Whether the bytes from `pos` on are whole fields.
pub open spec fn are_whole_fields(data: Seq<u8>, pos: nat, kinds: spec_fn(u64) -> FieldKind) -> bool
    decreases left(data, pos),
{
    if pos >= data.len() {
        pos == data.len()
    } else {
        match varint_at(data, pos) {
            Err(_) => false,
            Ok((tag, next)) => match content_at(data, next, kinds(tag / 8), tag % 8) {
                Err(_) => false,
                Ok((_, after)) => {
                    proof {
                        lemma_field_advances(data, pos, kinds(tag / 8));
                    }
                    after <= data.len() && are_whole_fields(data, after, kinds)
                },
            },
        }
    }
}

/// Whether a field with a number is among the fields from `pos` on.
pub open spec fn has_field(
    data: Seq<u8>,
    pos: nat,
    kinds: spec_fn(u64) -> FieldKind,
    field: u64,
) -> bool
    decreases left(data, pos),
{
    if pos >= data.len() {
        false
    } else {
        match varint_at(data, pos) {
            Err(_) => false,
            Ok((tag, next)) => match content_at(data, next, kinds(tag / 8), tag % 8) {
                Err(_) => false,
                Ok((_, after)) => {
                    proof {
                        lemma_field_advances(data, pos, kinds(tag / 8));
                    }
                    tag / 8 == field || has_field(data, after, kinds, field)
                },
            },
        }
    }
}

/// Digits are read the same wherever they stand.
proof fn lemma_digits_within(a: Seq<u8>, data: Seq<u8>, offset: nat, pos: nat, index: nat)
    requires
        offset + a.len() <= data.len(),
        forall|i: int| 0 <= i < a.len() ==> #[trigger] a[i] == data[i + offset],
        digits_at(a, pos, index) is Some,
    ensures
        digits_at(data, pos + offset, index) == Some(
            (digits_at(a, pos, index).unwrap().0, digits_at(a, pos, index).unwrap().1 + offset),
        ),
    decreases 10 - index,
{
    assert(a[pos as int] == data[(pos + offset) as int]);
    if a[pos as int] >= 128 {
        lemma_digits_within(a, data, offset, pos + 1, index + 1);
    }
}

proof fn lemma_varint_within(a: Seq<u8>, data: Seq<u8>, offset: nat, pos: nat)
    requires
        offset + a.len() <= data.len(),
        forall|i: int| 0 <= i < a.len() ==> #[trigger] a[i] == data[i + offset],
        varint_at(a, pos) is Ok,
    ensures
        varint_at(data, pos + offset) == Ok::<(u64, nat), Fault>(
            (varint_at(a, pos)->Ok_0.0, varint_at(a, pos)->Ok_0.1 + offset),
        ),
{
    lemma_digits_within(a, data, offset, pos, 0);
}

/// A field of a model file is read the same wherever it stands, if it ends
/// within the file.
proof fn lemma_content_within(
    a: Seq<u8>,
    data: Seq<u8>,
    offset: nat,
    pos: nat,
    kind: FieldKind,
    wire_type: u64,
)
    requires
        offset + a.len() <= data.len() <= usize::MAX,
        forall|i: int| 0 <= i < a.len() ==> #[trigger] a[i] == data[i + offset],
        kind == FieldKind::Bytes || kind == FieldKind::Unknown,
        content_at(a, pos, kind, wire_type) is Ok,
        content_at(a, pos, kind, wire_type)->Ok_0.1 <= a.len(),
    ensures
        content_at(data, pos + offset, kind, wire_type) == Ok::<(Content, nat), Fault>(
            (
                content_at(a, pos, kind, wire_type)->Ok_0.0,
                content_at(a, pos, kind, wire_type)->Ok_0.1 + offset,
            ),
        ),
{
    if kind == FieldKind::Bytes || wire_type == 0 || wire_type == 2 {
        lemma_varint_within(a, data, offset, pos);
        let (n, next) = varint_at(a, pos)->Ok_0;
        if kind == FieldKind::Bytes {
            assert(a.subrange(next as int, next + n) == data.subrange(
                (next + offset) as int,
                next + offset + n,
            ));
        }
    }
}

/// What is read of whole fields does not depend on where they stand, nor on
/// what follows them.
#[verifier::rlimit(50)]
proof fn lemma_message_within<A>(
    a: Seq<u8>,
    data: Seq<u8>,
    offset: nat,
    pos: nat,
    step: spec_fn(A, u64, Content) -> Result<A, Fault>,
    acc: A,
)
    requires
        offset + a.len() <= data.len() <= usize::MAX,
        forall|i: int| 0 <= i < a.len() ==> #[trigger] a[i] == data[i + offset],
        pos <= a.len(),
        are_whole_fields(a, pos, model_kinds()),
    ensures
        message(data, pos + offset, model_kinds(), step, acc) == match message(
            a,
            pos,
            model_kinds(),
            step,
            acc,
        ) {
            Ok(x) => message(data, a.len() + offset, model_kinds(), step, x),
            Err(fault) => Err(fault),
        },
    decreases left(a, pos),
{
    let kinds = model_kinds();
    if pos < a.len() {
        let (tag, next) = varint_at(a, pos)->Ok_0;
        let (content, after) = content_at(a, next, kinds(tag / 8), tag % 8)->Ok_0;
        lemma_varint_within(a, data, offset, pos);
        lemma_content_within(a, data, offset, next, kinds(tag / 8), tag % 8);
        lemma_field_advances(a, pos, kinds(tag / 8));
        if let Ok(x) = step(acc, tag / 8, content) {
            lemma_message_within(a, data, offset, after, step, x);
        }
    }
}

/// What a file adds to a model depends on the model only in that it is added.
#[verifier::rlimit(50)]
proof fn lemma_model_adds(data: Seq<u8>, pos: nat, x: ModelView, y: ModelView)
    requires
        message(data, pos, model_kinds(), model_step(), x) is Ok,
    ensures
        ({
            let m = message(data, pos, model_kinds(), model_step(), x)->Ok_0;
            &&& m.pieces.len() >= x.pieces.len()
            &&& !has_field(data, pos, model_kinds(), 2) ==> m.trainer == x.trainer
            &&& !has_field(data, pos, model_kinds(), 3) ==> m.normalizer == x.normalizer
            &&& message(data, pos, model_kinds(), model_step(), y) == Ok::<ModelView, Fault>(
                ModelView {
                    pieces: y.pieces + m.pieces.skip(x.pieces.len() as int),
                    trainer: if has_field(data, pos, model_kinds(), 2) {
                        m.trainer
                    } else {
                        y.trainer
                    },
                    normalizer: if has_field(data, pos, model_kinds(), 3) {
                        m.normalizer
                    } else {
                        y.normalizer
                    },
                },
            )
        }),
    decreases left(data, pos),
{
    let m = message(data, pos, model_kinds(), model_step(), x)->Ok_0;
    if pos >= data.len() {
        assert(m == x);
        assert(y.pieces + m.pieces.skip(x.pieces.len() as int) == y.pieces);
    } else {
        let kinds = model_kinds();
        let (tag, next) = varint_at(data, pos)->Ok_0;
        let (content, after) = content_at(data, next, kinds(tag / 8), tag % 8)->Ok_0;
        lemma_field_advances(data, pos, kinds(tag / 8));
        let x2 = model_step()(x, tag / 8, content)->Ok_0;
        let y2 = model_step()(y, tag / 8, content)->Ok_0;
        lemma_model_adds(data, after, x2, y2);
        let added = m.pieces.skip(x2.pieces.len() as int);
        if x2.pieces.len() > x.pieces.len() {
            let p = x2.pieces.last();
            assert(x2.pieces == x.pieces.push(p));
            assert(y2.pieces == y.pieces.push(p));
            lemma_model_keeps(data, after, x2);
            assert(m.pieces[x.pieces.len() as int] == x2.pieces[x.pieces.len() as int]);
            assert(y2.pieces + added == y.pieces + m.pieces.skip(x.pieces.len() as int));
        } else {
            assert(x2.pieces == x.pieces && y2.pieces == y.pieces);
        }
    }
}

/// The pieces that a model has, it keeps.
proof fn lemma_model_keeps(data: Seq<u8>, pos: nat, x: ModelView)
    requires
        message(data, pos, model_kinds(), model_step(), x) is Ok,
    ensures
        message(data, pos, model_kinds(), model_step(), x)->Ok_0.pieces.len() >= x.pieces.len(),
        forall|i: int|
            0 <= i < x.pieces.len() ==> message(
                data,
                pos,
                model_kinds(),
                model_step(),
                x,
            )->Ok_0.pieces[i] == #[trigger] x.pieces[i],
    decreases left(data, pos),
{
    let m = message(data, pos, model_kinds(), model_step(), x)->Ok_0;
    if pos < data.len() {
        let kinds = model_kinds();
        let (tag, next) = varint_at(data, pos)->Ok_0;
        let (content, after) = content_at(data, next, kinds(tag / 8), tag % 8)->Ok_0;
        lemma_field_advances(data, pos, kinds(tag / 8));
        let x2 = model_step()(x, tag / 8, content)->Ok_0;
        lemma_model_keeps(data, after, x2);
        assert forall|i: int| 0 <= i < x.pieces.len() implies m.pieces[i]
            == #[trigger] x.pieces[i] by {
            assert(x2.pieces[i] == x.pieces[i]);
        }
    }
}

/// Two files one after the other are a file: it has the pieces of both, and the
/// settings of the second where that has any, and else those of the first.
pub proof fn files_add_up(a: Seq<u8>, b: Seq<u8>, first: ModelView, second: ModelView)
    requires
        (a + b).len() <= usize::MAX,
        are_whole_fields(a, 0, model_kinds()),
        are_whole_fields(b, 0, model_kinds()),
        model_of(a) == Ok::<ModelView, Fault>(first),
        model_of(b) == Ok::<ModelView, Fault>(second),
    ensures
        model_of(a + b) == Ok::<ModelView, Fault>(
            ModelView {
                pieces: first.pieces + second.pieces,
                trainer: if has_field(b, 0, model_kinds(), 2) {
                    second.trainer
                } else {
                    first.trainer
                },
                normalizer: if has_field(b, 0, model_kinds(), 3) {
                    second.normalizer
                } else {
                    first.normalizer
                },
            },
        ),
{
    let data = a + b;
    let none = ModelView {
        pieces: Seq::empty(),
        trainer: TrainerSpec { unk_id: 0, byte_fallback: false, model_type: 1 },
        normalizer: NormalizerSpec {
            add_dummy_prefix: true,
            remove_extra_whitespaces: true,
            escape_whitespaces: true,
        },
    };
    lemma_message_within(a, data, 0, 0, model_step(), none);
    lemma_message_within(b, data, a.len(), 0, model_step(), first);
    lemma_model_adds(b, 0, none, first);
    assert(second.pieces.skip(0) == second.pieces);
}

// --- The vocabulary ---

/// The least score is at most every score, and one of them.
pub proof fn least_score_is_least(pieces: Seq<PieceView>)
    requires
        forall|i: int| 0 <= i < pieces.len() ==> !(#[trigger] pieces[i]).score.is_nan(),
    ensures
        forall|i: int|
            0 <= i < pieces.len() ==> !least_score(pieces).gt((#[trigger] pieces[i]).score),
        pieces.len() > 0 ==> exists|i: int|
            0 <= i < pieces.len() && (#[trigger] pieces[i]).score == least_score(pieces),
        !least_score(pieces).is_nan(),
    decreases pieces.len(),
{
    if pieces.len() > 0 {
        let front = pieces.drop_last();
        let n = pieces.len() - 1;
        assert forall|i: int| 0 <= i < front.len() implies !(
        #[trigger] front[i]).score.is_nan() by {
            assert(front[i] == pieces[i]);
        }
        least_score_is_least(front);
        let so_far = least_score(front);
        let last = pieces[n].score;
        assert(!last.is_nan());
        assert forall|i: int| 0 <= i < pieces.len() implies !least_score(pieces).gt(
            (#[trigger] pieces[i]).score,
        ) by {
            if i < n {
                assert(pieces[i] == front[i]);
                assert(!so_far.gt(front[i].score));
                assert(!pieces[i].score.is_nan());
            }
        }
        if least_score(pieces) == last {
            assert(pieces[n].score == least_score(pieces));
        } else {
            assert(front.len() > 0) by {
                if front.len() == 0 {
                    assert(so_far == infinity());
                }
            }
            let j = choose|i: int|
                0 <= i < front.len() && (#[trigger] front[i]).score == least_score(front);
            assert(pieces[j].score == least_score(pieces));
        }
    }
}

/// A text has the place of the last piece with it, and every piece's text has one.
pub proof fn texts_have_places(pieces: Seq<PieceView>, text: Seq<char>)
    ensures
        place_of(pieces, text) is Some <==> exists|i: int|
            0 <= i < pieces.len() && (#[trigger] pieces[i]).text == text,
        place_of(pieces, text) matches Some(i) ==> i < pieces.len() && pieces[i as int].text == text
            && forall|j: int| i < j < pieces.len() ==> (#[trigger] pieces[j]).text != text,
{
    lemma_place_of(pieces, text);
}

} // verus!
