//! Reading protocol-buffer messages.

use crate::error::TtsError;
use crate::float::number::Binary32;
use crate::text::{decimal, joined, write_decimal};
use vstd::arithmetic::power2::*;
use vstd::prelude::*;

verus! {

/// Why a message cannot be read.
pub enum Fault {
    /// The varint at a position breaks off.
    End { at: nat },
    /// The varint at a position has more than ten bytes.
    TooLong { at: nat },
    /// A field at a position has an unknown wire type.
    WireType { wire_type: u64, at: nat },
    /// A field at a position reaches beyond the end.
    Overrun { at: nat },
    /// A string is not UTF-8.
    Utf8,
}

/// Whether an error reports a fault.
pub open spec fn reports(e: TtsError, fault: Fault) -> bool {
    match fault {
        Fault::End { at } => e matches TtsError::EndOfVarint(m) && m@
            == "unexpected end of varint at position "@ + decimal(at),
        Fault::TooLong { at } => e matches TtsError::VarintTooLong(m) && m@
            == "varint at position "@ + decimal(at) + " is too long"@,
        Fault::WireType { wire_type, at } => e matches TtsError::InvalidWireType(m) && m@
            == "invalid wire type "@ + decimal(wire_type as nat) + " at position "@ + decimal(at),
        Fault::Overrun { at } => e matches TtsError::Overrun(m) && m@
            == "field at position "@ + decimal(at) + " reaches beyond the end"@,
        Fault::Utf8 => e is FromUtf8,
    }
}

/// The base-128 number that starts at `pos`, least significant digit first,
/// and the position behind it. `index` digits came before.
pub open spec fn digits_at(data: Seq<u8>, pos: nat, index: nat) -> Option<(nat, nat)>
    decreases 10 - index,
{
    if pos >= data.len() || index >= 10 {
        None
    } else if data[pos as int] < 128 {
        Some((data[pos as int] as nat, pos + 1))
    } else {
        match digits_at(data, pos + 1, index + 1) {
            None => None,
            Some((rest, next)) => Some(((data[pos as int] - 128 + 128 * rest) as nat, next)),
        }
    }
}

/// Whether ten bytes from `pos` on all announce another one.
pub open spec fn overlong_at(data: Seq<u8>, pos: nat) -> bool {
    pos + 10 <= data.len() && forall|i: int| pos <= i < pos + 10 ==> #[trigger] data[i] >= 128
}

/// The varint at `pos`: its value in 64 bits and the position behind it.
pub open spec fn varint_at(data: Seq<u8>, pos: nat) -> Result<(u64, nat), Fault> {
    match digits_at(data, pos, 0) {
        Some((v, next)) => Ok(((v % 0x1_0000_0000_0000_0000) as u64, next)),
        None => if overlong_at(data, pos) {
            Err(Fault::TooLong { at: pos })
        } else {
            Err(Fault::End { at: pos })
        },
    }
}

/// A varint takes at least one byte, and none beyond the end.
pub proof fn lemma_digits_advance(data: Seq<u8>, pos: nat, index: nat)
    ensures
        digits_at(data, pos, index) matches Some((v, next)) ==> pos < next <= data.len(),
    decreases 10 - index,
{
    if pos < data.len() && index < 10 && data[pos as int] >= 128 {
        lemma_digits_advance(data, pos + 1, index + 1);
    }
}

fn end_of_varint(pos: usize) -> (e: TtsError)
    ensures
        reports(e, Fault::End { at: pos as nat }),
{
    let n = write_decimal(pos as u64);
    TtsError::EndOfVarint(joined("unexpected end of varint at position ", n.as_str()))
}

fn varint_too_long(pos: usize) -> (e: TtsError)
    ensures
        reports(e, Fault::TooLong { at: pos as nat }),
{
    let n = write_decimal(pos as u64);
    let head = joined("varint at position ", n.as_str());
    TtsError::VarintTooLong(joined(head.as_str(), " is too long"))
}

fn invalid_wire_type(wire_type: u64, pos: usize) -> (e: TtsError)
    ensures
        reports(e, Fault::WireType { wire_type, at: pos as nat }),
{
    let w = write_decimal(wire_type);
    let n = write_decimal(pos as u64);
    let head = joined("invalid wire type ", w.as_str());
    let head = joined(head.as_str(), " at position ");
    TtsError::InvalidWireType(joined(head.as_str(), n.as_str()))
}

fn overrun(pos: usize) -> (e: TtsError)
    ensures
        reports(e, Fault::Overrun { at: pos as nat }),
{
    let n = write_decimal(pos as u64);
    let head = joined("field at position ", n.as_str());
    TtsError::Overrun(joined(head.as_str(), " reaches beyond the end"))
}

/// Reads the varint at `pos`.
pub fn decode_varint(data: &[u8], pos: usize) -> (r: Result<(u64, usize), TtsError>)
    ensures
        match varint_at(data@, pos as nat) {
            Ok((value, next)) => r matches Ok((v, n)) && v == value && n == next,
            Err(fault) => r matches Err(e) && reports(e, fault),
        },
        r matches Ok((v, n)) ==> pos < n <= data@.len(),
{
    let mut acc: u128 = 0;
    let mut weight: u128 = 1;
    let mut index: u32 = 0;
    let mut p: usize = pos;
    proof {
        lemma2_to64();
        lemma_digits_advance(data@, pos as nat, 0);
    }
    while index < 10
        invariant
            index <= 10,
            p == pos + index,
            index > 0 ==> p <= data@.len(),
            weight == pow2((7 * index) as nat),
            acc < weight,
            forall|i: int| pos <= i < p ==> #[trigger] data@[i] >= 128,
            digits_at(data@, pos as nat, 0) matches Some((v, next)) ==> digits_at(
                data@,
                p as nat,
                index as nat,
            ) is Some && pos < next <= data@.len(),
            digits_at(data@, p as nat, index as nat) matches Some((v, next)) ==> digits_at(
                data@,
                pos as nat,
                0,
            ) == Some((acc as nat + weight as nat * v, next)),
        decreases 10 - index,
    {
        if p >= data.len() {
            return Err(end_of_varint(pos));
        }
        let byte = data[p];
        proof {
            lemma_pow2_adds((7 * index) as nat, 7);
            lemma2_to64();
            lemma2_to64_rest();
            if index < 9 {
                lemma_pow2_strictly_increases((7 * index) as nat, 63);
            }
            assert(weight <= 0x8000_0000_0000_0000);
            assert((byte as nat % 128) * weight <= 127 * weight) by (nonlinear_arith)
                requires
                    byte as nat % 128 <= 127,
            ;
        }
        if byte < 128 {
            let value: u128 = acc + (byte as u128) * weight;
            proof {
                assert(byte as nat * weight as nat == weight as nat * byte as nat) by (nonlinear_arith);
            }
            return Ok(((value % 0x1_0000_0000_0000_0000) as u64, p + 1));
        }
        proof {
            let (w, b) = (weight as nat, (byte - 128) as nat);
            assert(b * w <= 127 * w) by (nonlinear_arith)
                requires
                    b <= 127,
            ;
            if digits_at(data@, (p + 1) as nat, (index + 1) as nat) is Some {
                let v = digits_at(data@, (p + 1) as nat, (index + 1) as nat).unwrap().0;
                assert(w * (b + 128 * v) == b * w + (w * 128) * v) by (nonlinear_arith);
            }
        }
        acc = acc + ((byte - 128) as u128) * weight;
        weight = weight * 128;
        index = index + 1;
        p = p + 1;
    }
    Err(varint_too_long(pos))
}

/// How a field of a message is read.
#[derive(Clone, Copy, Debug, PartialEq, Eq, Structural)]
pub enum FieldKind {
    /// A varint.
    Number,
    /// A length and as many bytes.
    Bytes,
    /// Four bytes, if there are as many left.
    Score,
    /// A length, and a jump over as many bytes.
    Jump,
    /// By its wire type.
    Unknown,
}

/// What a field holds.
pub enum Content {
    Number(u64),
    Bytes(Seq<u8>),
    Score(Binary32),
    Nothing,
}

/// The position `n` bytes behind `next`, if it can be told.
pub open spec fn jump_from(at: nat, next: nat, n: nat) -> Result<nat, Fault> {
    if next + n > usize::MAX {
        Err(Fault::Overrun { at })
    } else {
        Ok(next + n)
    }
}

/// The position behind a field that is not known.
pub open spec fn skipped_at(data: Seq<u8>, pos: nat, wire_type: u64) -> Result<nat, Fault> {
    if wire_type == 0 {
        match varint_at(data, pos) {
            Ok((_, next)) => Ok(next),
            Err(fault) => Err(fault),
        }
    } else if wire_type == 1 {
        jump_from(pos, pos, 8)
    } else if wire_type == 2 {
        match varint_at(data, pos) {
            Ok((n, next)) => jump_from(pos, next, n as nat),
            Err(fault) => Err(fault),
        }
    } else if wire_type == 5 {
        jump_from(pos, pos, 4)
    } else {
        Err(Fault::WireType { wire_type, at: pos })
    }
}

/// The content of the field whose tag ends at `pos`, and the position behind it.
pub open spec fn content_at(
    data: Seq<u8>,
    pos: nat,
    kind: FieldKind,
    wire_type: u64,
) -> Result<(Content, nat), Fault> {
    match kind {
        FieldKind::Number => match varint_at(data, pos) {
            Ok((v, next)) => Ok((Content::Number(v), next)),
            Err(fault) => Err(fault),
        },
        FieldKind::Bytes => match varint_at(data, pos) {
            Ok((n, next)) => if next + n > data.len() {
                Err(Fault::Overrun { at: pos })
            } else {
                Ok((Content::Bytes(data.subrange(next as int, next + n)), next + n as nat))
            },
            Err(fault) => Err(fault),
        },
        FieldKind::Score => if pos + 4 <= data.len() {
            Ok((Content::Score(score_at(data, pos)), pos + 4))
        } else {
            Ok((Content::Nothing, pos))
        },
        FieldKind::Jump => match varint_at(data, pos) {
            Ok((n, next)) => match jump_from(pos, next, n as nat) {
                Ok(next) => Ok((Content::Nothing, next)),
                Err(fault) => Err(fault),
            },
            Err(fault) => Err(fault),
        },
        FieldKind::Unknown => match skipped_at(data, pos, wire_type) {
            Ok(next) => Ok((Content::Nothing, next)),
            Err(fault) => Err(fault),
        },
    }
}

/// The number whose four bytes start at `pos`, least significant byte first.
pub open spec fn score_at(data: Seq<u8>, pos: nat) -> Binary32 {
    Binary32 {
        bits: (data[pos as int] + 0x100 * data[pos as int + 1] + 0x1_0000 * data[pos as int + 2]
            + 0x100_0000 * data[pos as int + 3]) as u32,
    }
}

/// Skips a field that is not known.
pub fn skip_field(data: &[u8], pos: usize, wire_type: u64) -> (r: Result<usize, TtsError>)
    ensures
        match skipped_at(data@, pos as nat, wire_type) {
            Ok(next) => r matches Ok(n) && n == next,
            Err(fault) => r matches Err(e) && reports(e, fault),
        },
        r matches Ok(n) ==> n >= pos,
{
    if wire_type == 0 {
        let (_, next) = decode_varint(data, pos)?;
        Ok(next)
    } else if wire_type == 1 {
        jump(pos, pos, 8)
    } else if wire_type == 2 {
        let (n, next) = decode_varint(data, pos)?;
        jump(pos, next, n)
    } else if wire_type == 5 {
        jump(pos, pos, 4)
    } else {
        Err(invalid_wire_type(wire_type, pos))
    }
}

fn jump(at: usize, next: usize, n: u64) -> (r: Result<usize, TtsError>)
    ensures
        match jump_from(at as nat, next as nat, n as nat) {
            Ok(p) => r matches Ok(q) && q == p,
            Err(fault) => r matches Err(e) && reports(e, fault),
        },
{
    if n > (usize::MAX - next) as u64 {
        Err(overrun(at))
    } else {
        Ok(next + n as usize)
    }
}

/// A field that was read: the content of a field of kind `Bytes` is given by
/// where it starts, and it ends where the field does.
#[derive(Clone, Copy, Debug)]
pub enum Item {
    Number(u64),
    Bytes { start: usize },
    Score(Binary32),
    Nothing,
}

/// Whether an item stands for a content.
pub open spec fn holds(data: Seq<u8>, item: Item, next: nat, content: Content) -> bool {
    match item {
        Item::Number(v) => content == Content::Number(v),
        Item::Bytes { start } => start <= next <= data.len() && content == Content::Bytes(
            data.subrange(start as int, next as int),
        ),
        Item::Score(x) => content == Content::Score(x),
        Item::Nothing => content == Content::Nothing,
    }
}

/// Reads the content of a field.
pub fn read_content(data: &[u8], pos: usize, kind: FieldKind, wire_type: u64) -> (r: Result<
    (Item, usize),
    TtsError,
>)
    requires
        pos <= data@.len(),
    ensures
        match content_at(data@, pos as nat, kind, wire_type) {
            Ok((content, next)) => r matches Ok((item, n)) && n == next && holds(
                data@,
                item,
                next,
                content,
            ),
            Err(fault) => r matches Err(e) && reports(e, fault),
        },
        r matches Ok((item, n)) ==> n >= pos,
{
    match kind {
        FieldKind::Number => {
            let (v, next) = decode_varint(data, pos)?;
            Ok((Item::Number(v), next))
        },
        FieldKind::Bytes => {
            let (n, next) = decode_varint(data, pos)?;
            if n > (data.len() - next) as u64 {
                return Err(overrun(pos));
            }
            Ok((Item::Bytes { start: next }, next + n as usize))
        },
        FieldKind::Score => {
            if data.len() - pos >= 4 {
                let bits: u32 = data[pos] as u32 + 0x100 * data[pos + 1] as u32 + 0x1_0000
                    * data[pos + 2] as u32 + 0x100_0000 * data[pos + 3] as u32;
                Ok((Item::Score(Binary32 { bits }), pos + 4))
            } else {
                Ok((Item::Nothing, pos))
            }
        },
        FieldKind::Jump => {
            let (n, next) = decode_varint(data, pos)?;
            let next = jump(pos, next, n)?;
            Ok((Item::Nothing, next))
        },
        FieldKind::Unknown => {
            let next = skip_field(data, pos, wire_type)?;
            Ok((Item::Nothing, next))
        },
    }
}

/// The number of bytes from `pos` on.
pub open spec fn left(data: Seq<u8>, pos: nat) -> nat {
    if pos < data.len() {
        (data.len() - pos) as nat
    } else {
        0
    }
}

/// A message read from `pos` on: field after field, each read by the kind that
/// `kinds` gives it and taken up by `step`. The first fault ends it.
pub open spec fn message<A>(
    data: Seq<u8>,
    pos: nat,
    kinds: spec_fn(u64) -> FieldKind,
    step: spec_fn(A, u64, Content) -> Result<A, Fault>,
    acc: A,
) -> Result<A, Fault>
    decreases left(data, pos),
{
    if pos >= data.len() {
        Ok(acc)
    } else {
        match varint_at(data, pos) {
            Err(fault) => Err(fault),
            Ok((tag, next)) => match content_at(data, next, kinds(tag / 8), tag % 8) {
                Err(fault) => Err(fault),
                Ok((content, after)) => match step(acc, tag / 8, content) {
                    Err(fault) => Err(fault),
                    Ok(acc) => {
                        proof {
                            lemma_field_advances(data, pos, kinds(tag / 8));
                        }
                        message(data, after, kinds, step, acc)
                    },
                },
            },
        }
    }
}

/// A field takes at least one byte.
pub proof fn lemma_field_advances(data: Seq<u8>, pos: nat, kind: FieldKind)
    ensures
        varint_at(data, pos) matches Ok((tag, next)) ==> (content_at(
            data,
            next,
            kind,
            tag % 8,
        ) matches Ok((content, after)) ==> pos < after),
{
    lemma_digits_advance(data, pos, 0);
    if let Ok((tag, next)) = varint_at(data, pos) {
        lemma_digits_advance(data, next, 0);
    }
}

/// The bytes of a slice from `start` to `end`.
pub(crate) fn part(data: &[u8], start: usize, end: usize) -> (r: &[u8])
    requires
        start <= end <= data@.len(),
    ensures
        r@ == data@.subrange(start as int, end as int),
{
    &data[start..end]
}

} // verus!
