//! What goes into the models, and what is read out of them.

use crate::config::{PromptTemplates, TtsModelConfig};
use crate::speech_end::copy_frame;
use crate::tensor::{fits, has_room, holds_rows, rows_of, tensor_cells, tensor_shape, Tensor3};
use crate::text::{decimal, joined, write_decimal};
use vstd::prelude::*;

verus! {

/// A number of 64 bits as one of 32.
pub open spec fn short(id: i64) -> i32 {
    #[verifier::truncate]
    (id as i32)
}

fn shorten(id: i64) -> (r: i32)
    ensures
        r == short(id),
{
    #[verifier::truncate]
    (id as i32)
}

/// A row with a token, and padding in the audio channels.
pub open spec fn token_row(t: i32, pad: i32, n: nat) -> Seq<i32> {
    seq![t] + Seq::new(n, |i: int| pad)
}

/// One row for each token.
pub open spec fn token_rows(ids: Seq<i32>, pad: i32, n: nat) -> Seq<Seq<i32>> {
    ids.map_values(|t: i32| token_row(t, pad, n))
}

/// One row for each frame of the reference audio.
pub open spec fn reference_rows(codes: Option<Tensor3>, slot: i32, n: nat) -> Seq<Seq<i32>> {
    match codes {
        Some(t) => Seq::new(
            tensor_shape(t).1,
            |f: int|
                seq![slot] + Seq::new(n, |ch: int| tensor_cells(t)[(0nat, f as nat, ch as nat)]),
        ),
        None => Seq::empty(),
    }
}

/// The rows of the input: the prompt with the reference audio, the text, and
/// the start of the answer.
pub open spec fn input_rows(
    token_ids: Seq<i32>,
    ref_codes: Option<Tensor3>,
    config: TtsModelConfig,
    templates: PromptTemplates,
) -> Seq<Seq<i32>> {
    let n = config.n_vq as nat;
    let pad = short(config.audio_pad_token_id);
    let start = seq![token_row(short(config.audio_start_token_id), pad, n)];
    let end = seq![token_row(short(config.audio_end_token_id), pad, n)];
    token_rows(templates.user_prompt_prefix_token_ids@, pad, n) + start + reference_rows(
        ref_codes,
        short(config.audio_user_slot_token_id),
        n,
    ) + end + token_rows(templates.user_prompt_after_reference_token_ids@, pad, n) + token_rows(
        token_ids,
        pad,
        n,
    ) + token_rows(templates.assistant_prompt_prefix_token_ids@, pad, n) + start
}

/// Whether reference codes have a frame's channels.
pub open spec fn codes_fit(ref_codes: Option<Tensor3>, n: nat) -> bool {
    ref_codes matches Some(t) ==> tensor_shape(t).0 >= 1 && tensor_shape(t).2 >= n
}

/// Create a single row with token + padding.
pub fn row_i32(t: i32, pad: i32, n: usize) -> (r: Vec<i32>)
    ensures
        r@ == token_row(t, pad, n as nat),
{
    let mut r: Vec<i32> = Vec::new();
    r.push(t);
    let mut i: usize = 0;
    while i < n
        invariant
            i <= n,
            r@ == token_row(t, pad, i as nat),
        decreases n - i,
    {
        r.push(pad);
        i = i + 1;
        proof {
            assert(r@ == token_row(t, pad, i as nat));
        }
    }
    r
}

fn push_rows(rows: &mut Vec<Vec<i32>>, ids: &[i32], pad: i32, n: usize)
    ensures
        rows_of(final(rows)@) == rows_of(old(rows)@) + token_rows(ids@, pad, n as nat),
{
    let ghost before = rows_of(rows@);
    let ghost new = token_rows(ids@, pad, n as nat);
    let mut i: usize = 0;
    proof {
        assert(before + new.take(0) == before);
    }
    while i < ids.len()
        invariant
            i <= ids@.len(),
            new == token_rows(ids@, pad, n as nat),
            rows_of(rows@) == before + new.take(i as int),
        decreases ids.len() - i,
    {
        push_row(rows, row_i32(ids[i], pad, n));
        proof {
            assert(new[i as int] == token_row(ids@[i as int], pad, n as nat));
            assert((before + new.take(i as int)).push(new[i as int]) == before + new.take(i + 1));
        }
        i = i + 1;
    }
    proof {
        assert(new.take(i as int) == new);
    }
}

fn push_row(rows: &mut Vec<Vec<i32>>, row: Vec<i32>)
    ensures
        rows_of(final(rows)@) == rows_of(old(rows)@).push(row@),
        final(rows)@.len() == old(rows)@.len() + 1,
{
    let ghost before = rows@;
    rows.push(row);
    proof {
        assert(rows_of(rows@) == rows_of(before).push(row@));
    }
}

fn push_reference(rows: &mut Vec<Vec<i32>>, codes: &Tensor3, slot: i32, n: usize)
    requires
        codes_fit(Some(*codes), n as nat),
    ensures
        rows_of(final(rows)@) == rows_of(old(rows)@) + reference_rows(
            Some(*codes),
            slot,
            n as nat,
        ),
{
    let ghost before = rows_of(rows@);
    let ghost new = reference_rows(Some(*codes), slot, n as nat);
    let (batch, num_frames, channels) = codes.shape();
    let mut f: usize = 0;
    proof {
        assert(before + new.take(0) == before);
    }
    while f < num_frames
        invariant
            f <= num_frames == tensor_shape(*codes).1,
            codes_fit(Some(*codes), n as nat),
            new == reference_rows(Some(*codes), slot, n as nat),
            rows_of(rows@) == before + new.take(f as int),
        decreases num_frames - f,
    {
        let mut r: Vec<i32> = Vec::new();
        r.push(slot);
        let mut ch: usize = 0;
        while ch < n
            invariant
                ch <= n,
                f < tensor_shape(*codes).1,
                codes_fit(Some(*codes), n as nat),
                new == reference_rows(Some(*codes), slot, n as nat),
                r@ == new[f as int].take(ch + 1),
            decreases n - ch,
        {
            r.push(codes.at(0, f, ch));
            ch = ch + 1;
            proof {
                assert(r@ == new[f as int].take(ch + 1));
            }
        }
        proof {
            assert(r@ == new[f as int]);
        }
        push_row(rows, r);
        proof {
            assert((before + new.take(f as int)).push(new[f as int]) == before + new.take(f + 1));
        }
        f = f + 1;
    }
    proof {
        assert(new.take(f as int) == new);
    }
}

/// The rows of the input.
pub(crate) fn gather_rows(
    token_ids: &[i32],
    ref_codes: Option<&Tensor3>,
    config: &TtsModelConfig,
    prompt_templates: &PromptTemplates,
) -> (r: Vec<Vec<i32>>)
    requires
        codes_fit(
            match ref_codes {
                Some(t) => Some(*t),
                None => None,
            },
            config.n_vq as nat,
        ),
    ensures
        rows_of(r@) == input_rows(
            token_ids@,
            match ref_codes {
                Some(t) => Some(*t),
                None => None,
            },
            *config,
            *prompt_templates,
        ),
{
    let n = config.n_vq;
    let pad = shorten(config.audio_pad_token_id);
    let mut rows: Vec<Vec<i32>> = Vec::new();
    let ghost empty = rows_of(rows@);
    push_rows(&mut rows, prompt_templates.user_prompt_prefix_token_ids.as_slice(), pad, n);
    let ghost prefix = token_rows(prompt_templates.user_prompt_prefix_token_ids@, pad, n as nat);
    proof {
        assert(empty + prefix == prefix);
    }
    push_row(&mut rows, row_i32(shorten(config.audio_start_token_id), pad, n));
    let ghost start = seq![token_row(short(config.audio_start_token_id), pad, n as nat)];
    proof {
        assert(rows_of(rows@) == prefix + start);
    }
    let ghost before = rows_of(rows@);
    if let Some(codes) = ref_codes {
        push_reference(&mut rows, codes, shorten(config.audio_user_slot_token_id), n);
    } else {
        proof {
            assert(before + Seq::<Seq<i32>>::empty() == before);
        }
    }
    let ghost with_reference = rows_of(rows@);
    push_row(&mut rows, row_i32(shorten(config.audio_end_token_id), pad, n));
    proof {
        assert(rows_of(rows@) == with_reference + seq![
            token_row(short(config.audio_end_token_id), pad, n as nat),
        ]);
    }
    push_rows(&mut rows, prompt_templates.user_prompt_after_reference_token_ids.as_slice(), pad, n);
    push_rows(&mut rows, token_ids, pad, n);
    push_rows(&mut rows, prompt_templates.assistant_prompt_prefix_token_ids.as_slice(), pad, n);
    let ghost last = rows_of(rows@);
    push_row(&mut rows, row_i32(shorten(config.audio_start_token_id), pad, n));
    proof {
        assert(rows_of(rows@) == last + start);
    }
    rows
}

/// Build input tensor for prefill.
/// Constructs the multi-row input: special tokens + reference audio codes + text tokens + assistant prompt.
pub fn build_input(
    token_ids: &[i32],
    ref_codes: Option<&Tensor3>,
    config: &TtsModelConfig,
    prompt_templates: &PromptTemplates,
) -> (r: Tensor3)
    requires
        codes_fit(
            match ref_codes {
                Some(t) => Some(*t),
                None => None,
            },
            config.n_vq as nat,
        ),
        config.n_vq < usize::MAX,
        has_room(
            1,
            input_rows(
                token_ids@,
                match ref_codes {
                    Some(t) => Some(*t),
                    None => None,
                },
                *config,
                *prompt_templates,
            ).len(),
            (config.n_vq + 1) as nat,
        ),
    ensures
        holds_rows(
            r,
            input_rows(
                token_ids@,
                match ref_codes {
                    Some(t) => Some(*t),
                    None => None,
                },
                *config,
                *prompt_templates,
            ),
            (config.n_vq + 1) as nat,
        ),
{
    let rows = gather_rows(token_ids, ref_codes, config, prompt_templates);
    proof {
        assert(rows@.len() == rows_of(rows@).len());
    }
    Tensor3::from_rows(&rows, config.n_vq + 1)
}

/// The row that a frame is fed back in.
pub open spec fn next_row(frame: Seq<i32>, config: TtsModelConfig) -> Seq<i32> {
    seq![short(config.audio_assistant_slot_token_id)] + frame
}

/// Build the next input row for decode step.
pub fn build_next_row(frame: &[i32], config: &TtsModelConfig) -> (r: Tensor3)
    requires
        frame@.len() <= config.n_vq < usize::MAX,
        has_room(1, 1, (config.n_vq + 1) as nat),
    ensures
        holds_rows(r, seq![next_row(frame@, *config)], (config.n_vq + 1) as nat),
{
    let mut row: Vec<i32> = Vec::new();
    row.push(shorten(config.audio_assistant_slot_token_id));
    let mut rest = copy_frame(frame);
    row.append(&mut rest);
    let mut rows: Vec<Vec<i32>> = Vec::new();
    proof {
        assert(row@ == next_row(frame@, *config));
    }
    push_row(&mut rows, row);
    proof {
        assert(rows_of(rows@) == seq![next_row(frame@, *config)]);
    }
    Tensor3::from_rows(&rows, config.n_vq + 1)
}

/// How many frames of codes there are: as many as were computed, but no more
/// than there is room for.
pub open spec fn code_frames(code_length: i32, room: nat) -> nat {
    if code_length < 0 || code_length > room {
        room
    } else {
        code_length as nat
    }
}

/// Whether the codes that are kept are there, and a tensor can hold them.
pub fn code_length_fits(code_length: i32, frames: usize, n_vq: usize, data_len: usize) -> (r: bool)
    ensures
        r == (code_frames(code_length, frames as nat) * n_vq <= data_len && has_room(
            1,
            code_frames(code_length, frames as nat),
            n_vq as nat,
        )),
{
    let actual: usize = if code_length < 0 || code_length as usize > frames {
        frames
    } else {
        code_length as usize
    };
    if !fits(1, actual, n_vq) {
        return false;
    }
    proof {
        assert(actual * n_vq <= u128::MAX) by (nonlinear_arith)
            requires
                actual <= u64::MAX,
                n_vq <= u64::MAX,
        ;
        assert(0 <= actual * n_vq) by (nonlinear_arith);
    }
    (actual as u128) * (n_vq as u128) <= data_len as u128
}

/// The first rows of a table of codes.
pub open spec fn code_rows(data: Seq<i32>, frames: nat, n_vq: nat) -> Seq<Seq<i32>> {
    Seq::new(frames, |f: int| data.subrange(f * n_vq, f * n_vq + n_vq))
}

/// Reference codes out of the encoder's output, trimmed to their actual length.
pub fn trim_codes(code_length: i32, frames: usize, n_vq: usize, data: &[i32]) -> (r: Tensor3)
    requires
        code_frames(code_length, frames as nat) * n_vq <= data@.len(),
        has_room(1, code_frames(code_length, frames as nat), n_vq as nat),
    ensures
        holds_rows(
            r,
            code_rows(data@, code_frames(code_length, frames as nat), n_vq as nat),
            n_vq as nat,
        ),
{
    let actual: usize = if code_length < 0 || code_length as usize > frames {
        frames
    } else {
        code_length as usize
    };
    let mut rows: Vec<Vec<i32>> = Vec::new();
    let ghost all = code_rows(data@, actual as nat, n_vq as nat);
    let len: usize = data.len();
    let mut f: usize = 0;
    while f < actual
        invariant
            f <= actual,
            len == data@.len(),
            actual * n_vq <= data@.len(),
            all == code_rows(data@, actual as nat, n_vq as nat),
            rows_of(rows@) == all.take(f as int),
        decreases actual - f,
    {
        proof {
            assert((f + 1) * n_vq <= actual * n_vq) by (nonlinear_arith)
                requires
                    f + 1 <= actual,
            ;
            assert((f + 1) * n_vq == f * n_vq + n_vq) by (nonlinear_arith);
            assert(0 <= f * n_vq) by (nonlinear_arith);
        }
        let start: usize = f * n_vq;
        push_row(&mut rows, copy_frame(&data[start..start + n_vq]));
        proof {
            assert(rows_of(rows@) == all.take(f + 1));
        }
        f = f + 1;
    }
    proof {
        assert(all.take(f as int) == all);
        assert(rows@.len() == rows_of(rows@).len());
    }
    Tensor3::from_rows(&rows, n_vq)
}

/// The name of a numbered output.
pub fn numbered(name: &str, i: usize) -> (r: String)
    ensures
        r@ == name@ + decimal(i as nat),
{
    joined(name, write_decimal(i as u64).as_str())
}

/// The axes of an output with three axes; of one with four, the last two count
/// as one.
pub open spec fn three_axes(dims: Seq<usize>) -> Option<(nat, nat, nat)> {
    if dims.len() == 3 {
        Some((dims[0] as nat, dims[1] as nat, dims[2] as nat))
    } else if dims.len() == 4 {
        Some((dims[0] as nat, dims[1] as nat, (dims[2] * dims[3]) as nat))
    } else {
        None
    }
}

/// The axes of an output as three.
pub fn as_three_axes(dims: &[usize]) -> (r: Option<(usize, usize, usize)>)
    requires
        dims@.len() == 4 ==> dims@[2] * dims@[3] <= usize::MAX,
    ensures
        match three_axes(dims@) {
            Some((a, b, c)) => r matches Some(d) && d.0 == a && d.1 == b && d.2 == c,
            None => r is None,
        },
{
    if dims.len() == 3 {
        Some((dims[0], dims[1], dims[2]))
    } else if dims.len() == 4 {
        proof {
            assert(0 <= dims@[2] * dims@[3]) by (nonlinear_arith);
        }
        Some((dims[0], dims[1], dims[2] * dims[3]))
    } else {
        None
    }
}

/// The last row of the first of several tables of one shape.
pub fn last_row<T: Copy>(data: &[T], rows: usize, width: usize) -> (r: Vec<T>)
    requires
        rows > 0,
        rows * width <= data@.len(),
    ensures
        r@ == data@.subrange((rows - 1) * width, rows * width),
{
    let len: usize = data.len();
    proof {
        assert(rows * width == (rows - 1) * width + width) by (nonlinear_arith);
        assert(0 <= (rows - 1) * width) by (nonlinear_arith)
            requires
                rows > 0,
        ;
    }
    let start: usize = (rows - 1) * width;
    let mut r: Vec<T> = Vec::new();
    let mut i: usize = 0;
    while i < width
        invariant
            i <= width,
            len == data@.len(),
            start == (rows - 1) * width,
            start + width <= data@.len(),
            r@ == data@.subrange(start as int, start + i),
        decreases width - i,
    {
        r.push(data[start + i]);
        i = i + 1;
    }
    r
}

// --- What the input says ---

/// The number of frames of reference audio.
pub open spec fn reference_frames(codes: Option<Tensor3>) -> nat {
    match codes {
        Some(t) => tensor_shape(t).1,
        None => 0,
    }
}

/// The input read down its first column: the prompt, the start of the reference
/// audio, a slot for each of its frames, its end, the rest of the prompt, the
/// text, and the start of the answer.
pub proof fn first_column_is_the_dialogue(
    token_ids: Seq<i32>,
    ref_codes: Option<Tensor3>,
    config: TtsModelConfig,
    templates: PromptTemplates,
)
    ensures
        input_rows(token_ids, ref_codes, config, templates).map_values(|r: Seq<i32>| r[0])
            == templates.user_prompt_prefix_token_ids@ + seq![short(config.audio_start_token_id)]
            + Seq::new(
            reference_frames(ref_codes),
            |f: int| short(config.audio_user_slot_token_id),
        ) + seq![short(config.audio_end_token_id)]
            + templates.user_prompt_after_reference_token_ids@ + token_ids
            + templates.assistant_prompt_prefix_token_ids@ + seq![
            short(config.audio_start_token_id),
        ],
{
    let rows = input_rows(token_ids, ref_codes, config, templates);
    let column = templates.user_prompt_prefix_token_ids@ + seq![short(config.audio_start_token_id)]
        + Seq::new(
        reference_frames(ref_codes),
        |f: int| short(config.audio_user_slot_token_id),
    ) + seq![short(config.audio_end_token_id)] + templates.user_prompt_after_reference_token_ids@
        + token_ids + templates.assistant_prompt_prefix_token_ids@ + seq![
        short(config.audio_start_token_id),
    ];
    assert(rows.len() == column.len());
    assert(rows.map_values(|r: Seq<i32>| r[0]) == column);
}

/// The input read along a row: behind the first column there is a place for each
/// channel. The rows of the reference audio hold its codes there, frame by
/// frame, and all others the padding.
pub proof fn other_columns_are_the_audio(
    token_ids: Seq<i32>,
    ref_codes: Option<Tensor3>,
    config: TtsModelConfig,
    templates: PromptTemplates,
    i: int,
    ch: int,
)
    requires
        0 <= i < input_rows(token_ids, ref_codes, config, templates).len(),
        0 <= ch < config.n_vq,
    ensures
        ({
            let row = input_rows(token_ids, ref_codes, config, templates)[i];
            let f = i - templates.user_prompt_prefix_token_ids@.len() - 1;
            &&& row.len() == config.n_vq + 1
            &&& row[ch + 1] == if 0 <= f < reference_frames(ref_codes) {
                tensor_cells(ref_codes.unwrap())[(0nat, f as nat, ch as nat)]
            } else {
                short(config.audio_pad_token_id)
            }
        }),
{
}

/// An ID of 64 bits that fits in 32 is kept.
pub proof fn short_keeps_ids(id: i64)
    requires
        i32::MIN <= id <= i32::MAX,
    ensures
        short(id) == id,
{
}

/// The codes of reference audio are read frame by frame, and in each frame
/// channel by channel, as far as the audio goes: where the encoder gives no length
/// or one beyond the room, there is as much as there is room for.
pub proof fn codes_are_read_in_order(
    code_length: i32,
    room: nat,
    n_vq: nat,
    data: Seq<i32>,
    f: int,
    ch: int,
)
    requires
        code_frames(code_length, room) * n_vq <= data.len(),
        0 <= f < code_frames(code_length, room),
        0 <= ch < n_vq,
    ensures
        0 <= code_length <= room ==> code_frames(code_length, room) == code_length,
        !(0 <= code_length <= room) ==> code_frames(code_length, room) == room,
        ({
            let rows = code_rows(data, code_frames(code_length, room), n_vq);
            &&& rows.len() == code_frames(code_length, room)
            &&& rows[f].len() == n_vq
            &&& rows[f][ch] == data[f * n_vq + ch]
        }),
{
    let frames = code_frames(code_length, room);
    assert((f + 1) * n_vq <= frames * n_vq) by (nonlinear_arith)
        requires
            f + 1 <= frames,
    ;
    assert((f + 1) * n_vq == f * n_vq + n_vq) by (nonlinear_arith);
    assert(f * n_vq >= 0) by (nonlinear_arith)
        requires
            f >= 0,
    ;
}

/// Three axes take as many elements as four did, and keep the first two.
pub proof fn axes_keep_their_room(dims: Seq<usize>)
    ensures
        dims.len() == 4 ==> (three_axes(dims) matches Some((a, b, c)) && a == dims[0] && b == dims[1]
            && c == dims[2] * dims[3]),
        dims.len() == 3 ==> (three_axes(dims) matches Some((a, b, c)) && a == dims[0] && b == dims[1]
            && c == dims[2]),
        dims.len() != 3 && dims.len() != 4 ==> three_axes(dims) is None,
{
    if dims.len() == 4 {
        assert(dims[2] * dims[3] >= 0) by (nonlinear_arith)
            requires
                dims[2] >= 0,
                dims[3] >= 0,
        ;
    }
}

} // verus!
