//! Streaming decoding of frames to audio.

use crate::config::{AttentionCacheSpec, TransformerOffsetSpec};
use crate::float::number::Binary64;
use crate::tensor::{has_room, holds_rows, rows_of, Tensor3};
use vstd::prelude::*;

verus! {

// --- The budget ---

/// How far the decoded audio is ahead of playback, in seconds, given the time
/// since the first of it.
pub open spec fn lead_seconds(emitted: nat, sample_rate: nat, elapsed: Option<Binary64>) -> Binary64 {
    match elapsed {
        None => Binary64 { bits: 0 },
        Some(seconds) => Binary64::of(emitted).div_spec(Binary64::of(sample_rate)).sub_spec(
            seconds,
        ),
    }
}

/// How many frames are decoded at once at a lead: 1 below 0.20 seconds, 2 below
/// 0.55, 4 below 1.10, and 8 from there on.
pub open spec fn budget_at(lead: Binary64) -> nat {
    if (Binary64 { bits: 0x3fc9_9999_9999_999a }).gt(lead) {
        1
    } else if (Binary64 { bits: 0x3fe1_9999_9999_999a }).gt(lead) {
        2
    } else if (Binary64 { bits: 0x3ff1_9999_9999_999a }).gt(lead) {
        4
    } else {
        8
    }
}

/// How many frames are decoded at once; before the first audio, one.
pub open spec fn frame_budget(emitted: nat, sample_rate: nat, elapsed: Option<Binary64>) -> nat {
    if elapsed is None {
        1
    } else {
        budget_at(lead_seconds(emitted, sample_rate, elapsed))
    }
}

/// Compute streaming decode frame budget based on lead time. `elapsed` are the
/// seconds since the first audio.
pub fn resolve_stream_decode_frame_budget(
    emitted_samples_total: usize,
    sample_rate: u32,
    elapsed: Option<Binary64>,
) -> (r: usize)
    ensures
        r == frame_budget(emitted_samples_total as nat, sample_rate as nat, elapsed),
{
    let lead = compute_stream_lead_seconds(emitted_samples_total, sample_rate, elapsed);
    if elapsed.is_none() || (Binary64 { bits: 0x3fc9_9999_9999_999a }).exceeds(lead) {
        1
    } else if (Binary64 { bits: 0x3fe1_9999_9999_999a }).exceeds(lead) {
        2
    } else if (Binary64 { bits: 0x3ff1_9999_9999_999a }).exceeds(lead) {
        4
    } else {
        8
    }
}

/// Compute how far ahead the decoded audio is from real-time playback.
pub fn compute_stream_lead_seconds(
    emitted_samples_total: usize,
    sample_rate: u32,
    elapsed: Option<Binary64>,
) -> (r: Binary64)
    ensures
        r == lead_seconds(emitted_samples_total as nat, sample_rate as nat, elapsed),
{
    match elapsed {
        None => Binary64 { bits: 0 },
        Some(seconds) => Binary64::from_integer(emitted_samples_total as u64).over(
            Binary64::from_integer(sample_rate as u64),
        ).minus(seconds),
    }
}

/// The budget scales from 1 to 8, and never falls as the lead grows.
pub proof fn budget_grows_with_lead(less: Binary64, more: Binary64)
    requires
        !less.gt(more),
        !less.signed().is_nan(crate::float::format::binary64()),
        !more.signed().is_nan(crate::float::format::binary64()),
    ensures
        1 <= budget_at(less) <= budget_at(more) <= 8,
{
}

/// How many frames go together, by how far the audio is ahead: one below a lead
/// of 0.20 seconds, two below 0.55, four below 1.10, and else eight. The lead is
/// the time that the samples take less the time since the first of them; before
/// there are any, one frame goes by itself.
pub proof fn budget_by_lead(emitted: nat, sample_rate: nat, seconds: Binary64)
    ensures
        frame_budget(emitted, sample_rate, None) == 1,
        ({
            let lead = Binary64::of(emitted).div_spec(Binary64::of(sample_rate)).sub_spec(seconds);
            let budget = frame_budget(emitted, sample_rate, Some(seconds));
            let below_20 = (Binary64 { bits: 0x3fc9_9999_9999_999a }).gt(lead);
            let below_55 = (Binary64 { bits: 0x3fe1_9999_9999_999a }).gt(lead);
            let below_110 = (Binary64 { bits: 0x3ff1_9999_9999_999a }).gt(lead);
            &&& below_20 <==> budget == 1
            &&& !below_20 && below_55 <==> budget == 2
            &&& !below_55 && below_110 <==> budget == 4
            &&& !below_110 <==> budget == 8
        }),
{
    let lead = Binary64::of(emitted).div_spec(Binary64::of(sample_rate)).sub_spec(seconds);
    assert((Binary64 { bits: 0x3fe1_9999_9999_999a }).gt(Binary64 { bits: 0x3fc9_9999_9999_999a }));
    assert((Binary64 { bits: 0x3ff1_9999_9999_999a }).gt(Binary64 { bits: 0x3fe1_9999_9999_999a }));
}

// --- The state ---

/// What an attention layer of the decoder remembers. `T` is the type of the
/// cached numbers.
pub struct AttentionState<T> {
    pub offset: Vec<i32>,
    pub keys: Vec<T>,
    pub values: Vec<T>,
    pub positions: Vec<i32>,
}

/// Streaming codec decode session.
/// Maintains state across multiple decode steps for real-time audio generation.
pub struct StreamingDecodeSession<T> {
    pub transformer_specs: Vec<TransformerOffsetSpec>,
    pub attention_specs: Vec<AttentionCacheSpec>,
    pub n_vq: usize,
    pub transformer_offsets: Vec<Vec<i32>>,
    pub attention: Vec<AttentionState<T>>,
}

/// The number of elements of a cache.
pub open spec fn cache_size(layer: AttentionCacheSpec) -> nat {
    (layer.cache_shape@[0] * layer.cache_shape@[1] * layer.cache_shape@[2]
        * layer.cache_shape@[3]) as nat
}

/// The number of positions that a cache remembers.
pub open spec fn positions_size(layer: AttentionCacheSpec) -> nat {
    (layer.positions_shape@[0] * layer.positions_shape@[1]) as nat
}

/// Whether a specification gives every axis, and its sizes can be counted.
pub open spec fn is_sized(layer: AttentionCacheSpec) -> bool {
    &&& layer.offset_shape@.len() >= 1
    &&& layer.cache_shape@.len() >= 4
    &&& layer.positions_shape@.len() >= 2
    &&& layer.cache_shape@[0] * layer.cache_shape@[1] <= usize::MAX
    &&& layer.cache_shape@[0] * layer.cache_shape@[1] * layer.cache_shape@[2] <= usize::MAX
    &&& cache_size(layer) <= usize::MAX
    &&& positions_size(layer) <= usize::MAX
}

/// Whether a layer's state has the sizes that its specification gives.
pub open spec fn fits_spec<T>(state: AttentionState<T>, layer: AttentionCacheSpec) -> bool {
    &&& state.keys@.len() == cache_size(layer)
    &&& state.values@.len() == cache_size(layer)
    &&& state.positions@.len() == positions_size(layer)
}

/// Whether all elements are one value.
pub open spec fn all_are<T>(list: Seq<T>, n: nat, v: T) -> bool {
    list == Seq::new(n, |i: int| v)
}

/// Whether a layer's state is as at the start: nothing is cached.
pub open spec fn is_fresh<T>(state: AttentionState<T>, layer: AttentionCacheSpec, zero: T) -> bool {
    &&& all_are(state.offset@, layer.offset_shape@[0] as nat, 0i32)
    &&& all_are(state.keys@, cache_size(layer), zero)
    &&& all_are(state.values@, cache_size(layer), zero)
    &&& all_are(state.positions@, positions_size(layer), -1i32)
}

fn filled<T: Copy>(n: usize, v: T) -> (r: Vec<T>)
    ensures
        all_are(r@, n as nat, v),
{
    let mut r: Vec<T> = Vec::new();
    let mut i: usize = 0;
    while i < n
        invariant
            i <= n,
            r@.len() == i,
            forall|j: int| 0 <= j < i ==> r@[j] == v,
        decreases n - i,
    {
        r.push(v);
        i = i + 1;
    }
    proof {
        assert(r@ == Seq::new(n as nat, |i: int| v));
    }
    r
}

fn product(a: usize, b: usize) -> (r: Option<usize>)
    ensures
        match r {
            Some(n) => n == a * b,
            None => a * b > usize::MAX,
        },
{
    proof {
        assert(0 <= a * b <= u128::MAX) by (nonlinear_arith)
            requires
                a <= u64::MAX,
                b <= u64::MAX,
        ;
    }
    let p: u128 = a as u128 * b as u128;
    if p > usize::MAX as u128 {
        None
    } else {
        Some(p as usize)
    }
}

/// Whether a specification gives every axis, and its sizes can be counted.
pub fn check_sized(layer: &AttentionCacheSpec) -> (r: bool)
    ensures
        r == is_sized(*layer),
{
    if layer.offset_shape.len() < 1 || layer.cache_shape.len() < 4
        || layer.positions_shape.len() < 2 {
        return false;
    }
    let shape = &layer.cache_shape;
    let ab = match product(shape[0], shape[1]) {
        Some(n) => n,
        None => {
            return false;
        },
    };
    let abc = match product(ab, shape[2]) {
        Some(n) => n,
        None => {
            return false;
        },
    };
    let abcd = product(abc, shape[3]);
    let places = product(layer.positions_shape[0], layer.positions_shape[1]);
    proof {
        assert(0 <= abc * shape@[3]) by (nonlinear_arith);
        assert(0 <= layer.positions_shape@[0] * layer.positions_shape@[1]) by (nonlinear_arith);
    }
    abcd.is_some() && places.is_some()
}

impl<T: Copy> AttentionState<T> {
    /// The state at the start, with `zero` in every place of the cache.
    pub fn new(layer: &AttentionCacheSpec, zero: T) -> (r: Self)
        requires
            is_sized(*layer),
        ensures
            is_fresh(r, *layer, zero),
            fits_spec(r, *layer),
    {
        let shape = &layer.cache_shape;
        proof {
            assert(0 <= shape@[0] * shape@[1]) by (nonlinear_arith);
            let ab = shape@[0] * shape@[1];
            assert(0 <= ab * shape@[2]) by (nonlinear_arith)
                requires
                    0 <= ab,
            ;
            let abc = ab * shape@[2];
            assert(0 <= abc * shape@[3]) by (nonlinear_arith)
                requires
                    0 <= abc,
            ;
            assert(0 <= layer.positions_shape@[0] * layer.positions_shape@[1])
                by (nonlinear_arith);
        }
        let size: usize = shape[0] * shape[1] * shape[2] * shape[3];
        let places: usize = layer.positions_shape[0] * layer.positions_shape[1];
        AttentionState {
            offset: filled(layer.offset_shape[0], 0i32),
            keys: filled(size, zero),
            values: filled(size, zero),
            positions: filled(places, -1i32),
        }
    }
}

impl<T: Copy> StreamingDecodeSession<T> {
    /// There is a state for each specification, of the sizes that it gives.
    pub open spec fn wf(self) -> bool {
        &&& self.transformer_offsets@.len() == self.transformer_specs@.len()
        &&& self.attention@.len() == self.attention_specs@.len()
        &&& forall|i: int|
            0 <= i < self.attention@.len() ==> fits_spec(
                #[trigger] self.attention@[i],
                self.attention_specs@[i],
            )
    }

    /// A session at the start, with `zero` in every place of the caches.
    pub fn new(
        transformer_specs: Vec<TransformerOffsetSpec>,
        attention_specs: Vec<AttentionCacheSpec>,
        n_vq: usize,
        zero: T,
    ) -> (r: Self)
        requires
            forall|i: int|
                0 <= i < transformer_specs@.len() ==> (
                #[trigger] transformer_specs@[i]).shape@.len() >= 1,
            forall|i: int|
                0 <= i < attention_specs@.len() ==> is_sized(#[trigger] attention_specs@[i]),
        ensures
            r.wf(),
            r.transformer_specs == transformer_specs,
            r.attention_specs == attention_specs,
            r.n_vq == n_vq,
            forall|i: int|
                0 <= i < transformer_specs@.len() ==> all_are(
                    (#[trigger] r.transformer_offsets@[i])@,
                    transformer_specs@[i].shape@[0] as nat,
                    0i32,
                ),
            forall|i: int|
                0 <= i < attention_specs@.len() ==> is_fresh(
                    #[trigger] r.attention@[i],
                    attention_specs@[i],
                    zero,
                ),
    {
        let mut transformer_offsets: Vec<Vec<i32>> = Vec::new();
        let mut i: usize = 0;
        while i < transformer_specs.len()
            invariant
                i <= transformer_specs@.len(),
                transformer_offsets@.len() == i,
                forall|i: int|
                    0 <= i < transformer_specs@.len() ==> (
                    #[trigger] transformer_specs@[i]).shape@.len() >= 1,
                forall|j: int|
                    0 <= j < i ==> all_are(
                        (#[trigger] transformer_offsets@[j])@,
                        transformer_specs@[j].shape@[0] as nat,
                        0i32,
                    ),
            decreases transformer_specs.len() - i,
        {
            proof {
                assert(transformer_specs@[i as int].shape@.len() >= 1);
            }
            transformer_offsets.push(filled(transformer_specs[i].shape[0], 0i32));
            i = i + 1;
        }
        let mut attention: Vec<AttentionState<T>> = Vec::new();
        let mut k: usize = 0;
        while k < attention_specs.len()
            invariant
                k <= attention_specs@.len(),
                attention@.len() == k,
                forall|i: int|
                    0 <= i < attention_specs@.len() ==> is_sized(#[trigger] attention_specs@[i]),
                forall|j: int|
                    0 <= j < k ==> is_fresh(#[trigger] attention@[j], attention_specs@[j], zero)
                        && fits_spec(attention@[j], attention_specs@[j]),
            decreases attention_specs.len() - k,
        {
            attention.push(AttentionState::new(&attention_specs[k], zero));
            k = k + 1;
        }
        StreamingDecodeSession {
            transformer_specs,
            attention_specs,
            n_vq,
            transformer_offsets,
            attention,
        }
    }

    /// The codes to decode, or none if there are no frames. Frames are cut off
    /// or filled up with zeros to the session's number of channels.
    pub fn frame_codes(&self, frame_rows: &Vec<Vec<i32>>) -> (r: Option<Tensor3>)
        requires
            has_room(1, frame_rows@.len(), self.n_vq as nat),
        ensures
            match r {
                Some(codes) => frame_rows@.len() > 0 && holds_rows(
                    codes,
                    rows_of(frame_rows@),
                    self.n_vq as nat,
                ),
                None => frame_rows@.len() == 0,
            },
    {
        if frame_rows.len() == 0 {
            None
        } else {
            Some(Tensor3::from_rows(frame_rows, self.n_vq))
        }
    }

    /// Takes over the state that the decoder gives back.
    pub fn update(&mut self, transformer_offsets: Vec<Vec<i32>>, attention: Vec<AttentionState<T>>)
        requires
            old(self).wf(),
            transformer_offsets@.len() == old(self).transformer_specs@.len(),
            attention@.len() == old(self).attention_specs@.len(),
            forall|i: int|
                0 <= i < attention@.len() ==> fits_spec(
                    #[trigger] attention@[i],
                    old(self).attention_specs@[i],
                ),
        ensures
            final(self).wf(),
            final(self).transformer_offsets == transformer_offsets,
            final(self).attention == attention,
            final(self).transformer_specs == old(self).transformer_specs,
            final(self).attention_specs == old(self).attention_specs,
            final(self).n_vq == old(self).n_vq,
    {
        self.transformer_offsets = transformer_offsets;
        self.attention = attention;
    }
}

} // verus!
