//! Configuration.

use crate::error::TtsError;
use crate::float::number::Binary32;
use crate::json::{
    codes, json_document, parse, read_codes, sizes, trees, Json, JsonTree,
};
use crate::text::{chars_of, same_text, string_of};
use crate::whitespace::{trim, trimmed};
use vstd::prelude::*;

verus! {

/// How tokens are picked.
#[derive(Debug, Clone, Copy, PartialEq, Eq, Structural)]
pub enum SampleMode {
    Greedy,
    Fixed,
    Full,
}

/// The text that `str::to_lowercase` of the standard library gives.
pub uninterp spec fn lowercase(text: Seq<char>) -> Seq<char>;

/// A character in lower case, if it is an ASCII letter.
pub open spec fn ascii_lower(c: char) -> char {
    if 'A' <= c <= 'Z' {
        ((c as u8) + 32) as u8 as char
    } else {
        c
    }
}

/// `str::to_lowercase` of the standard library: the text in lower case by
/// Unicode's rules, which for ASCII characters change the 26 capitals alone.
#[verifier::external_body]
fn to_lowercase(text: &str) -> (r: String)
    ensures
        r@ == lowercase(text@),
        (forall|i: int| 0 <= i < text@.len() ==> #[trigger] text@[i] <= '\u{7F}') ==> r@
            == text@.map_values(|c: char| ascii_lower(c)),
{
    text.to_lowercase()
}

/// The mode that a name in lower case stands for.
pub open spec fn mode_named(name: Seq<char>, do_sample: bool) -> SampleMode {
    if name == "greedy"@ {
        SampleMode::Greedy
    } else if name == "fixed"@ {
        SampleMode::Fixed
    } else if name == "full"@ {
        SampleMode::Full
    } else if do_sample {
        SampleMode::Fixed
    } else {
        SampleMode::Greedy
    }
}

impl SampleMode {
    /// The mode that a name stands for, whatever its case and the whitespace
    /// around it; a name that stands for none means sampling with fixed
    /// settings or none.
    pub fn from_str(s: &str, do_sample: bool) -> (r: Self)
        ensures
            r == mode_named(lowercase(trimmed(s@)), do_sample),
            (forall|i: int| 0 <= i < trimmed(s@).len() ==> #[trigger] trimmed(s@)[i] <= '\u{7F}')
                ==> r == mode_named(trimmed(s@).map_values(|c: char| ascii_lower(c)), do_sample),
    {
        let t = trim(&chars_of(s));
        proof {
            assert(t@.subrange(0, t@.len() as int) == t@);
        }
        let name = string_of(&t, 0, t.len());
        Self::from_lower(to_lowercase(name.as_str()).as_str(), do_sample)
    }

    /// The mode that a name in lower case stands for.
    pub fn from_lower(name: &str, do_sample: bool) -> (r: Self)
        ensures
            r == mode_named(name@, do_sample),
    {
        if same_text(name, "greedy") {
            SampleMode::Greedy
        } else if same_text(name, "fixed") {
            SampleMode::Fixed
        } else if same_text(name, "full") {
            SampleMode::Full
        } else if do_sample {
            SampleMode::Fixed
        } else {
            SampleMode::Greedy
        }
    }
}

/// Generation configuration.
#[derive(Debug, Clone, Copy)]
pub struct GenerationConfig {
    pub max_new_frames: usize,
    pub do_sample: bool,
    pub sample_mode: SampleMode,
    pub text_temperature: Binary32,
    pub text_top_p: Binary32,
    pub text_top_k: usize,
    pub audio_temperature: Binary32,
    pub audio_top_p: Binary32,
    pub audio_top_k: usize,
    pub audio_repetition_penalty: Binary32,
}

/// The configuration by default: temperatures 1.0 and 0.8, cumulative
/// probabilities 1.0 and 0.95, a penalty of 1.2.
pub open spec fn default_generation() -> GenerationConfig {
    GenerationConfig {
        max_new_frames: 375,
        do_sample: true,
        sample_mode: SampleMode::Fixed,
        text_temperature: Binary32 { bits: 0x3f80_0000 },
        text_top_p: Binary32 { bits: 0x3f80_0000 },
        text_top_k: 50,
        audio_temperature: Binary32 { bits: 0x3f4c_cccd },
        audio_top_p: Binary32 { bits: 0x3f73_3333 },
        audio_top_k: 25,
        audio_repetition_penalty: Binary32 { bits: 0x3f99_999a },
    }
}

impl Default for GenerationConfig {
    fn default() -> (r: Self)
        ensures
            r == default_generation(),
    {
        GenerationConfig {
            max_new_frames: 375,
            do_sample: true,
            sample_mode: SampleMode::Fixed,
            text_temperature: Binary32 { bits: 0x3f80_0000 },
            text_top_p: Binary32 { bits: 0x3f80_0000 },
            text_top_k: 50,
            audio_temperature: Binary32 { bits: 0x3f4c_cccd },
            audio_top_p: Binary32 { bits: 0x3f73_3333 },
            audio_top_k: 25,
            audio_repetition_penalty: Binary32 { bits: 0x3f99_999a },
        }
    }
}

/// The configuration by default with another mode.
pub open spec fn generation_in(mode: SampleMode) -> GenerationConfig {
    GenerationConfig {
        do_sample: mode != SampleMode::Greedy,
        sample_mode: mode,
        ..default_generation()
    }
}

impl GenerationConfig {
    /// Create a config with the given sample mode string ("greedy", "fixed", "full").
    pub fn with_sample_mode(sample_mode: &str) -> (r: Self)
        ensures
            r == generation_in(
                mode_named(lowercase(trimmed(sample_mode@)), sample_mode@ != "greedy"@),
            ),
            (forall|i: int|
                0 <= i < trimmed(sample_mode@).len() ==> #[trigger] trimmed(sample_mode@)[i]
                    <= '\u{7F}') ==> r == generation_in(
                mode_named(
                    trimmed(sample_mode@).map_values(|c: char| ascii_lower(c)),
                    sample_mode@ != "greedy"@,
                ),
            ),
    {
        let do_sample = !same_text(sample_mode, "greedy");
        let mode = SampleMode::from_str(sample_mode, do_sample);
        GenerationConfig {
            do_sample: mode != SampleMode::Greedy,
            sample_mode: mode,
            ..GenerationConfig::default()
        }
    }
}

/// TTS model configuration from tts_browser_onnx_meta.json
#[derive(Debug, Clone)]
pub struct TtsModelConfig {
    pub n_vq: usize,
    pub hidden_size: usize,
    pub global_layers: usize,
    pub global_heads: usize,
    pub head_dim: usize,
    pub local_layers: usize,
    pub local_heads: usize,
    pub local_head_dim: usize,
    pub vocab_size: usize,
    pub audio_codebook_sizes: Vec<usize>,
    pub audio_pad_token_id: i64,
    pub im_start_token_id: i64,
    pub im_end_token_id: i64,
    pub audio_start_token_id: i64,
    pub audio_end_token_id: i64,
    pub audio_user_slot_token_id: i64,
    pub audio_assistant_slot_token_id: i64,
}

/// Codec configuration from codec_browser_onnx_meta.json
#[derive(Debug, Clone, Copy)]
pub struct CodecConfig {
    pub sample_rate: u32,
    pub channels: usize,
    pub downsample_rate: u32,
    pub num_quantizers: usize,
}

/// Manifest prompt templates
#[derive(Debug, Clone)]
pub struct PromptTemplates {
    pub user_prompt_prefix_token_ids: Vec<i32>,
    pub user_prompt_after_reference_token_ids: Vec<i32>,
    pub assistant_prompt_prefix_token_ids: Vec<i32>,
}

/// Streaming decode specification for a transformer offset
#[derive(Debug, Clone)]
pub struct TransformerOffsetSpec {
    pub index: usize,
    pub input_name: String,
    pub output_name: String,
    pub shape: Vec<usize>,
}

/// Streaming decode specification for an attention cache
#[derive(Debug, Clone)]
pub struct AttentionCacheSpec {
    pub index: usize,
    pub layer_index: usize,
    pub offset_input_name: String,
    pub offset_output_name: String,
    pub cached_keys_input_name: String,
    pub cached_keys_output_name: String,
    pub cached_values_input_name: String,
    pub cached_values_output_name: String,
    pub cached_positions_input_name: String,
    pub cached_positions_output_name: String,
    pub offset_shape: Vec<usize>,
    pub cache_shape: Vec<usize>,
    pub positions_shape: Vec<usize>,
}

/// A built-in voice preset with pre-computed reference audio codes.
#[derive(Debug, Clone)]
pub struct BuiltinVoice {
    pub name: String,
    /// By frame, and in a frame by channel.
    pub codes: Vec<Vec<i32>>,
}

// --- Reading ---

/// Whether a field holds an unsigned number.
pub open spec fn has_size(t: JsonTree, key: Seq<char>) -> bool {
    t.at(key).unsigned() is Some
}

/// The size that a field holds.
pub open spec fn size(t: JsonTree, key: Seq<char>) -> usize {
    #[verifier::truncate]
    (t.at(key).unsigned().unwrap() as usize)
}

pub open spec fn rate(t: JsonTree, key: Seq<char>) -> u32 {
    #[verifier::truncate]
    (t.at(key).unsigned().unwrap() as u32)
}

fn size_at(json: &Json, key: &str) -> (r: Result<usize, TtsError>)
    ensures
        if has_size(json.tree(), key@) {
            r == Ok::<usize, TtsError>(size(json.tree(), key@))
        } else {
            r matches Err(TtsError::Malformed(_))
        },
{
    match json.unsigned_at(key) {
        Ok(n) => Ok(#[verifier::truncate] (n as usize)),
        Err(e) => Err(e),
    }
}

fn rate_at(json: &Json, key: &str) -> (r: Result<u32, TtsError>)
    ensures
        if has_size(json.tree(), key@) {
            r == Ok::<u32, TtsError>(rate(json.tree(), key@))
        } else {
            r matches Err(TtsError::Malformed(_))
        },
{
    match json.unsigned_at(key) {
        Ok(n) => Ok(#[verifier::truncate] (n as u32)),
        Err(e) => Err(e),
    }
}

/// Whether a model's configuration is complete.
pub open spec fn tts_readable(t: JsonTree) -> bool {
    &&& has_size(t, "n_vq"@)
    &&& has_size(t, "hidden_size"@)
    &&& has_size(t, "global_layers"@)
    &&& has_size(t, "global_heads"@)
    &&& has_size(t, "head_dim"@)
    &&& has_size(t, "local_layers"@)
    &&& has_size(t, "local_heads"@)
    &&& has_size(t, "local_head_dim"@)
    &&& has_size(t, "vocab_size"@)
    &&& sizes(t.at("audio_codebook_sizes"@).items()) is Some
    &&& t.at("audio_pad_token_id"@).signed() is Some
    &&& t.at("im_start_token_id"@).signed() is Some
    &&& t.at("im_end_token_id"@).signed() is Some
    &&& t.at("audio_start_token_id"@).signed() is Some
    &&& t.at("audio_end_token_id"@).signed() is Some
    &&& t.at("audio_user_slot_token_id"@).signed() is Some
    &&& t.at("audio_assistant_slot_token_id"@).signed() is Some
}

/// Whether a model's configuration says what a document says.
pub open spec fn tts_read(c: TtsModelConfig, t: JsonTree) -> bool {
    &&& c.n_vq == size(t, "n_vq"@)
    &&& c.hidden_size == size(t, "hidden_size"@)
    &&& c.global_layers == size(t, "global_layers"@)
    &&& c.global_heads == size(t, "global_heads"@)
    &&& c.head_dim == size(t, "head_dim"@)
    &&& c.local_layers == size(t, "local_layers"@)
    &&& c.local_heads == size(t, "local_heads"@)
    &&& c.local_head_dim == size(t, "local_head_dim"@)
    &&& c.vocab_size == size(t, "vocab_size"@)
    &&& Some(c.audio_codebook_sizes@) == sizes(t.at("audio_codebook_sizes"@).items())
    &&& Some(c.audio_pad_token_id) == t.at("audio_pad_token_id"@).signed()
    &&& Some(c.im_start_token_id) == t.at("im_start_token_id"@).signed()
    &&& Some(c.im_end_token_id) == t.at("im_end_token_id"@).signed()
    &&& Some(c.audio_start_token_id) == t.at("audio_start_token_id"@).signed()
    &&& Some(c.audio_end_token_id) == t.at("audio_end_token_id"@).signed()
    &&& Some(c.audio_user_slot_token_id) == t.at("audio_user_slot_token_id"@).signed()
    &&& Some(c.audio_assistant_slot_token_id) == t.at("audio_assistant_slot_token_id"@).signed()
}

/// A result that is good exactly if a document is, and else reports a field.
pub open spec fn reads<A>(r: Result<A, TtsError>, readable: bool, read: spec_fn(A) -> bool) -> bool {
    match r {
        Ok(a) => readable && read(a),
        Err(e) => !readable && e is Malformed,
    }
}

impl TtsModelConfig {
    /// The configuration in the value of `model_config`.
    pub fn read(mc: &Json) -> (r: Result<Self, TtsError>)
        ensures
            reads(r, tts_readable(mc.tree()), |c: TtsModelConfig| tts_read(c, mc.tree())),
    {
        Ok(
            TtsModelConfig {
                n_vq: size_at(mc, "n_vq")?,
                hidden_size: size_at(mc, "hidden_size")?,
                global_layers: size_at(mc, "global_layers")?,
                global_heads: size_at(mc, "global_heads")?,
                head_dim: size_at(mc, "head_dim")?,
                local_layers: size_at(mc, "local_layers")?,
                local_heads: size_at(mc, "local_heads")?,
                local_head_dim: size_at(mc, "local_head_dim")?,
                vocab_size: size_at(mc, "vocab_size")?,
                audio_codebook_sizes: mc.sizes_at("audio_codebook_sizes")?,
                audio_pad_token_id: mc.signed_at("audio_pad_token_id")?,
                im_start_token_id: mc.signed_at("im_start_token_id")?,
                im_end_token_id: mc.signed_at("im_end_token_id")?,
                audio_start_token_id: mc.signed_at("audio_start_token_id")?,
                audio_end_token_id: mc.signed_at("audio_end_token_id")?,
                audio_user_slot_token_id: mc.signed_at("audio_user_slot_token_id")?,
                audio_assistant_slot_token_id: mc.signed_at("audio_assistant_slot_token_id")?,
            },
        )
    }
}

/// The value under a key, or null.
fn part<'a>(json: &'a Json, key: &str, none: &'a Json) -> (r: &'a Json)
    requires
        none.tree() == JsonTree::Null,
    ensures
        r.tree() == json.tree().at(key@),
{
    match json.get(key) {
        Some(v) => v,
        None => none,
    }
}

/// Reads the model's configuration out of the text of tts_browser_onnx_meta.json.
pub fn read_tts_meta(text: &str) -> (r: Result<TtsModelConfig, TtsError>)
    ensures
        match json_document(text@) {
            Some(t) => reads(
                r,
                tts_readable(t.at("model_config"@)),
                |c: TtsModelConfig| tts_read(c, t.at("model_config"@)),
            ),
            None => r matches Err(TtsError::SerdeJson(_)),
        },
{
    let meta = parse(text)?;
    let none = Json::Null;
    TtsModelConfig::read(part(&meta, "model_config", &none))
}

/// Whether a codec's configuration is complete.
pub open spec fn codec_readable(t: JsonTree) -> bool {
    &&& has_size(t, "sample_rate"@)
    &&& has_size(t, "channels"@)
    &&& has_size(t, "downsample_rate"@)
    &&& has_size(t, "num_quantizers"@)
}

/// The codec's configuration that a document holds.
pub open spec fn codec_of(t: JsonTree) -> CodecConfig {
    CodecConfig {
        sample_rate: rate(t, "sample_rate"@),
        channels: size(t, "channels"@),
        downsample_rate: rate(t, "downsample_rate"@),
        num_quantizers: size(t, "num_quantizers"@),
    }
}

impl CodecConfig {
    /// The configuration in the value of `codec_config`.
    pub fn read(cc: &Json) -> (r: Result<Self, TtsError>)
        ensures
            reads(r, codec_readable(cc.tree()), |c: CodecConfig| c == codec_of(cc.tree())),
    {
        Ok(
            CodecConfig {
                sample_rate: rate_at(cc, "sample_rate")?,
                channels: size_at(cc, "channels")?,
                downsample_rate: rate_at(cc, "downsample_rate")?,
                num_quantizers: size_at(cc, "num_quantizers")?,
            },
        )
    }
}

/// The contents of codec_browser_onnx_meta.json.
#[derive(Debug)]
pub struct CodecMeta {
    pub codec_config: CodecConfig,
    pub document: Json,
}

/// Reads the text of codec_browser_onnx_meta.json.
pub fn read_codec_meta(text: &str) -> (r: Result<CodecMeta, TtsError>)
    ensures
        match json_document(text@) {
            Some(t) => reads(
                r,
                codec_readable(t.at("codec_config"@)),
                |c: CodecMeta|
                    c.codec_config == codec_of(t.at("codec_config"@)) && c.document.tree() == t,
            ),
            None => r matches Err(TtsError::SerdeJson(_)),
        },
{
    let document = parse(text)?;
    let none = Json::Null;
    let codec_config = CodecConfig::read(part(&document, "codec_config", &none))?;
    Ok(CodecMeta { codec_config, document })
}

/// The token IDs that a field holds.
pub open spec fn ids_at(t: JsonTree, key: Seq<char>) -> Option<Seq<i32>> {
    match t.at(key).items() {
        Some(items) => codes(items),
        None => None,
    }
}

fn read_ids(json: &Json, key: &str) -> (r: Result<Vec<i32>, TtsError>)
    ensures
        match ids_at(json.tree(), key@) {
            Some(list) => r matches Ok(v) && v@ == list,
            None => r matches Err(TtsError::Malformed(_)),
        },
{
    match json.items_at(key) {
        Some(items) => read_codes(items),
        None => Err(TtsError::Malformed(key.to_owned())),
    }
}

/// Whether prompt templates are complete.
pub open spec fn templates_readable(t: JsonTree) -> bool {
    &&& ids_at(t, "user_prompt_prefix_token_ids"@) is Some
    &&& ids_at(t, "user_prompt_after_reference_token_ids"@) is Some
    &&& ids_at(t, "assistant_prompt_prefix_token_ids"@) is Some
}

/// Whether prompt templates say what a document says.
pub open spec fn templates_read(p: PromptTemplates, t: JsonTree) -> bool {
    &&& Some(p.user_prompt_prefix_token_ids@) == ids_at(t, "user_prompt_prefix_token_ids"@)
    &&& Some(p.user_prompt_after_reference_token_ids@) == ids_at(
        t,
        "user_prompt_after_reference_token_ids"@,
    )
    &&& Some(p.assistant_prompt_prefix_token_ids@) == ids_at(
        t,
        "assistant_prompt_prefix_token_ids"@,
    )
}

impl PromptTemplates {
    /// The templates in the value of `prompt_templates`.
    pub fn read(pt: &Json) -> (r: Result<Self, TtsError>)
        ensures
            reads(
                r,
                templates_readable(pt.tree()),
                |p: PromptTemplates| templates_read(p, pt.tree()),
            ),
    {
        Ok(
            PromptTemplates {
                user_prompt_prefix_token_ids: read_ids(pt, "user_prompt_prefix_token_ids")?,
                user_prompt_after_reference_token_ids: read_ids(
                    pt,
                    "user_prompt_after_reference_token_ids",
                )?,
                assistant_prompt_prefix_token_ids: read_ids(
                    pt,
                    "assistant_prompt_prefix_token_ids",
                )?,
            },
        )
    }
}

/// Whether the specification of an offset is complete.
pub open spec fn offset_readable(t: JsonTree) -> bool {
    &&& has_size(t, "index"@)
    &&& t.at("input_name"@).text() is Some
    &&& t.at("output_name"@).text() is Some
    &&& sizes(t.at("shape"@).items()) is Some
}

/// Whether the specification of an offset says what a document says.
pub open spec fn offset_read(s: TransformerOffsetSpec, t: JsonTree) -> bool {
    &&& s.index == size(t, "index"@)
    &&& Some(s.input_name@) == t.at("input_name"@).text()
    &&& Some(s.output_name@) == t.at("output_name"@).text()
    &&& Some(s.shape@) == sizes(t.at("shape"@).items())
}

impl TransformerOffsetSpec {
    /// The specification in an item of `transformer_offsets`.
    pub fn read(v: &Json) -> (r: Result<Self, TtsError>)
        ensures
            reads(
                r,
                offset_readable(v.tree()),
                |s: TransformerOffsetSpec| offset_read(s, v.tree()),
            ),
    {
        Ok(
            TransformerOffsetSpec {
                index: size_at(v, "index")?,
                input_name: v.text_at("input_name")?,
                output_name: v.text_at("output_name")?,
                shape: v.sizes_at("shape")?,
            },
        )
    }
}

/// Whether the specification of a cache is complete.
pub open spec fn cache_readable(t: JsonTree) -> bool {
    &&& has_size(t, "index"@)
    &&& has_size(t, "layer_index"@)
    &&& t.at("offset_input_name"@).text() is Some
    &&& t.at("offset_output_name"@).text() is Some
    &&& t.at("cached_keys_input_name"@).text() is Some
    &&& t.at("cached_keys_output_name"@).text() is Some
    &&& t.at("cached_values_input_name"@).text() is Some
    &&& t.at("cached_values_output_name"@).text() is Some
    &&& t.at("cached_positions_input_name"@).text() is Some
    &&& t.at("cached_positions_output_name"@).text() is Some
    &&& sizes(t.at("offset_shape"@).items()) is Some
    &&& sizes(t.at("cache_shape"@).items()) is Some
    &&& sizes(t.at("positions_shape"@).items()) is Some
}

/// Whether the specification of a cache says what a document says.
pub open spec fn cache_read(s: AttentionCacheSpec, t: JsonTree) -> bool {
    &&& s.index == size(t, "index"@)
    &&& s.layer_index == size(t, "layer_index"@)
    &&& Some(s.offset_input_name@) == t.at("offset_input_name"@).text()
    &&& Some(s.offset_output_name@) == t.at("offset_output_name"@).text()
    &&& Some(s.cached_keys_input_name@) == t.at("cached_keys_input_name"@).text()
    &&& Some(s.cached_keys_output_name@) == t.at("cached_keys_output_name"@).text()
    &&& Some(s.cached_values_input_name@) == t.at("cached_values_input_name"@).text()
    &&& Some(s.cached_values_output_name@) == t.at("cached_values_output_name"@).text()
    &&& Some(s.cached_positions_input_name@) == t.at("cached_positions_input_name"@).text()
    &&& Some(s.cached_positions_output_name@) == t.at("cached_positions_output_name"@).text()
    &&& Some(s.offset_shape@) == sizes(t.at("offset_shape"@).items())
    &&& Some(s.cache_shape@) == sizes(t.at("cache_shape"@).items())
    &&& Some(s.positions_shape@) == sizes(t.at("positions_shape"@).items())
}

impl AttentionCacheSpec {
    /// The specification in an item of `attention_caches`.
    pub fn read(v: &Json) -> (r: Result<Self, TtsError>)
        ensures
            reads(r, cache_readable(v.tree()), |s: AttentionCacheSpec| cache_read(s, v.tree())),
    {
        Ok(
            AttentionCacheSpec {
                index: size_at(v, "index")?,
                layer_index: size_at(v, "layer_index")?,
                offset_input_name: v.text_at("offset_input_name")?,
                offset_output_name: v.text_at("offset_output_name")?,
                cached_keys_input_name: v.text_at("cached_keys_input_name")?,
                cached_keys_output_name: v.text_at("cached_keys_output_name")?,
                cached_values_input_name: v.text_at("cached_values_input_name")?,
                cached_values_output_name: v.text_at("cached_values_output_name")?,
                cached_positions_input_name: v.text_at("cached_positions_input_name")?,
                cached_positions_output_name: v.text_at("cached_positions_output_name")?,
                offset_shape: v.sizes_at("offset_shape")?,
                cache_shape: v.sizes_at("cache_shape")?,
                positions_shape: v.sizes_at("positions_shape")?,
            },
        )
    }
}

pub open spec fn all_offsets_readable(items: Seq<JsonTree>) -> bool {
    forall|i: int| 0 <= i < items.len() ==> offset_readable(#[trigger] items[i])
}

pub open spec fn all_offsets_read(
    specs: Seq<TransformerOffsetSpec>,
    items: Seq<JsonTree>,
) -> bool {
    &&& specs.len() == items.len()
    &&& forall|i: int| 0 <= i < items.len() ==> offset_read(#[trigger] specs[i], items[i])
}

fn read_offsets(items: &Vec<Json>) -> (r: Result<Vec<TransformerOffsetSpec>, TtsError>)
    ensures
        reads(
            r,
            all_offsets_readable(trees(items@)),
            |v: Vec<TransformerOffsetSpec>| all_offsets_read(v@, trees(items@)),
        ),
{
    let ghost all = trees(items@);
    let mut list: Vec<TransformerOffsetSpec> = Vec::new();
    let mut i: usize = 0;
    while i < items.len()
        invariant
            i <= items@.len(),
            all == trees(items@),
            list@.len() == i,
            forall|j: int|
                0 <= j < i ==> offset_readable(#[trigger] all[j]) && offset_read(list@[j], all[j]),
        decreases items.len() - i,
    {
        proof {
            assert(all[i as int] == items@[i as int].tree());
        }
        match TransformerOffsetSpec::read(&items[i]) {
            Ok(s) => {
                list.push(s);
            },
            Err(e) => {
                proof {
                    assert(!offset_readable(all[i as int]));
                }
                return Err(e);
            },
        }
        i = i + 1;
    }
    proof {
        assert forall|j: int| 0 <= j < all.len() implies offset_read(#[trigger] list@[j], all[j]) by {
            assert(offset_readable(all[j]));
        }
    }
    Ok(list)
}

pub open spec fn all_caches_readable(items: Seq<JsonTree>) -> bool {
    forall|i: int| 0 <= i < items.len() ==> cache_readable(#[trigger] items[i])
}

pub open spec fn all_caches_read(specs: Seq<AttentionCacheSpec>, items: Seq<JsonTree>) -> bool {
    &&& specs.len() == items.len()
    &&& forall|i: int| 0 <= i < items.len() ==> cache_read(#[trigger] specs[i], items[i])
}

fn read_caches(items: &Vec<Json>) -> (r: Result<Vec<AttentionCacheSpec>, TtsError>)
    ensures
        reads(
            r,
            all_caches_readable(trees(items@)),
            |v: Vec<AttentionCacheSpec>| all_caches_read(v@, trees(items@)),
        ),
{
    let ghost all = trees(items@);
    let mut list: Vec<AttentionCacheSpec> = Vec::new();
    let mut i: usize = 0;
    while i < items.len()
        invariant
            i <= items@.len(),
            all == trees(items@),
            list@.len() == i,
            forall|j: int|
                0 <= j < i ==> cache_readable(#[trigger] all[j]) && cache_read(list@[j], all[j]),
        decreases items.len() - i,
    {
        proof {
            assert(all[i as int] == items@[i as int].tree());
        }
        match AttentionCacheSpec::read(&items[i]) {
            Ok(s) => {
                list.push(s);
            },
            Err(e) => {
                proof {
                    assert(!cache_readable(all[i as int]));
                }
                return Err(e);
            },
        }
        i = i + 1;
    }
    proof {
        assert forall|j: int| 0 <= j < all.len() implies cache_read(#[trigger] list@[j], all[j]) by {
            assert(cache_readable(all[j]));
        }
    }
    Ok(list)
}

/// The frames of a voice are lists of numbers; what is no list counts as empty.
pub open spec fn voice_readable(t: JsonTree) -> bool {
    let frames = t.at("prompt_audio_codes"@).items_or_none();
    forall|i: int|
        0 <= i < frames.len() ==> codes((#[trigger] frames[i]).items_or_none()) is Some
}

/// Whether a voice says what a document says.
pub open spec fn voice_read(v: BuiltinVoice, t: JsonTree) -> bool {
    let frames = t.at("prompt_audio_codes"@).items_or_none();
    &&& v.name@ == match t.at("voice"@).text() {
        Some(s) => s,
        None => Seq::empty(),
    }
    &&& v.codes@.len() == frames.len()
    &&& forall|i: int|
        0 <= i < frames.len() ==> Some((#[trigger] v.codes@[i])@) == codes(
            frames[i].items_or_none(),
        )
}

impl BuiltinVoice {
    /// The voice in an item of `builtin_voices`.
    pub fn read(v: &Json) -> (r: Result<Self, TtsError>)
        ensures
            reads(r, voice_readable(v.tree()), |b: BuiltinVoice| voice_read(b, v.tree())),
    {
        let name = match v.text_at("voice") {
            Ok(s) => s,
            Err(_) => String::new(),
        };
        let ghost frames = v.tree().at("prompt_audio_codes"@).items_or_none();
        let mut voice_codes: Vec<Vec<i32>> = Vec::new();
        if let Some(items) = v.items_at("prompt_audio_codes") {
            let mut i: usize = 0;
            while i < items.len()
                invariant
                    i <= items@.len(),
                    frames == trees(items@),
                    frames == v.tree().at("prompt_audio_codes"@).items_or_none(),
                    voice_codes@.len() == i,
                    forall|j: int|
                        0 <= j < i ==> Some(voice_codes@[j]@) == codes(
                            (#[trigger] frames[j]).items_or_none(),
                        ),
                decreases items.len() - i,
            {
                proof {
                    assert(frames[i as int] == items@[i as int].tree());
                }
                match &items[i] {
                    Json::Array(frame) => {
                        proof {
                            assert(trees(frame@) == frames[i as int].items_or_none());
                        }
                        match read_codes(frame) {
                            Ok(list) => {
                                voice_codes.push(list);
                            },
                            Err(e) => {
                                return Err(e);
                            },
                        }
                    },
                    _ => {
                        let empty: Vec<i32> = Vec::new();
                        proof {
                            assert(empty@ == codes(Seq::<JsonTree>::empty()).unwrap());
                        }
                        voice_codes.push(empty);
                    },
                }
                i = i + 1;
            }
            proof {
                assert forall|j: int| 0 <= j < frames.len() implies codes(
                    (#[trigger] frames[j]).items_or_none(),
                ) is Some by {
                    assert(Some(voice_codes@[j]@) == codes(frames[j].items_or_none()));
                }
                assert forall|j: int| 0 <= j < frames.len() implies Some(
                    (#[trigger] voice_codes@[j])@,
                ) == codes(frames[j].items_or_none()) by {
                    assert(codes(frames[j].items_or_none()) is Some);
                }
            }
        }
        Ok(BuiltinVoice { name, codes: voice_codes })
    }
}

pub open spec fn all_voices_readable(items: Seq<JsonTree>) -> bool {
    forall|i: int| 0 <= i < items.len() ==> voice_readable(#[trigger] items[i])
}

pub open spec fn all_voices_read(voices: Seq<BuiltinVoice>, items: Seq<JsonTree>) -> bool {
    &&& voices.len() == items.len()
    &&& forall|i: int| 0 <= i < items.len() ==> voice_read(#[trigger] voices[i], items[i])
}

fn read_voices(items: &Vec<Json>) -> (r: Result<Vec<BuiltinVoice>, TtsError>)
    ensures
        reads(
            r,
            all_voices_readable(trees(items@)),
            |v: Vec<BuiltinVoice>| all_voices_read(v@, trees(items@)),
        ),
{
    let ghost all = trees(items@);
    let mut list: Vec<BuiltinVoice> = Vec::new();
    let mut i: usize = 0;
    while i < items.len()
        invariant
            i <= items@.len(),
            all == trees(items@),
            list@.len() == i,
            forall|j: int|
                0 <= j < i ==> voice_readable(#[trigger] all[j]) && voice_read(list@[j], all[j]),
        decreases items.len() - i,
    {
        proof {
            assert(all[i as int] == items@[i as int].tree());
        }
        match BuiltinVoice::read(&items[i]) {
            Ok(s) => {
                list.push(s);
            },
            Err(e) => {
                proof {
                    assert(!voice_readable(all[i as int]));
                }
                return Err(e);
            },
        }
        i = i + 1;
    }
    proof {
        assert forall|j: int| 0 <= j < all.len() implies voice_read(#[trigger] list@[j], all[j]) by {
            assert(voice_readable(all[j]));
        }
    }
    Ok(list)
}

/// Full configuration combining all model configs.
pub struct AppConfig {
    pub tts_config: TtsModelConfig,
    pub codec_config: CodecConfig,
    pub prompt_templates: PromptTemplates,
    pub transformer_offset_specs: Vec<TransformerOffsetSpec>,
    pub attention_cache_specs: Vec<AttentionCacheSpec>,
    pub builtin_voices: Vec<BuiltinVoice>,
}

/// Whether the rest of the configuration is complete, in the documents on the
/// codec and on the prompts.
pub open spec fn app_readable(codec: JsonTree, manifest: JsonTree) -> bool {
    let streaming = codec.at("streaming_decode"@);
    &&& templates_readable(manifest.at("prompt_templates"@))
    &&& all_offsets_readable(streaming.at("transformer_offsets"@).items_or_none())
    &&& all_caches_readable(streaming.at("attention_caches"@).items_or_none())
    &&& all_voices_readable(manifest.at("builtin_voices"@).items_or_none())
}

/// Whether the rest of the configuration says what the documents say.
pub open spec fn app_read(c: AppConfig, codec: JsonTree, manifest: JsonTree) -> bool {
    let streaming = codec.at("streaming_decode"@);
    &&& templates_read(c.prompt_templates, manifest.at("prompt_templates"@))
    &&& all_offsets_read(
        c.transformer_offset_specs@,
        streaming.at("transformer_offsets"@).items_or_none(),
    )
    &&& all_caches_read(
        c.attention_cache_specs@,
        streaming.at("attention_caches"@).items_or_none(),
    )
    &&& all_voices_read(c.builtin_voices@, manifest.at("builtin_voices"@).items_or_none())
}

impl AppConfig {
    /// Puts the configuration together, with the text of the manifest of prompts and voices.
    pub fn load(tts_config: TtsModelConfig, codec: CodecMeta, manifest: &str) -> (r: Result<
        Self,
        TtsError,
    >)
        ensures
            match json_document(manifest@) {
                Some(m) => reads(
                    r,
                    app_readable(codec.document.tree(), m),
                    |c: AppConfig|
                        c.tts_config == tts_config && c.codec_config == codec.codec_config
                            && app_read(c, codec.document.tree(), m),
                ),
                None => r matches Err(TtsError::SerdeJson(_)),
            },
    {
        let document = parse(manifest)?;
        Self::assemble(tts_config, codec, &document)
    }

    /// Puts the configuration together, with the manifest of prompts and voices.
    #[verifier::rlimit(50)]
    pub fn assemble(tts_config: TtsModelConfig, codec: CodecMeta, manifest: &Json) -> (r: Result<
        Self,
        TtsError,
    >)
        ensures
            reads(
                r,
                app_readable(codec.document.tree(), manifest.tree()),
                |c: AppConfig|
                    c.tts_config == tts_config && c.codec_config == codec.codec_config
                        && app_read(c, codec.document.tree(), manifest.tree()),
            ),
    {
        let none = Json::Null;
        let prompt_templates = PromptTemplates::read(part(manifest, "prompt_templates", &none))?;
        let streaming = part(&codec.document, "streaming_decode", &none);
        let transformer_offset_specs = match streaming.items_at("transformer_offsets") {
            Some(items) => read_offsets(items)?,
            None => Vec::new(),
        };
        let attention_cache_specs = match streaming.items_at("attention_caches") {
            Some(items) => read_caches(items)?,
            None => Vec::new(),
        };
        let builtin_voices = match manifest.items_at("builtin_voices") {
            Some(items) => read_voices(items)?,
            None => Vec::new(),
        };
        Ok(
            AppConfig {
                tts_config,
                codec_config: codec.codec_config,
                prompt_templates,
                transformer_offset_specs,
                attention_cache_specs,
                builtin_voices,
            },
        )
    }
}

} // verus!
