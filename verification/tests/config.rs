use moss_tts_nano::config::{
    read_codec_meta, read_tts_meta, AppConfig, GenerationConfig, SampleMode,
};
use moss_tts_nano::error::TtsError;
use moss_tts_nano::json::{parse, Json};

const TTS: &str = r#"{"model_config": {
    "n_vq": 2, "hidden_size": 8, "global_layers": 3, "global_heads": 4, "head_dim": 5,
    "local_layers": 6, "local_heads": 7, "local_head_dim": 9, "vocab_size": 100,
    "audio_codebook_sizes": [16, 17], "audio_pad_token_id": 11, "im_start_token_id": 12,
    "im_end_token_id": -13, "audio_start_token_id": 14, "audio_end_token_id": 15,
    "audio_user_slot_token_id": 16, "audio_assistant_slot_token_id": 17}}"#;

const CODEC: &str = r#"{"codec_config": {
    "sample_rate": 48000, "channels": 2, "downsample_rate": 3840, "num_quantizers": 16},
  "streaming_decode": {
    "transformer_offsets": [
      {"index": 1, "input_name": "in", "output_name": "out", "shape": [1, 2]}],
    "attention_caches": [
      {"index": 0, "layer_index": 4, "offset_input_name": "a", "offset_output_name": "b",
       "cached_keys_input_name": "c", "cached_keys_output_name": "d",
       "cached_values_input_name": "e", "cached_values_output_name": "f",
       "cached_positions_input_name": "g", "cached_positions_output_name": "h",
       "offset_shape": [1], "cache_shape": [1, 2, 3, 4], "positions_shape": [1, 5]}]}}"#;

const MANIFEST: &str = r#"{"prompt_templates": {
    "user_prompt_prefix_token_ids": [1, 2],
    "user_prompt_after_reference_token_ids": [3],
    "assistant_prompt_prefix_token_ids": []},
  "builtin_voices": [
    {"voice": "Junhao", "prompt_audio_codes": [[1, 2], [3, -4]]},
    {"prompt_audio_codes": [5, [6]]},
    {"voice": "none"}]}"#;

#[test]
fn the_whole_configuration_is_read() {
    let tts = read_tts_meta(TTS).unwrap();
    assert_eq!(
        (tts.n_vq, tts.hidden_size, tts.global_layers, tts.global_heads, tts.head_dim),
        (2, 8, 3, 4, 5)
    );
    assert_eq!(
        (tts.local_layers, tts.local_heads, tts.local_head_dim, tts.vocab_size),
        (6, 7, 9, 100)
    );
    assert_eq!(tts.audio_codebook_sizes, vec![16, 17]);
    assert_eq!(
        (tts.audio_pad_token_id, tts.im_start_token_id, tts.im_end_token_id),
        (11, 12, -13)
    );
    assert_eq!(
        (
            tts.audio_start_token_id,
            tts.audio_end_token_id,
            tts.audio_user_slot_token_id,
            tts.audio_assistant_slot_token_id
        ),
        (14, 15, 16, 17)
    );
    let codec = read_codec_meta(CODEC).unwrap();
    let c = codec.codec_config;
    assert_eq!(
        (c.sample_rate, c.channels, c.downsample_rate, c.num_quantizers),
        (48000, 2, 3840, 16)
    );
    let app = AppConfig::load(tts, codec, MANIFEST).unwrap();
    assert_eq!(app.prompt_templates.user_prompt_prefix_token_ids, vec![1, 2]);
    assert_eq!(app.prompt_templates.user_prompt_after_reference_token_ids, vec![3]);
    assert_eq!(app.prompt_templates.assistant_prompt_prefix_token_ids, Vec::<i32>::new());
    let t = &app.transformer_offset_specs[0];
    assert_eq!((t.index, t.input_name.as_str(), t.output_name.as_str()), (1, "in", "out"));
    assert_eq!(t.shape, vec![1, 2]);
    let a = &app.attention_cache_specs[0];
    assert_eq!((a.index, a.layer_index), (0, 4));
    let names = [
        &a.offset_input_name,
        &a.offset_output_name,
        &a.cached_keys_input_name,
        &a.cached_keys_output_name,
        &a.cached_values_input_name,
        &a.cached_values_output_name,
        &a.cached_positions_input_name,
        &a.cached_positions_output_name,
    ];
    let all: String = names.iter().map(|s| s.as_str()).collect();
    assert_eq!(all, "abcdefgh");
    assert_eq!(a.offset_shape, vec![1]);
    assert_eq!(a.cache_shape, vec![1, 2, 3, 4]);
    assert_eq!(a.positions_shape, vec![1, 5]);
    assert_eq!(app.builtin_voices.len(), 3);
    assert_eq!(app.builtin_voices[0].name, "Junhao");
    assert_eq!(app.builtin_voices[0].codes, vec![vec![1, 2], vec![3, -4]]);
    assert_eq!(app.builtin_voices[1].name, "");
    assert_eq!(app.builtin_voices[1].codes, vec![vec![], vec![6]]);
    assert_eq!(app.builtin_voices[2].codes, Vec::<Vec<i32>>::new());
}

#[test]
fn lists_of_streaming_and_voices_may_be_missing() {
    let tts = read_tts_meta(TTS).unwrap();
    let codec = read_codec_meta(
        r#"{"codec_config": {"sample_rate": 1, "channels": 1, "downsample_rate": 1,
            "num_quantizers": 1}}"#,
    )
    .unwrap();
    let manifest = r#"{"prompt_templates": {"user_prompt_prefix_token_ids": [],
        "user_prompt_after_reference_token_ids": [], "assistant_prompt_prefix_token_ids": []}}"#;
    let app = AppConfig::load(tts, codec, manifest).unwrap();
    assert_eq!(app.transformer_offset_specs.len(), 0);
    assert_eq!(app.attention_cache_specs.len(), 0);
    assert_eq!(app.builtin_voices.len(), 0);
}

#[test]
fn what_is_no_document_is_refused() {
    assert!(matches!(read_tts_meta("{"), Err(TtsError::SerdeJson(_))));
    assert!(matches!(read_codec_meta(""), Err(TtsError::SerdeJson(_))));
    let codec = read_codec_meta(CODEC).unwrap();
    let tts = read_tts_meta(TTS).unwrap();
    let e = AppConfig::load(tts, codec, "nope").err().unwrap();
    assert!(matches!(e, TtsError::SerdeJson(_)));
    assert!(e.message().starts_with("TtsError: expected"));
}

#[test]
fn missing_fields_are_reported() {
    assert!(matches!(read_tts_meta("{}"), Err(TtsError::Malformed(_))));
    assert!(matches!(read_tts_meta("[1]"), Err(TtsError::Malformed(_))));
    let negative = TTS.replace("\"n_vq\": 2", "\"n_vq\": -2");
    assert!(matches!(read_tts_meta(&negative), Err(TtsError::Malformed(f)) if f == "n_vq"));
    let fraction = TTS.replace("[16, 17]", "[16, 1.5]");
    assert!(matches!(read_tts_meta(&fraction), Err(TtsError::Malformed(_))));
    let codec = CODEC.replace("\"channels\"", "\"chanels\"");
    assert!(matches!(read_codec_meta(&codec), Err(TtsError::Malformed(f)) if f == "channels"));
    let load = |codec: &str, manifest: &str| {
        AppConfig::load(read_tts_meta(TTS).unwrap(), read_codec_meta(codec).unwrap(), manifest)
    };
    assert!(matches!(load(CODEC, "{}"), Err(TtsError::Malformed(_))));
    let broken = CODEC.replace("\"layer_index\": 4,", "");
    assert!(matches!(load(&broken, MANIFEST), Err(TtsError::Malformed(f)) if f == "layer_index"));
    let voice = MANIFEST.replace("[3, -4]", "[3, \"x\"]");
    assert!(matches!(load(CODEC, &voice), Err(TtsError::Malformed(_))));
    assert_eq!(
        TtsError::Malformed("n_vq".to_string()).message(),
        "TtsError: MalformedError: n_vq"
    );
}

#[test]
fn documents_are_read_member_by_member() {
    let doc = parse(r#"{"a": [true, null, "x"], "b": 18446744073709551615, "b": -1, "c": 2.0}"#)
        .unwrap();
    assert!(matches!(doc.unsigned_at("b"), Err(TtsError::Malformed(_))));
    assert!(matches!(doc.signed_at("b"), Ok(-1)));
    assert!(matches!(doc.signed_at("c"), Err(TtsError::Malformed(_))));
    assert!(matches!(doc.signed_at("d"), Err(TtsError::Malformed(_))));
    let items = doc.items_at("a").unwrap();
    assert!(matches!(items[0], Json::Bool(true)));
    assert!(matches!(items[1], Json::Null));
    assert!(matches!(&items[2], Json::Text(s) if s == "x"));
    let doc = parse("{\"n\": 18446744073709551615}").unwrap();
    assert!(matches!(doc.unsigned_at("n"), Ok(u64::MAX)));
    assert!(matches!(doc.signed_at("n"), Err(TtsError::Malformed(_))));
}

#[test]
fn modes_are_named() {
    for do_sample in [false, true] {
        assert_eq!(SampleMode::from_str("greedy", do_sample), SampleMode::Greedy);
        assert_eq!(SampleMode::from_str(" FULL\n", do_sample), SampleMode::Full);
        assert_eq!(SampleMode::from_str("Fixed", do_sample), SampleMode::Fixed);
    }
    assert_eq!(SampleMode::from_str("mixed3", true), SampleMode::Fixed);
    assert_eq!(SampleMode::from_str("mixed3", false), SampleMode::Greedy);
    assert_eq!(SampleMode::from_str("", true), SampleMode::Fixed);
    assert_eq!(SampleMode::from_str("other", false), SampleMode::Greedy);
    assert_eq!(SampleMode::from_str("GREED\u{212A}", true), SampleMode::Fixed);
    assert_eq!(SampleMode::from_lower("full", false), SampleMode::Full);
}

#[test]
fn generation_has_defaults() {
    let c = GenerationConfig::default();
    assert_eq!((c.max_new_frames, c.do_sample, c.sample_mode), (375, true, SampleMode::Fixed));
    assert_eq!((c.text_top_k, c.audio_top_k), (50, 25));
    assert_eq!(c.text_temperature.bits, 1.0f32.to_bits());
    assert_eq!(c.text_top_p.bits, 1.0f32.to_bits());
    assert_eq!(c.audio_temperature.bits, 0.8f32.to_bits());
    assert_eq!(c.audio_top_p.bits, 0.95f32.to_bits());
    assert_eq!(c.audio_repetition_penalty.bits, 1.2f32.to_bits());
}

#[test]
fn generation_follows_the_mode() {
    let c = GenerationConfig::with_sample_mode("greedy");
    assert_eq!((c.do_sample, c.sample_mode), (false, SampleMode::Greedy));
    let c = GenerationConfig::with_sample_mode("Full ");
    assert_eq!((c.do_sample, c.sample_mode), (true, SampleMode::Full));
    let c = GenerationConfig::with_sample_mode("unknown");
    assert_eq!((c.do_sample, c.sample_mode), (true, SampleMode::Fixed));
    let c = GenerationConfig::with_sample_mode("Greedy");
    assert_eq!((c.do_sample, c.sample_mode), (false, SampleMode::Greedy));
    assert_eq!(c.max_new_frames, 375);
}
