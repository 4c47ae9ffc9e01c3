use moss_tts_nano::builder::{
    can_lay_out, check_sample_rate, resolve_preset_codes, MossTtsNanoBuilder,
};
use moss_tts_nano::config::{
    AppConfig, BuiltinVoice, CodecConfig, GenerationConfig, PromptTemplates, SampleMode,
    TtsModelConfig,
};
use moss_tts_nano::error::TtsError;
use moss_tts_nano::float::number::{Binary32, Binary64};
use moss_tts_nano::rng::create_numpy_compatible_rng;
use moss_tts_nano::synthesis::{
    estimate_inter_chunk_pause, synth, MossTtsNano, Phase, Step,
};
use moss_tts_nano::tensor::Tensor3;
use moss_tts_nano::tokenizer::Tokenizer;

fn b(x: f32) -> Binary32 {
    Binary32 { bits: x.to_bits() }
}

fn secs(x: f64) -> Binary64 {
    Binary64 { bits: x.to_bits() }
}

fn exp(x: Binary64) -> Binary64 {
    Binary64 { bits: f64::from_bits(x.bits).exp().to_bits() }
}

fn app_config(n_vq: usize) -> AppConfig {
    AppConfig {
        tts_config: TtsModelConfig {
            n_vq,
            hidden_size: 4,
            global_layers: 1,
            global_heads: 1,
            head_dim: 4,
            local_layers: 1,
            local_heads: 1,
            local_head_dim: 4,
            vocab_size: 10,
            audio_codebook_sizes: vec![4],
            audio_pad_token_id: -1,
            im_start_token_id: 0,
            im_end_token_id: 0,
            audio_start_token_id: 7,
            audio_end_token_id: 8,
            audio_user_slot_token_id: 5,
            audio_assistant_slot_token_id: 6,
        },
        codec_config: CodecConfig {
            sample_rate: 48000,
            channels: 2,
            downsample_rate: 3840,
            num_quantizers: n_vq,
        },
        prompt_templates: PromptTemplates {
            user_prompt_prefix_token_ids: vec![1],
            user_prompt_after_reference_token_ids: vec![],
            assistant_prompt_prefix_token_ids: vec![],
        },
        transformer_offset_specs: vec![],
        attention_cache_specs: vec![],
        builtin_voices: vec![
            BuiltinVoice { name: "Junhao".to_string(), codes: vec![vec![1, 2], vec![3]] },
            BuiltinVoice { name: "Ava".to_string(), codes: vec![] },
            BuiltinVoice { name: "Junhao".to_string(), codes: vec![vec![9]] },
        ],
    }
}

fn engine(mode: &str, max_text_tokens: usize) -> MossTtsNano {
    let mut e = MossTtsNano::builder()
        .voice("nobody".to_string())
        .sample_mode(mode.to_string())
        .voice_clone_max_text_tokens(max_text_tokens)
        .seed(9)
        .build(app_config(2), Tokenizer::from_bytes(&[]).unwrap(), None);
    e.gen_config.max_new_frames = 20;
    e
}

fn rows(t: &Tensor3) -> Vec<Vec<i32>> {
    let (_, n, width) = t.shape();
    (0..n).map(|i| (0..width).map(|j| t.at(0, i, j)).collect()).collect()
}

fn decode_frames(step: &Step) -> Vec<Vec<i32>> {
    match step {
        Step::Decode { codes, frame_count } => {
            assert_eq!(codes.shape().1, *frame_count);
            rows(codes)
        }
        _ => panic!("no frames to decode"),
    }
}

#[test]
fn blank_text_is_refused() {
    let e = engine("fixed", 75);
    for text in ["", "  \n\t", "\u{3000}"] {
        let error = e.synth_stream(text).err().unwrap();
        assert_eq!(error.message(), "TtsError: ConfigError: empty text after normalization");
    }
    assert!(e.synth_stream(".").is_ok());
}

#[test]
fn a_whole_synthesis_is_the_stream_put_together() {
    type Items = Vec<Result<Vec<f32>, TtsError>>;
    let nothing: Items = vec![];
    assert!(matches!(synth(nothing, TtsError::NoAudioGenerated), Err(TtsError::NoAudioGenerated)));
    let empty: Items = vec![Ok(vec![]), Ok(vec![])];
    assert!(matches!(synth(empty, TtsError::NoAudioGenerated), Err(TtsError::NoAudioGenerated)));
    let some: Items = vec![Ok(vec![0.5, 1.0]), Ok(vec![]), Ok(vec![2.0])];
    assert_eq!(synth(some, TtsError::NoAudioGenerated).unwrap(), vec![0.5, 1.0, 2.0]);
    let config = |m: &str| Err(TtsError::Config(m.to_string()));
    let failed: Items = vec![Ok(vec![0.5]), config("first"), config("second")];
    let e = synth(failed, TtsError::NoAudioGenerated).unwrap_err();
    assert_eq!(e.message(), "TtsError: ConfigError: first");
}

#[test]
fn a_synthesis_by_whole_frames() {
    let e = engine("fixed", 12);
    assert!(e.is_runnable());
    let mut s = e.synth_stream("one two. three four.").unwrap();
    assert_eq!(s.phase(), Phase::Prefill);
    let input = e.prefill_input(&s).unwrap();
    // Prompt, start, end, nine tokens of "One two." with its prefix, start.
    assert_eq!(input.shape(), (1, 4 + 9, 3));
    assert_eq!(rows(&input)[0], vec![1, -1, -1]);
    let mut twin = create_numpy_compatible_rng(9);
    let step = s.prefilled(&e, 12);
    match &step {
        Step::Frame(r) => {
            assert_eq!(r.assistant_random_u.bits, twin.draw24().bits);
            assert_eq!(r.audio_random_u.len(), 2);
            assert_eq!(rows(&r.repetition_seen_mask), vec![vec![0; 4], vec![0; 4]]);
        }
        _ => panic!("no frame"),
    }
    // The first frame is decoded at once.
    assert!(s.can_take(&e, &[3, 1]));
    assert!(!s.can_take(&e, &[3, 1, 2]));
    let step = s.frame_made(&e, true, vec![3, 1], secs(0.0));
    assert_eq!(decode_frames(&step), vec![vec![3, 1]]);
    assert!(!s.has_started());
    assert!(s.can_emit(48000));
    let step = s.decoded(&e, 48000);
    assert!(s.has_started());
    match &step {
        Step::Advance { row, past_valid_length } => {
            assert_eq!(rows(row), vec![vec![6, 3, 1]]);
            assert_eq!(*past_valid_length, 12);
        }
        _ => panic!("no row"),
    }
    assert!(s.can_advance());
    match s.advanced(&e) {
        Step::Frame(r) => {
            assert_eq!(rows(&r.repetition_seen_mask), vec![vec![0, 0, 0, 1], vec![0, 1, 0, 0]])
        }
        _ => panic!("no frame"),
    }
    // With a lead of 0.9 seconds four frames go together.
    let mut made = vec![];
    for i in 0..3 {
        let step = s.frame_made(&e, true, vec![i, 2], secs(0.1));
        made.push(vec![i, 2]);
        assert!(matches!(step, Step::Advance { .. }));
        assert!(matches!(s.advanced(&e), Step::Frame(_)));
    }
    let step = s.frame_made(&e, true, vec![0, 0], secs(0.1));
    made.push(vec![0, 0]);
    assert_eq!(decode_frames(&step), made);
    assert!(matches!(s.decoded(&e, 10), Step::Advance { .. }));
    assert!(matches!(s.advanced(&e), Step::Frame(_)));
    // What waits is decoded when speech ends.
    let step = s.frame_made(&e, true, vec![2, 2], secs(0.1));
    assert!(matches!(step, Step::Advance { .. }));
    assert!(matches!(s.advanced(&e), Step::Frame(_)));
    let step = s.frame_made(&e, false, vec![], secs(0.1));
    assert_eq!(decode_frames(&step), vec![vec![2, 2]]);
    assert_eq!(s.phase(), Phase::Flush);
    // Two words: a pause of 0.40 seconds on two channels.
    match s.decoded(&e, 5) {
        Step::Pause { samples } => assert_eq!(samples, 2 * 19200),
        _ => panic!("no pause"),
    }
    assert!(matches!(s.paused(&e), Step::Prefill));
    assert_eq!(s.chunk_index(), 1);
    // The next chunk starts over, with the same numbers.
    let mut twin = create_numpy_compatible_rng(9);
    match s.prefilled(&e, 3) {
        Step::Frame(r) => assert_eq!(r.assistant_random_u.bits, twin.draw24().bits),
        _ => panic!("no frame"),
    }
    assert!(matches!(s.frame_made(&e, false, vec![], secs(0.0)), Step::Finish));
    assert_eq!(s.phase(), Phase::Done);
}

#[test]
fn repetition_ends_a_chunk() {
    let e = engine("fixed", 75);
    let mut s = e.synth_stream("hello").unwrap();
    let mut step = s.prefilled(&e, 1);
    let mut decoded = 0;
    for i in 0..8 {
        assert!(matches!(step, Step::Frame(_)));
        step = s.frame_made(&e, true, vec![1, 1], secs(0.0));
        if i < 7 {
            // Without audio each frame is decoded by itself.
            decoded += decode_frames(&step).len();
            assert!(matches!(s.decoded(&e, 0), Step::Advance { .. }));
            step = s.advanced(&e);
        }
    }
    assert!(matches!(step, Step::Finish));
    assert_eq!(decoded, 7);
}

#[test]
fn a_chunk_has_a_limited_number_of_frames() {
    let mut e = engine("fixed", 75);
    e.gen_config.max_new_frames = 2;
    let mut s = e.synth_stream("hello").unwrap();
    let mut step = s.prefilled(&e, 1);
    for i in 0..2 {
        assert!(matches!(step, Step::Frame(_)));
        s.frame_made(&e, true, vec![i, i], secs(0.0));
        s.decoded(&e, 1);
        step = s.advanced(&e);
    }
    assert!(matches!(step, Step::Finish));
}

fn channel_logits(best: usize) -> Vec<Binary32> {
    let mut one = vec![b(0.0); 4];
    one[best] = b(10.0);
    let mut both = one.clone();
    both.extend(one);
    both
}

#[test]
fn a_synthesis_channel_by_channel() {
    for mode in ["greedy", "full"] {
        let mut e = engine(mode, 75);
        e.gen_config.audio_top_k = 1;
        e.gen_config.text_top_k = 1;
        let mut s = e.synth_stream("hello").unwrap();
        match s.prefilled(&e, 4) {
            Step::Local(r) => assert_eq!((r.step_type, r.past_valid_lengths), (0, 0)),
            _ => panic!("no step"),
        }
        let mut text = vec![b(0.0); 10];
        text[6] = b(20.0);
        assert!(s.can_open(&e, &text));
        assert!(!s.can_open(&e, &text[..7]));
        match s.opened(&e, &text, secs(0.0), &exp) {
            Step::Local(r) => {
                assert_eq!((r.text_token_id, r.audio_token_id, r.channel_index), (6, 0, 0));
                assert_eq!((r.step_type, r.past_valid_lengths), (1, 1));
            }
            _ => panic!("no step"),
        }
        assert_eq!(s.channel(), 0);
        assert!(s.can_fill(&e, &channel_logits(3)));
        match s.filled(&e, &channel_logits(3), secs(0.0), &exp) {
            Step::Local(r) => {
                assert_eq!((r.text_token_id, r.audio_token_id, r.channel_index), (0, 3, 0));
                assert_eq!((r.step_type, r.past_valid_lengths), (2, 2));
            }
            _ => panic!("no step"),
        }
        let step = s.filled(&e, &channel_logits(1), secs(0.0), &exp);
        assert_eq!(decode_frames(&step), vec![vec![3, 1]]);
        assert!(matches!(s.decoded(&e, 1), Step::Advance { .. }));
        assert!(matches!(s.advanced(&e), Step::Local(_)));
        text[8] = b(30.0);
        assert!(matches!(s.opened(&e, &text, secs(0.0), &exp), Step::Finish));
    }
}

#[test]
fn greedy_decoding_uses_no_random_numbers() {
    let e = engine("greedy", 75);
    assert_eq!(e.gen_config.sample_mode, SampleMode::Greedy);
    let other = {
        let mut o = engine("greedy", 75);
        o.seed = 77;
        o
    };
    let run = |e: &MossTtsNano| {
        let mut s = e.synth_stream("hello").unwrap();
        s.prefilled(e, 4);
        let mut text = vec![b(0.0); 10];
        text[6] = b(0.1);
        s.opened(e, &text, secs(0.0), &exp);
        let logits = [b(0.1), b(0.2), b(0.3), b(0.25), b(0.9), b(0.8), b(0.9), b(0.0)];
        s.filled(e, &logits, secs(0.0), &exp);
        decode_frames(&s.filled(e, &logits, secs(0.0), &exp))
    };
    assert_eq!(run(&e), vec![vec![2, 0]]);
    assert_eq!(run(&other), run(&e));
}

#[test]
fn pauses_depend_on_the_text() {
    assert_eq!(estimate_inter_chunk_pause("one two three four").bits, 0.40f64.to_bits());
    assert_eq!(estimate_inter_chunk_pause("one two three four five").bits, 0.24f64.to_bits());
    let e = engine("fixed", 24);
    let mut s = e.synth_stream("a bc de fg hi jk lmno. pq rs tu vw xy zz.").unwrap();
    s.prefilled(&e, 1);
    match s.frame_made(&e, false, vec![], secs(0.0)) {
        Step::Pause { samples } => assert_eq!(samples, 2 * 11520),
        _ => panic!("no pause"),
    }
}

#[test]
fn sizes_that_cannot_be_worked_with_are_told() {
    let mut e = engine("fixed", 75);
    e.app_config.tts_config.audio_codebook_sizes = vec![];
    assert!(!e.is_runnable());
    let mut e = engine("full", 75);
    e.app_config.tts_config.n_vq = 0;
    assert!(!e.is_runnable());
    e.gen_config.sample_mode = SampleMode::Fixed;
    assert!(e.is_runnable());
    e.app_config.tts_config.n_vq = usize::MAX;
    assert!(!e.is_runnable());
    let mut e = engine("fixed", 75);
    e.app_config.codec_config.channels = usize::MAX;
    assert!(!e.is_runnable());
}

#[test]
fn codes_that_lack_channels_give_no_input() {
    let mut e = engine("fixed", 75);
    let s = e.synth_stream("hello").unwrap();
    assert!(e.prefill_input(&s).is_some());
    e.set_prompt_audio(Tensor3::from_rows(&vec![vec![1]], 1));
    assert!(e.prefill_input(&s).is_none());
    e.set_prompt_audio(Tensor3::from_rows(&vec![vec![1, 2]], 2));
    let input = e.prefill_input(&s).unwrap();
    assert_eq!(rows(&input)[2], vec![5, 1, 2]);
}

#[test]
fn voices_are_found_by_name() {
    let c = app_config(2);
    assert!(can_lay_out(&c, "Junhao"));
    let codes = resolve_preset_codes(&c, "Junhao").unwrap();
    assert_eq!(rows(&codes), vec![vec![1, 2], vec![3, 0]]);
    assert_eq!(resolve_preset_codes(&c, "Ava").unwrap().shape(), (1, 0, 2));
    assert!(resolve_preset_codes(&c, "junhao").is_none());
}

#[test]
fn a_voice_that_is_not_known_changes_nothing() {
    let mut e = engine("fixed", 75);
    e.set_voice("Junhao").unwrap();
    let error = e.set_voice("Nobody").unwrap_err();
    assert_eq!(error.message(), "TtsError: ConfigError: built-in voice 'Nobody' not found");
    assert_eq!(rows(e.ref_codes.as_ref().unwrap()), vec![vec![1, 2], vec![3, 0]]);
    e.set_voice("Ava").unwrap();
    assert_eq!(e.ref_codes.as_ref().unwrap().shape(), (1, 0, 2));
}

#[test]
fn prompt_audio_wins_over_a_voice() {
    let build = |settings: MossTtsNanoBuilder<&str>, codes: Option<Tensor3>| {
        settings.build(app_config(2), Tokenizer::from_bytes(&[]).unwrap(), codes).ref_codes
    };
    let codes = || Some(Tensor3::from_rows(&vec![vec![7, 8]], 2));
    let preset = MossTtsNanoBuilder::new("m", "c");
    assert_eq!(rows(&build(preset, None).unwrap()), vec![vec![1, 2], vec![3, 0]]);
    let preset = MossTtsNanoBuilder::new("m", "c");
    assert_eq!(rows(&build(preset, codes()).unwrap()), vec![vec![1, 2], vec![3, 0]]);
    let cloned = MossTtsNanoBuilder::new("m", "c").prompt_audio_path("ref.wav");
    assert_eq!(rows(&build(cloned, codes()).unwrap()), vec![vec![7, 8]]);
    let unknown = MossTtsNanoBuilder::new("m", "c").voice("Nobody".to_string());
    assert!(build(unknown, None).is_none());
}

#[test]
fn sample_rates_are_checked() {
    for rate in [16000, 22050, 24000, 32000, 44100, 48000] {
        assert!(check_sample_rate(rate).is_ok());
    }
    let error = check_sample_rate(96000).unwrap_err();
    assert_eq!(error.message(), "TtsError: ConfigError: Unsupported sample rate");
}

#[test]
fn the_builder_has_defaults() {
    let d = MossTtsNano::builder();
    assert_eq!(d.model_dir, "models/MOSS-TTS-Nano-100M-ONNX");
    assert_eq!(d.codec_dir, "models/MOSS-Audio-Tokenizer-Nano-ONNX");
    assert_eq!((d.voice.as_str(), d.sample_mode.as_str()), ("Junhao", "fixed"));
    assert!(d.prompt_audio_path.is_none());
    assert_eq!((d.seed, d.voice_clone_max_text_tokens), (1234, 75));
    assert_eq!(d.audio_repetition_penalty.bits, 1.2f32.to_bits());
}

#[test]
fn the_builder_changes_one_thing_at_a_time() {
    let d = MossTtsNanoBuilder::new("m", "c")
        .model_dir("models")
        .codec_dir("codec")
        .voice("Ava".to_string())
        .prompt_audio_path("ref.wav")
        .sample_mode("full".to_string())
        .seed(5)
        .audio_repetition_penalty(b(1.5))
        .voice_clone_max_text_tokens(30);
    assert_eq!((d.model_dir, d.codec_dir, d.prompt_audio_path), ("models", "codec", Some("ref.wav")));
    assert_eq!((d.voice.as_str(), d.seed, d.voice_clone_max_text_tokens), ("Ava", 5, 30));
    let c: GenerationConfig = d.gen_config();
    assert_eq!((c.sample_mode, c.do_sample), (SampleMode::Full, true));
    assert_eq!(c.audio_repetition_penalty.bits, 1.5f32.to_bits());
    assert_eq!(c.audio_temperature.bits, 0.8f32.to_bits());
}
