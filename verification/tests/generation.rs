use moss_tts_nano::codec::{
    compute_stream_lead_seconds, resolve_stream_decode_frame_budget, AttentionState,
    StreamingDecodeSession,
};
use moss_tts_nano::config::{
    AttentionCacheSpec, PromptTemplates, TransformerOffsetSpec, TtsModelConfig,
};
use moss_tts_nano::float::number::{Binary32, Binary64};
use moss_tts_nano::generation::{
    fill_channel, generate_frame_fixed, is_ready_to_fill, is_ready_to_open, open_frame,
    opening_step, repetition_mask, sampling_config_from_gen_config, LocalRequest, Tracker,
};
use moss_tts_nano::models::{
    as_three_axes, build_input, build_next_row, last_row, numbered, row_i32, trim_codes,
};
use moss_tts_nano::rng::create_numpy_compatible_rng;
use moss_tts_nano::speech_end::EndOfSpeechDetector;
use moss_tts_nano::tensor::{fits, Tensor3};

fn b(x: f32) -> Binary32 {
    Binary32 { bits: x.to_bits() }
}

fn exp(x: Binary64) -> Binary64 {
    Binary64 { bits: f64::from_bits(x.bits).exp().to_bits() }
}

fn tts_config(n_vq: usize) -> TtsModelConfig {
    TtsModelConfig {
        n_vq,
        hidden_size: 4,
        global_layers: 1,
        global_heads: 1,
        head_dim: 4,
        local_layers: 1,
        local_heads: 1,
        local_head_dim: 4,
        vocab_size: 10,
        audio_codebook_sizes: vec![4],
        audio_pad_token_id: -1,
        im_start_token_id: 0,
        im_end_token_id: 0,
        audio_start_token_id: 7,
        audio_end_token_id: 8,
        audio_user_slot_token_id: 5,
        audio_assistant_slot_token_id: 6,
    }
}

fn cells(t: &Tensor3) -> Vec<Vec<i32>> {
    let (batch, rows, width) = t.shape();
    assert_eq!(batch, 1);
    (0..rows).map(|i| (0..width).map(|j| t.at(0, i, j)).collect()).collect()
}

#[test]
fn tensors_hold_what_is_put_in() {
    let mut t = Tensor3::new(2, 3, 4);
    assert_eq!(t.shape(), (2, 3, 4));
    assert_eq!(t.at(1, 2, 3), 0);
    t.set(1, 2, 3, 9);
    assert_eq!((t.at(1, 2, 3), t.at(0, 2, 3), t.at(1, 2, 2)), (9, 0, 0));
    let rows = vec![vec![1, 2, 3], vec![], vec![4]];
    assert_eq!(cells(&Tensor3::from_rows(&rows, 2)), vec![vec![1, 2], vec![0, 0], vec![4, 0]]);
}

#[test]
fn sizes_are_checked() {
    assert!(fits(1, 8, 16));
    assert!(fits(0, 0, 0));
    assert!(!fits(1, usize::MAX, 1));
    assert!(!fits(usize::MAX, 0, 2));
    assert!(fits(1, 0, isize::MAX as usize));
    assert!(!fits(1, 1, isize::MAX as usize / 2));
    assert!(fits(1, 1, isize::MAX as usize / 4));
}

#[test]
fn rows_are_padded() {
    assert_eq!(row_i32(3, -1, 2), vec![3, -1, -1]);
    assert_eq!(row_i32(3, -1, 0), vec![3]);
}

#[test]
fn the_input_is_prompt_text_and_answer() {
    let templates = PromptTemplates {
        user_prompt_prefix_token_ids: vec![1, 2],
        user_prompt_after_reference_token_ids: vec![3],
        assistant_prompt_prefix_token_ids: vec![4],
    };
    let codes = Tensor3::from_rows(&vec![vec![21, 22], vec![31, 32]], 2);
    let config = tts_config(2);
    let with = build_input(&[9, 10], Some(&codes), &config, &templates);
    assert_eq!(
        cells(&with),
        vec![
            vec![1, -1, -1],
            vec![2, -1, -1],
            vec![7, -1, -1],
            vec![5, 21, 22],
            vec![5, 31, 32],
            vec![8, -1, -1],
            vec![3, -1, -1],
            vec![9, -1, -1],
            vec![10, -1, -1],
            vec![4, -1, -1],
            vec![7, -1, -1],
        ]
    );
    let without = build_input(&[], None, &config, &templates);
    assert_eq!(without.shape(), (1, 7, 3));
    assert_eq!(cells(&build_next_row(&[1], &config)), vec![vec![6, 1, 0]]);
}

#[test]
fn reference_codes_are_trimmed() {
    let data = [1, 2, 3, 4, 5, 6];
    assert_eq!(cells(&trim_codes(2, 3, 2, &data)), vec![vec![1, 2], vec![3, 4]]);
    assert_eq!(trim_codes(9, 3, 2, &data).shape(), (1, 3, 2));
    assert_eq!(trim_codes(-1, 3, 2, &data).shape(), (1, 3, 2));
    assert_eq!(trim_codes(0, 3, 2, &data).shape(), (1, 0, 2));
}

#[test]
fn outputs_are_named_and_shaped() {
    assert_eq!(numbered("present_key_", 0), "present_key_0");
    assert_eq!(numbered("present_value_", 12), "present_value_12");
    assert_eq!(as_three_axes(&[1, 2, 3]), Some((1, 2, 3)));
    assert_eq!(as_three_axes(&[1, 2, 3, 4]), Some((1, 2, 12)));
    assert_eq!(as_three_axes(&[1, 2]), None);
    assert_eq!(last_row(&['a', 'b', 'c', 'd', 'e', 'f'], 3, 2), vec!['e', 'f']);
}

#[test]
fn repetition_is_marked() {
    let mut t = Tracker::new(2);
    t.record(0, 3);
    t.record(0, 1);
    t.record(0, 3);
    t.record(1, -2);
    t.record(1, 70);
    assert_eq!(t.tokens(0), &vec![3, 1, 3]);
    assert_eq!(t.set(0).len(), 2);
    assert_eq!(cells(&repetition_mask(&t, 4)), vec![vec![0, 1, 0, 1], vec![0, 0, 0, 0]]);
    t.record_frame(&[2]);
    assert_eq!(cells(&repetition_mask(&t, 4)), vec![vec![0, 1, 1, 1], vec![0, 0, 0, 0]]);
}

#[test]
fn a_frame_takes_a_number_for_each_channel() {
    let tracker = Tracker::new(3);
    let mut rng = create_numpy_compatible_rng(5);
    let mut twin = create_numpy_compatible_rng(5);
    let r = generate_frame_fixed(&tracker, 4, &mut rng);
    assert_eq!(r.assistant_random_u.bits, twin.draw24().bits);
    assert_eq!(r.audio_random_u.len(), 3);
    for u in &r.audio_random_u {
        let raw = f64::from_bits(twin.draw53().bits);
        assert_eq!(u.bits, (raw.clamp(0.0, 0.99999994) as f32).to_bits());
        let x = f32::from_bits(u.bits);
        assert!((0.0..1.0).contains(&x));
    }
    assert_eq!(rng.draw(), twin.draw());
    assert_eq!((0.99999994f64 as f32).to_bits(), 0x3f7f_ffff);
}

#[test]
fn a_frame_is_filled_channel_by_channel() {
    let config = tts_config(2);
    let mut generation = moss_tts_nano::config::GenerationConfig::with_sample_mode("greedy");
    generation.text_top_k = 50;
    let sampling = sampling_config_from_gen_config(&generation);
    let mut rng = create_numpy_compatible_rng(0);
    assert_eq!(
        opening_step(),
        LocalRequest {
            text_token_id: 0,
            audio_token_id: 0,
            channel_index: 0,
            step_type: 0,
            past_valid_lengths: 0
        }
    );
    let mut logits = vec![b(0.0); 10];
    logits[6] = b(2.0);
    logits[8] = b(1.0);
    let next = open_frame(&logits, &config, &sampling, &mut rng, &exp).unwrap();
    assert_eq!((next.text_token_id, next.step_type, next.past_valid_lengths), (6, 1, 1));
    logits[8] = b(3.0);
    assert!(open_frame(&logits, &config, &sampling, &mut rng, &exp).is_none());
    assert!(is_ready_to_open(&logits, &config, &sampling));
    assert!(!is_ready_to_open(&logits[..8], &config, &sampling));
    let mut tracker = Tracker::new(2);
    let audio = [b(0.0), b(5.0), b(1.0), b(0.0), b(9.0), b(0.0), b(0.0), b(8.9)];
    assert!(is_ready_to_fill(&audio, 1, &tracker, &sampling));
    assert!(!is_ready_to_fill(&audio, 2, &tracker, &sampling));
    assert_eq!(fill_channel(&audio, 0, &mut tracker, &sampling, &mut rng, &exp), 1);
    assert_eq!(fill_channel(&audio, 1, &mut tracker, &sampling, &mut rng, &exp), 0);
    // The second time the penalty makes the other one better.
    assert_eq!(fill_channel(&audio, 1, &mut tracker, &sampling, &mut rng, &exp), 3);
    assert_eq!(tracker.tokens(1), &vec![0, 3]);
}

#[test]
fn identical_frames_end_speech() {
    let mut d = EndOfSpeechDetector::new(3);
    assert!(!d.check(&[1, 2], 0));
    assert!(!d.check(&[1, 2], 1));
    assert!(d.check(&[1, 2], 2));
    // It starts over.
    assert!(!d.check(&[1, 2], 3));
    let mut d = EndOfSpeechDetector::new(0);
    assert!(d.check(&[1], 0));
}

#[test]
fn a_dominant_token_ends_speech_later_on() {
    let frames: Vec<Vec<i32>> = (0..8).map(|i| vec![if i == 5 { 7 } else { 1 }, i]).collect();
    for (step, ends) in [(30usize, false), (31, true)] {
        let mut d = EndOfSpeechDetector::new(8);
        for f in &frames[..7] {
            assert!(!d.check(f, step));
        }
        assert_eq!(d.check(&frames[7], step), ends);
    }
}

#[test]
fn any_token_can_dominate() {
    let mut d = EndOfSpeechDetector::new(9);
    assert!(!d.check(&[1], 40));
    for _ in 0..7 {
        assert!(!d.check(&[2], 40));
    }
    assert!(d.check(&[3], 40));
}

#[test]
fn three_tokens_in_turn_do_not_end_speech_but_two_do() {
    let mut three = EndOfSpeechDetector::new(8);
    let mut two = EndOfSpeechDetector::new(8);
    let mut ended = false;
    for i in 0..24 {
        assert!(!three.check(&[i % 3, i], 40));
        ended = two.check(&[i % 2, i], 40) || ended;
        assert_eq!(ended, i >= 7);
    }
}

#[test]
fn exactly_three_quarters_are_not_enough() {
    // Six of eight are the first token, and there are three tokens.
    let tokens = [1, 1, 1, 1, 1, 1, 2, 3];
    let mut d = EndOfSpeechDetector::new(8);
    for (i, &t) in tokens.iter().enumerate() {
        assert!(!d.check(&[t, i as i32], 40));
    }
}

#[test]
fn frames_without_tokens_are_told() {
    let mut d = EndOfSpeechDetector::new(2);
    assert!(d.accepts(&[]));
    assert!(!d.check(&[], 0));
    assert!(d.accepts(&[]));
    assert!(!d.accepts(&[1]));
    assert!(EndOfSpeechDetector::new(0).accepts(&[]));
}

#[test]
fn the_budget_follows_the_lead() {
    let secs = |x: f64| Some(Binary64 { bits: x.to_bits() });
    assert_eq!(resolve_stream_decode_frame_budget(1_000_000, 48000, None), 1);
    assert_eq!(resolve_stream_decode_frame_budget(9_600, 48000, secs(0.1)), 1);
    assert_eq!(resolve_stream_decode_frame_budget(9_600, 48000, secs(0.0)), 2);
    assert_eq!(resolve_stream_decode_frame_budget(24_000, 48000, secs(0.1)), 2);
    assert_eq!(resolve_stream_decode_frame_budget(48_000, 48000, secs(0.2)), 4);
    assert_eq!(resolve_stream_decode_frame_budget(96_000, 48000, secs(0.5)), 8);
    assert_eq!(resolve_stream_decode_frame_budget(0, 48000, secs(5.0)), 1);
    assert_eq!(resolve_stream_decode_frame_budget(0, 0, secs(0.0)), 8);
    let lead = compute_stream_lead_seconds(12_345, 44_100, secs(0.125));
    assert_eq!(f64::from_bits(lead.bits), 12_345f64 / 44_100f64 - 0.125);
    assert_eq!(compute_stream_lead_seconds(5, 5, None).bits, 0);
}

#[test]
fn the_decoder_starts_fresh() {
    let t = TransformerOffsetSpec {
        index: 0,
        input_name: "i".to_string(),
        output_name: "o".to_string(),
        shape: vec![2],
    };
    let name = || "n".to_string();
    let a = AttentionCacheSpec {
        index: 0,
        layer_index: 0,
        offset_input_name: name(),
        offset_output_name: name(),
        cached_keys_input_name: name(),
        cached_keys_output_name: name(),
        cached_values_input_name: name(),
        cached_values_output_name: name(),
        cached_positions_input_name: name(),
        cached_positions_output_name: name(),
        offset_shape: vec![1],
        cache_shape: vec![1, 2, 3, 2],
        positions_shape: vec![1, 3],
    };
    let mut s = StreamingDecodeSession::new(vec![t], vec![a], 2, 0.0f32);
    assert_eq!(s.transformer_offsets, vec![vec![0, 0]]);
    assert_eq!(s.attention[0].offset, vec![0]);
    assert_eq!(s.attention[0].keys, vec![0.0f32; 12]);
    assert_eq!(s.attention[0].values, vec![0.0f32; 12]);
    assert_eq!(s.attention[0].positions, vec![-1; 3]);
    assert!(s.frame_codes(&vec![]).is_none());
    let codes = s.frame_codes(&vec![vec![1, 2, 3], vec![4]]).unwrap();
    assert_eq!(cells(&codes), vec![vec![1, 2], vec![4, 0]]);
    s.update(
        vec![vec![5, 5]],
        vec![AttentionState {
            offset: vec![1],
            keys: vec![1.0; 12],
            values: vec![2.0; 12],
            positions: vec![0, 1, 2],
        }],
    );
    assert_eq!(s.transformer_offsets, vec![vec![5, 5]]);
    assert_eq!(s.attention[0].positions, vec![0, 1, 2]);
}
