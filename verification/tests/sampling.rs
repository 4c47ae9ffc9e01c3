use moss_tts_nano::float::number::{Binary32, Binary64};
use moss_tts_nano::ranking::rank;
use moss_tts_nano::rng::create_numpy_compatible_rng;
use moss_tts_nano::sampling::{
    apply_repetition_penalty, argmax_with_repetition_penalty, draw, keep_top_p, ready,
    sample_assistant_text_token, sample_audio_token, sample_from_scores,
    slice_audio_channel_logits, softmax, SamplingConfig,
};
use std::collections::HashSet;

fn b(x: f32) -> Binary32 {
    Binary32 { bits: x.to_bits() }
}

fn list(values: &[f32]) -> Vec<Binary32> {
    values.iter().map(|&x| b(x)).collect()
}

fn floats(values: &[Binary32]) -> Vec<f32> {
    values.iter().map(|x| f32::from_bits(x.bits)).collect()
}

fn exp(x: Binary64) -> Binary64 {
    Binary64 { bits: f64::from_bits(x.bits).exp().to_bits() }
}

fn config(do_sample: bool) -> SamplingConfig {
    SamplingConfig {
        text_temperature: b(1.0),
        text_top_p: b(1.0),
        text_top_k: 50,
        audio_temperature: b(0.8),
        audio_top_p: b(0.95),
        audio_top_k: 3,
        audio_repetition_penalty: b(1.2),
        do_sample,
    }
}

/// Softmax on the machine's numbers.
fn machine_softmax(values: &[f32]) -> Vec<f32> {
    let max = values.iter().cloned().fold(f32::NEG_INFINITY, f32::max);
    let exps: Vec<f64> = values.iter().map(|&v| ((v - max) as f64).exp()).collect();
    let mut sum = 0.0;
    for e in &exps {
        sum += e;
    }
    exps.iter().map(|&e| (e / sum) as f32).collect()
}

/// A draw on the machine's numbers.
fn machine_sample(values: &[f32], temperature: f32, top_k: usize, top_p: f32, u: f32) -> usize {
    let mut scores: Vec<f32> = values.iter().map(|v| v / temperature).collect();
    let mut order: Vec<usize> = (0..scores.len()).collect();
    if top_k > 0 && top_k < scores.len() {
        order.sort_by(|&i, &j| scores[j].partial_cmp(&scores[i]).unwrap());
        let threshold = scores[order[top_k - 1]];
        for s in scores.iter_mut() {
            if *s < threshold {
                *s = f32::NEG_INFINITY;
            }
        }
    }
    if top_p > 0.0 && top_p < 1.0 {
        let mut order: Vec<usize> = (0..scores.len()).collect();
        order.sort_by(|&i, &j| scores[j].partial_cmp(&scores[i]).unwrap());
        let sorted: Vec<f32> = order.iter().map(|&i| scores[i]).collect();
        let probs = machine_softmax(&sorted);
        let mut sum = 0.0f32;
        let mut gone = Vec::new();
        for (rank, p) in probs.iter().enumerate() {
            if rank > 0 && sum > top_p {
                gone.push(order[rank]);
            }
            sum += p;
        }
        for i in gone {
            scores[i] = f32::NEG_INFINITY;
        }
    }
    let probs = machine_softmax(&scores);
    let mut sum = 0.0f32;
    for (i, p) in probs.iter().enumerate() {
        sum += p;
        if sum >= u {
            return i;
        }
    }
    let mut best = 0;
    for i in 0..scores.len() {
        if scores[i] >= scores[best] {
            best = i;
        }
    }
    best
}

fn step(x: &mut u64) -> f32 {
    *x = x.wrapping_mul(6364136223846793005).wrapping_add(1442695040888963407);
    ((*x >> 40) as f32 / 16777216.0) * 12.0 - 6.0
}

#[test]
fn softmax_gives_shares() {
    for values in [vec![0.0f32], vec![1.0, 2.0, 3.0], vec![-5.0, f32::NEG_INFINITY, 80.0, 0.1]] {
        assert_eq!(floats(&softmax(&list(&values), &exp)), machine_softmax(&values));
    }
    assert_eq!(softmax(&Vec::new(), &exp).len(), 0);
    // Where every exponential is zero, all shares are the same.
    let none = |_x: Binary64| Binary64 { bits: 0 };
    assert_eq!(floats(&softmax(&list(&[1.0, 2.0, 3.0, 4.0]), &none)), vec![0.25; 4]);
}

#[test]
fn scores_are_ranked() {
    assert_eq!(rank(&list(&[0.5, 2.0, 0.5, -1.0, 2.0])), vec![1, 4, 0, 2, 3]);
    assert_eq!(rank(&list(&[0.0, -0.0, f32::NEG_INFINITY])), vec![0, 1, 2]);
    assert_eq!(rank(&list(&[f32::NAN])), vec![0]);
    assert_eq!(rank(&Vec::new()), Vec::<usize>::new());
}

#[test]
fn penalties_hit_repeated_tokens_once() {
    let values = list(&[2.0, -2.0, 0.0, 6.0]);
    let r = apply_repetition_penalty(&values, &[0, 1, 0, -1, 9, 2], b(2.0));
    assert_eq!(floats(&r), vec![1.0, -4.0, 0.0, 6.0]);
    let r = apply_repetition_penalty(&values, &[0, 1], b(1.0));
    assert_eq!(floats(&r), vec![2.0, -2.0, 0.0, 6.0]);
    let r = apply_repetition_penalty(&values, &[], b(3.0));
    assert_eq!(floats(&r), vec![2.0, -2.0, 0.0, 6.0]);
}

#[test]
fn penalties_never_raise_scores() {
    let mut seed = 5u64;
    for _ in 0..2000 {
        let v = step(&mut seed);
        let p = 1.0 + step(&mut seed).abs();
        let r = apply_repetition_penalty(&[b(v)], &[0], b(p));
        assert!(f32::from_bits(r[0].bits) <= v);
    }
}

#[test]
fn greedy_decoding_takes_the_first_best() {
    let none: HashSet<i32> = HashSet::new();
    let some: HashSet<i32> = [1].into_iter().collect();
    let values = list(&[1.0, 3.0, 2.9, 3.0]);
    assert_eq!(argmax_with_repetition_penalty(&values, &none, b(1.2)), 1);
    assert_eq!(argmax_with_repetition_penalty(&values, &some, b(1.2)), 3);
    assert_eq!(argmax_with_repetition_penalty(&values, &some, b(1.0)), 1);
    let bad = list(&[f32::NAN, f32::NEG_INFINITY]);
    assert_eq!(argmax_with_repetition_penalty(&bad, &none, b(1.2)), 0);
    assert_eq!(argmax_with_repetition_penalty(&[], &none, b(1.2)), 0);
}

#[test]
fn without_sampling_the_last_best_is_taken() {
    let mut rng = create_numpy_compatible_rng(1);
    let mut other = create_numpy_compatible_rng(1);
    let values = list(&[1.0, 3.0, 2.0, 3.0]);
    assert_eq!(sample_from_scores(&values, false, b(0.0), 0, b(1.0), &mut rng, &exp), 3);
    assert_eq!(sample_from_scores(&[], false, b(0.0), 0, b(1.0), &mut rng, &exp), 0);
    // No random number has been used.
    assert_eq!(rng.draw(), other.draw());
}

#[test]
fn samples_are_those_of_the_machine() {
    let mut seed = 99u64;
    for round in 0..300u64 {
        let n = 1 + (round % 40) as usize;
        let values: Vec<f32> = (0..n).map(|_| step(&mut seed)).collect();
        let temperature = 0.3 + (round % 7) as f32 * 0.25;
        let top_k = (round % 11) as usize;
        let top_p = [0.0f32, 0.3, 0.8, 0.95, 1.0][(round % 5) as usize];
        let mut rng = create_numpy_compatible_rng(round);
        let mut twin = create_numpy_compatible_rng(round);
        let u = f32::from_bits(twin.draw23().bits);
        let got = sample_from_scores(
            &list(&values),
            true,
            b(temperature),
            top_k,
            b(top_p),
            &mut rng,
            &exp,
        );
        assert_eq!(got, machine_sample(&values, temperature, top_k, top_p, u), "round {round}");
        assert_eq!(rng.draw(), twin.draw());
    }
}

#[test]
fn only_the_top_k_are_drawn() {
    let values = list(&[0.0, 5.0, 4.0, -3.0]);
    for seed in 0..200 {
        let mut rng = create_numpy_compatible_rng(seed);
        let i = sample_from_scores(&values, true, b(10.0), 2, b(1.0), &mut rng, &exp);
        assert!(i == 1 || i == 2);
    }
}

#[test]
fn the_score_that_passes_top_p_is_kept() {
    let scores = list(&[1.0, 3.0, 2.0, 0.0]);
    let order = rank(&scores);
    assert_eq!(order, vec![1, 2, 0, 3]);
    let gone = f32::NEG_INFINITY;
    let kept = |p: f32| floats(&keep_top_p(&scores, &order, &list(&[0.5, 0.25, 0.125, 0.125]), b(p)));
    // The best one stays, whatever its probability.
    assert_eq!(kept(0.4), vec![gone, 3.0, gone, gone]);
    // At exactly one half the next one is still needed.
    assert_eq!(kept(0.5), vec![gone, 3.0, 2.0, gone]);
    assert_eq!(kept(0.8), vec![1.0, 3.0, 2.0, gone]);
    assert_eq!(kept(1.0), vec![1.0, 3.0, 2.0, 0.0]);
}

#[test]
fn a_draw_that_reaches_nothing_falls_back_to_the_best() {
    let scores = list(&[1.0, 2.0, 2.0]);
    assert_eq!(draw(&scores, &list(&[0.2, 0.3, 0.1]), b(0.9)), 2);
    assert_eq!(draw(&scores, &list(&[0.2, 0.3, 0.5]), b(0.2)), 0);
    assert_eq!(draw(&scores, &list(&[0.2, 0.3, 0.5]), b(0.45)), 1);
    // A draw of zero passes over what has no share, and what is out of the running.
    let gone = list(&[f32::NEG_INFINITY, 2.0, 1.0]);
    assert_eq!(draw(&gone, &list(&[0.0, 0.7, 0.3]), b(0.0)), 1);
    assert_eq!(draw(&gone, &list(&[0.5, 0.2, 0.3]), b(0.0)), 1);
    assert_eq!(draw(&scores, &list(&[0.0, 0.0, 1.0]), b(0.0)), 2);
    let lost = list(&[f32::NEG_INFINITY, f32::NEG_INFINITY]);
    let mut rng = create_numpy_compatible_rng(0);
    assert_eq!(sample_from_scores(&lost, true, b(1.0), 0, b(1.0), &mut rng, &exp), 1);
}

#[test]
fn the_assistant_chooses_between_two_tokens() {
    let logits = list(&[9.0, 1.0, 2.0, 3.0]);
    let mut rng = create_numpy_compatible_rng(3);
    assert_eq!(sample_assistant_text_token(&logits, 1, 3, &config(false), &mut rng, &exp), 3);
    assert_eq!(sample_assistant_text_token(&logits, 2, 1, &config(false), &mut rng, &exp), 2);
    let mut seen = HashSet::new();
    for seed in 0..50 {
        let mut rng = create_numpy_compatible_rng(seed);
        seen.insert(sample_assistant_text_token(&logits, 1, 2, &config(true), &mut rng, &exp));
    }
    assert_eq!(seen, [1, 2].into_iter().collect());
}

#[test]
fn audio_tokens_are_picked_with_a_penalty() {
    let logits = list(&[3.0, 2.9, 0.0]);
    let set: HashSet<i32> = [0].into_iter().collect();
    let mut rng = create_numpy_compatible_rng(3);
    assert_eq!(sample_audio_token(&logits, &[0], &set, &config(false), &mut rng, &exp), 1);
    let mut sure = config(true);
    sure.audio_top_k = 1;
    assert_eq!(sample_audio_token(&logits, &[0], &set, &sure, &mut rng, &exp), 1);
    assert_eq!(sample_audio_token(&logits, &[], &set, &sure, &mut rng, &exp), 0);
}

#[test]
fn channels_are_cut_out() {
    let logits = list(&[1.0, 2.0, 3.0, 4.0, 5.0, 6.0, 7.0]);
    assert_eq!(floats(&slice_audio_channel_logits(&logits, 0, 3)), vec![1.0, 2.0]);
    assert_eq!(floats(&slice_audio_channel_logits(&logits, 2, 3)), vec![5.0, 6.0]);
    assert_eq!(slice_audio_channel_logits(&[], 5, 3).len(), 0);
}

#[test]
fn what_cannot_be_sampled_is_told() {
    assert!(ready(&list(&[1.0, 2.0]), true, b(0.5)));
    assert!(!ready(&list(&[1.0, 2.0]), true, b(0.0)));
    assert!(!ready(&list(&[1.0, 2.0]), true, b(-1.0)));
    assert!(ready(&list(&[1.0, 2.0]), false, b(-1.0)));
    assert!(!ready(&list(&[1.0, f32::NAN]), false, b(1.0)));
    assert!(ready(&list(&[f32::NAN]), true, b(1.0)));
    assert!(!ready(&list(&[f32::INFINITY, 1.0]), true, b(f32::INFINITY)));
}
