//! What holds of the picking of tokens.

use crate::config::{generation_in, GenerationConfig, SampleMode};
use crate::float::arith::lemma_value_grows;
use crate::float::format::{binary32, binary64, value_of};
use crate::float::laws::{
    at_least_one, divisor_moves_closer, factor_moves_away, one_divides_all,
};
use crate::float::number::{lowest, Binary32, Binary64};
use crate::float::rounding::{rounding_keeps_order, rounding_keeps_values};
use crate::generation::{
    assistant_random, audio_random, clamped64, limit64, sampling_of,
};
use crate::ranking::{
    all_numbers, is_ranking, lemma_ranking_exists, lemma_ranking_is_unique, ranked, ranks_before,
};
use crate::rng::RngView;
use crate::sampling::{
    beyond_top_p, can_draw, candidate_scores, candidates_kept, channel_logits, contenders,
    filters_by_p,
    greedy_scores, is_assistant_pick, is_audio_pick, is_audio_token, is_drawn, is_first_best,
    is_last_best, is_pick, is_sample, is_sample_by, one, penalized, repeats, running,
    sample_is_a_place, scaled, shares, top_k_kept, top_p_kept, with_penalty, zero,
    SamplingConfig,
};
use vstd::arithmetic::power2::*;
use vstd::prelude::*;

verus! {

/// A penalty of at least one never makes a score better.
pub proof fn penalty_never_raises(v: Binary32, penalty: Binary32)
    requires
        at_least_one(penalty),
    ensures
        !penalized(v, penalty).gt(v),
{
    let f = binary32();
    if v.signed().is_finite(f) && penalty.signed().is_finite(f) {
        factor_moves_away(v.signed(), penalty);
        divisor_moves_closer(v.signed(), penalty);
    }
}

/// A token of before has its score multiplied by the penalty if it is negative,
/// and else divided by it, both when sampling and in greedy decoding; a penalty
/// of one changes nothing.
pub proof fn penalty_scales_scores(
    values: Seq<Binary32>,
    previous: Seq<i32>,
    penalty: Binary32,
    i: int,
)
    requires
        0 <= i < values.len() <= i32::MAX,
        exists|k: int| 0 <= k < previous.len() && #[trigger] previous[k] == i,
    ensures
        ({
            let sampled = with_penalty(values, previous, penalty)[i];
            let greedy = greedy_scores(values, previous.to_set(), penalty)[i];
            let one = Binary32 { bits: 0x3f80_0000 };
            &&& sampled == greedy
            &&& penalty.same(one) ==> sampled == values[i]
            &&& !penalty.same(one) && (Binary32 { bits: 0 }).gt(values[i]) ==> sampled
                == values[i].mul_spec(penalty)
            &&& !penalty.same(one) && !(Binary32 { bits: 0 }).gt(values[i]) ==> sampled
                == values[i].div_spec(penalty)
        }),
{
    let k = choose|k: int| 0 <= k < previous.len() && #[trigger] previous[k] == i;
    assert(repeats(previous, i));
    assert(previous.contains(previous[k]));
    assert(previous.to_set().contains(i as i32));
}

/// A score that fewer than `k` others are above stays in the running.
pub proof fn top_k_keeps_the_best(scores: Seq<Binary32>, k: nat, r: int)
    requires
        scores.len() <= usize::MAX,
        all_numbers(scores),
        0 < k < scores.len(),
        0 <= r < scores.len(),
        places_above(scores, r).len() < k,
    ensures
        top_k_kept(scores, k)[r] == scores[r],
{
    lemma_ranked(scores);
    let order = ranked(scores);
    let last = order[k - 1] as int;
    if scores[last].gt(scores[r]) {
        let first = order.take(k as int);
        let above = places_above(scores, r);
        assert forall|j: usize| first.to_set().contains(j) implies above.contains(j) by {
            let q = choose|q: int| 0 <= q < first.len() && first[q] == j;
            assert(order[q] == j);
            assert(0 <= order[q] < scores.len() && 0 <= order[k - 1] < scores.len());
            if q < k - 1 {
                assert(ranks_before(scores, order[q] as int, order[k - 1] as int));
            }
            assert(!scores[j as int].is_nan() && !scores[last].is_nan());
        }
        assert(first.no_duplicates()) by {
            assert forall|i: int, j: int| 0 <= i < first.len() && 0 <= j < first.len() && i
                != j implies first[i] != first[j] by {
                if first[i] == first[j] {
                    lemma_ranking_is_injective(scores, order, i, j);
                }
            }
        }
        first.unique_seq_to_set();
        lemma_places_finite(scores, r);
        vstd::set_lib::lemma_len_subset(first.to_set(), above);
    }
}

proof fn lemma_places_finite(scores: Seq<Binary32>, r: int)
    requires
        scores.len() <= usize::MAX,
    ensures
        places_above(scores, r).finite(),
{
    let all = Seq::new(scores.len(), |i: int| i as usize);
    let above = places_above(scores, r);
    assert forall|j: usize| above.contains(j) implies all.to_set().contains(j) by {
        assert(all[j as int] == j);
    }
    vstd::set_lib::lemma_len_subset(above, all.to_set());
}

/// Only the tokens of before are penalized, and each no more than once.
pub proof fn penalty_spares_new_tokens(
    values: Seq<Binary32>,
    previous: Seq<i32>,
    penalty: Binary32,
    i: int,
)
    requires
        0 <= i < values.len(),
        !repeats(previous, i),
    ensures
        with_penalty(values, previous, penalty)[i] == values[i],
{
}

proof fn lemma_ranking_is_injective(scores: Seq<Binary32>, order: Seq<usize>, i: int, j: int)
    requires
        is_ranking(scores, 0, scores.len() as int, order),
        0 <= i < order.len(),
        0 <= j < order.len(),
        order[i] == order[j],
    ensures
        i == j,
{
    if i < j {
        assert(ranks_before(scores, order[i] as int, order[j] as int));
    } else if j < i {
        assert(ranks_before(scores, order[j] as int, order[i] as int));
    }
}

/// The score that ranks first takes part in every draw: no filter puts it out
/// of the running.
pub proof fn best_score_is_kept(
    scores: Seq<Binary32>,
    order: Seq<usize>,
    k: nat,
    probs: Seq<Binary32>,
    top_p: Binary32,
)
    requires
        0 < scores.len() <= usize::MAX,
        is_ranking(scores, 0, scores.len() as int, order),
    ensures
        top_k_kept(scores, k)[order[0] as int] == scores[order[0] as int],
        top_p_kept(scores, probs, top_p)[order[0] as int] == scores[order[0] as int],
{
    lemma_ranking_is_unique(scores, order, ranked(scores));
    let best = order[0] as int;
    assert(0 <= order[0] < scores.len());
    if 1 < k < scores.len() {
        assert(ranks_before(scores, order[0] as int, order[k - 1] as int));
    }
    assert(!beyond_top_p(order, probs, top_p, scores.len() as int, best)) by {
        if beyond_top_p(order, probs, top_p, scores.len() as int, best) {
            let r = choose|r: int|
                1 <= r < scores.len() && #[trigger] order[r] == best && running(
                    probs,
                    r as nat,
                ).gt(top_p);
            lemma_ranking_is_injective(scores, order, 0, r);
        }
    }
}

/// The score at which the probabilities pass `top_p` still takes part: only
/// those behind it are put out of the running.
pub proof fn crossing_score_is_kept(
    scores: Seq<Binary32>,
    order: Seq<usize>,
    probs: Seq<Binary32>,
    top_p: Binary32,
    rank: int,
)
    requires
        scores.len() <= usize::MAX,
        is_ranking(scores, 0, scores.len() as int, order),
        0 <= rank < scores.len(),
        !running(probs, rank as nat).gt(top_p),
    ensures
        top_p_kept(scores, probs, top_p)[order[rank] as int] == scores[order[rank] as int],
{
    lemma_ranking_is_unique(scores, order, ranked(scores));
    let x = order[rank] as int;
    assert(0 <= order[rank] < scores.len());
    if beyond_top_p(order, probs, top_p, scores.len() as int, x) {
        let r = choose|r: int|
            1 <= r < scores.len() && #[trigger] order[r] == x && running(probs, r as nat).gt(
                top_p,
            );
        lemma_ranking_is_injective(scores, order, rank, r);
    }
}

/// Greedy decoding takes the best token, and no random number.
pub proof fn greedy_takes_the_best<F: Fn(Binary64) -> Binary64>(
    exp: F,
    logits: Seq<Binary32>,
    previous: Seq<i32>,
    set: Set<i32>,
    penalty: Binary32,
    u: Binary32,
    token: i32,
)
    requires
        is_audio_token(
            exp,
            logits,
            previous,
            set,
            sampling_of(
                GenerationConfig {
                    audio_repetition_penalty: penalty,
                    ..generation_in(SampleMode::Greedy)
                },
            ),
            u,
            token,
        ),
    ensures
        exists|index: usize|
            token == (#[verifier::truncate] (index as i32)) && #[trigger] is_first_best(
                greedy_scores(logits, set, penalty),
                index as int,
            ),
{
    let config = sampling_of(
        GenerationConfig {
            audio_repetition_penalty: penalty,
            ..generation_in(SampleMode::Greedy)
        },
    );
    let index = choose|index: usize|
        token == (#[verifier::truncate] (index as i32))
            && #[trigger] is_audio_pick(
            exp,
            logits,
            previous,
            set,
            config,
            u,
            index as int,
        );
    assert(is_first_best(greedy_scores(logits, set, penalty), index as int));
}

/// The first best place is one only.
pub proof fn lemma_first_best_is_unique(scores: Seq<Binary32>, a: int, b: int)
    requires
        is_first_best(scores, a),
        is_first_best(scores, b),
    ensures
        a == b,
{
}

/// The last best place is one only.
pub proof fn lemma_last_best_is_unique(scores: Seq<Binary32>, a: int, b: int)
    requires
        is_last_best(scores, a),
        is_last_best(scores, b),
    ensures
        a == b,
{
    if a < b && scores.len() > 0 {
        assert(scores[a].gt(scores[b]));
    } else if b < a && scores.len() > 0 {
        assert(scores[b].gt(scores[a]));
    }
}

/// Without sampling, the token that is picked for audio is fixed, whatever the
/// random number.
pub proof fn audio_token_without_sampling<F: Fn(Binary64) -> Binary64>(
    exp: F,
    logits: Seq<Binary32>,
    previous: Seq<i32>,
    set: Set<i32>,
    config: SamplingConfig,
    u: Binary32,
    v: Binary32,
    a: i32,
    b: i32,
)
    requires
        !config.do_sample,
        is_audio_token(exp, logits, previous, set, config, u, a),
        is_audio_token(exp, logits, previous, set, config, v, b),
    ensures
        a == b,
{
    let i = choose|index: usize|
        a == (#[verifier::truncate] (index as i32)) && #[trigger] is_audio_pick(
            exp,
            logits,
            previous,
            set,
            config,
            u,
            index as int,
        );
    let j = choose|index: usize|
        b == (#[verifier::truncate] (index as i32)) && #[trigger] is_audio_pick(
            exp,
            logits,
            previous,
            set,
            config,
            v,
            index as int,
        );
    lemma_first_best_is_unique(
        greedy_scores(logits, set, config.audio_repetition_penalty),
        i as int,
        j as int,
    );
}

/// Without sampling, the assistant's token is fixed, whatever the random number.
pub proof fn assistant_token_without_sampling<F: Fn(Binary64) -> Binary64>(
    exp: F,
    logits: Seq<Binary32>,
    slot: i32,
    end: i32,
    config: SamplingConfig,
    u: Binary32,
    v: Binary32,
    a: i32,
    b: i32,
)
    requires
        !config.do_sample,
        is_assistant_pick(exp, logits, slot, end, config, u, a),
        is_assistant_pick(exp, logits, slot, end, config, v, b),
    ensures
        a == b,
{
    let scores = candidate_scores(logits, slot, end);
    let i = choose|index: int|
        a == (if index == 0 {
            slot
        } else {
            end
        }) && #[trigger] is_pick(
            exp,
            scores,
            config.do_sample,
            config.text_temperature,
            candidates_kept(config),
            config.text_top_p,
            u,
            index,
        );
    let j = choose|index: int|
        b == (if index == 0 {
            slot
        } else {
            end
        }) && #[trigger] is_pick(
            exp,
            scores,
            config.do_sample,
            config.text_temperature,
            candidates_kept(config),
            config.text_top_p,
            v,
            index,
        );
    lemma_last_best_is_unique(scores, i, j);
}

/// A token that is picked for audio is one of those that there are logits for.
pub proof fn audio_token_is_in_codebook<F: Fn(Binary64) -> Binary64>(
    exp: F,
    logits: Seq<Binary32>,
    previous: Seq<i32>,
    set: Set<i32>,
    config: SamplingConfig,
    u: Binary32,
    token: i32,
)
    requires
        0 < logits.len() <= i32::MAX,
        is_audio_token(exp, logits, previous, set, config, u, token),
    ensures
        0 <= token < logits.len(),
{
    let index = choose|index: usize|
        token == (#[verifier::truncate] (index as i32)) && #[trigger] is_audio_pick(
            exp,
            logits,
            previous,
            set,
            config,
            u,
            index as int,
        );
    if config.do_sample {
        sample_is_a_place(
            exp,
            with_penalty(logits, previous, config.audio_repetition_penalty),
            config.audio_temperature,
            config.audio_top_k as nat,
            config.audio_top_p,
            u,
            index as int,
        );
    }
}

/// Narrowing keeps the order.
proof fn lemma_narrowing_keeps_order(x: Binary64, y: Binary64)
    requires
        !x.signed().negative,
        !y.signed().negative,
        x.signed().magnitude <= y.signed().magnitude,
        y.signed().is_finite(binary64()),
    ensures
        x.narrow_spec().signed().magnitude <= y.narrow_spec().signed().magnitude,
        y.narrow_spec().signed().magnitude <= binary32().infinity,
        !x.narrow_spec().signed().negative,
{
    let f = binary64();
    let a = x.signed().magnitude as nat;
    let b = y.signed().magnitude as nat;
    if a < b {
        lemma_value_grows(f, a, b);
    }
    let u = value_of(f, a);
    let v = value_of(f, b);
    let w = pow2(149);
    assert(u * w <= v * w) by (nonlinear_arith)
        requires
            u <= v,
    ;
    lemma_pow2_pos(1074);
    rounding_keeps_order(binary32(), u * w, v * w, pow2(1074));
}

/// The limit stays below one when it is narrowed.
proof fn lemma_limit_stays_below_one()
    ensures
        limit64().narrow_spec().signed().magnitude < 0x3f80_0000,
{
    let f = binary32();
    let significand = 0x1f_ffff_dfc9_a9adnat;
    let p = pow2(1170);
    let den = pow2(1074);
    let num = value_of(binary64(), 0x3fef_ffff_dfc9_a9ad) * pow2(149);
    lemma_pow2_pos(1170);
    lemma_pow2_pos(1074);
    // What is to be rounded is the significand times 2^1170.
    assert(0x3fef_ffff_dfc9_a9adnat / 0x10_0000_0000_0000nat == 1022);
    lemma_pow2_adds(1021, 149);
    assert(num == significand * p) by (nonlinear_arith)
        requires
            num == (significand * pow2(1021)) * pow2(149),
            p == pow2(1021) * pow2(149),
    ;
    // The last number below one, on the same scale.
    lemma2_to64();
    lemma2_to64_rest();
    let below = value_of(f, 0x3f7f_ffff);
    assert(0x3f7f_ffffnat / 0x80_0000nat == 126);
    lemma_pow2_adds(1074, 125);
    lemma_pow2_adds(29, 1170);
    assert(den * below == 0xff_ffff * (0x2000_0000 * p)) by (nonlinear_arith)
        requires
            below == 0xff_ffff * pow2(125),
            den * pow2(125) == 0x2000_0000 * p,
    ;
    assert(num < den * below) by (nonlinear_arith)
        requires
            num == significand * p,
            den * below == 0xff_ffff * (0x2000_0000 * p),
            significand == 0x1f_ffff_dfc9_a9ad,
            p > 0,
    ;
    rounding_keeps_order(f, num, den * below, den);
    rounding_keeps_values(f, 0x3f7f_ffff, den);
}

/// The random numbers that are handed to the model are from zero up to but not
/// one.
pub proof fn random_numbers_are_below_one(rng: RngView, n: nat, i: int)
    requires
        0 <= i < n,
    ensures
        !zero().gt(assistant_random(rng)),
        one().gt(assistant_random(rng)),
        !zero().gt(audio_random(rng, n)[i]),
        one().gt(audio_random(rng, n)[i]),
{
    let raw = rng.after((i + 1) as nat).fraction53();
    let x = clamped64(raw);
    assert(!x.signed().is_nan(binary64()));
    assert(!x.signed().negative) by {
        assert(!raw.signed().negative);
    }
    lemma_narrowing_keeps_order(x, limit64());
    lemma_limit_stays_below_one();
}

/// What was put out of the running is never drawn, if any score is left in it.
pub proof fn filtered_tokens_are_not_drawn(
    left: Seq<Binary32>,
    probs: Seq<Binary32>,
    u: Binary32,
    r: int,
)
    requires
        all_numbers(left),
        exists|j: int| 0 <= j < left.len() && (#[trigger] left[j]).gt(lowest()),
        probs.len() == left.len(),
        is_drawn(left, probs, u, r),
    ensures
        0 <= r < left.len(),
        left[r].gt(lowest()),
{
    let j = choose|j: int| 0 <= j < left.len() && (#[trigger] left[j]).gt(lowest());
    if !exists|i: int| 0 <= i < probs.len() && #[trigger] can_draw(left, probs, u, i) {
        assert(!left[j].gt(left[r]));
        assert(!left[r].is_nan());
    }
}

/// Whether all scores are finite.
pub open spec fn all_finite(scores: Seq<Binary32>) -> bool {
    forall|i: int| 0 <= i < scores.len() ==> (#[trigger] scores[i]).signed().is_finite(binary32())
}

/// Numbers are ranked by `ranked`.
proof fn lemma_ranked(scores: Seq<Binary32>)
    requires
        all_numbers(scores),
        scores.len() <= usize::MAX,
    ensures
        is_ranking(scores, 0, scores.len() as int, ranked(scores)),
{
    let order = lemma_ranking_exists(scores, scores.len() as int);
    assert(is_ranking(scores, 0, scores.len() as int, order));
}

/// Filters keep at least the best score in the running.
proof fn lemma_best_stays(scores: Seq<Binary32>, k: nat, probs: Seq<Binary32>, top_p: Binary32)
    requires
        scores.len() <= usize::MAX,
        all_numbers(scores),
        exists|j: int| 0 <= j < scores.len() && (#[trigger] scores[j]).gt(lowest()),
    ensures
        exists|j: int| 0 <= j < scores.len() && (#[trigger] top_k_kept(scores, k)[j]).gt(lowest()),
        exists|j: int|
            0 <= j < scores.len() && (#[trigger] top_p_kept(scores, probs, top_p)[j]).gt(lowest()),
{
    lemma_ranked(scores);
    let order = ranked(scores);
    let j = choose|j: int| 0 <= j < scores.len() && (#[trigger] scores[j]).gt(lowest());
    assert(order.contains(j as usize));
    let q = choose|q: int| 0 <= q < order.len() && order[q] == j as usize;
    if q > 0 {
        assert(ranks_before(scores, order[0] as int, order[q] as int));
    }
    assert(0 <= order[0] < scores.len());
    assert(!scores[order[0] as int].is_nan());
    best_score_is_kept(scores, order, k, probs, top_p);
    let b = order[0] as int;
    assert(top_k_kept(scores, k)[b].gt(lowest()));
    assert(top_p_kept(scores, probs, top_p)[b].gt(lowest()));
}

/// The places with a higher score than a place has.
pub open spec fn places_above(scores: Seq<Binary32>, r: int) -> Set<usize> {
    Set::new(|j: usize| j < scores.len() && scores[j as int].gt(scores[r]))
}

/// A score that top-k left in the running has fewer than `k` scores above it.
proof fn lemma_few_above(scores: Seq<Binary32>, k: nat, r: int)
    requires
        scores.len() <= usize::MAX,
        all_numbers(scores),
        0 < k < scores.len(),
        0 <= r < scores.len(),
        top_k_kept(scores, k)[r].gt(lowest()),
    ensures
        places_above(scores, r).finite(),
        places_above(scores, r).len() < k,
{
    lemma_ranked(scores);
    let order = ranked(scores);
    let above = places_above(scores, r);
    let first = order.take(k - 1);
    let last = order[k - 1] as int;
    assert(0 <= order[k - 1] < scores.len());
    assert(!scores[last].is_nan() && !scores[r].is_nan());
    assert(!scores[last].gt(scores[r]));
    assert forall|j: usize| above.contains(j) implies first.to_set().contains(j) by {
        assert(order.contains(j as int as usize));
        let q = choose|q: int| 0 <= q < order.len() && order[q] == j;
        if q >= k - 1 {
            if q > k - 1 {
                assert(ranks_before(scores, order[k - 1] as int, order[q] as int));
            }
            assert(!scores[j as int].gt(scores[last]));
            assert(!scores[j as int].is_nan());
        }
        assert(first[q] == j);
    }
    first.lemma_cardinality_of_set();
    vstd::set_lib::lemma_len_subset(above, first.to_set());
}

/// What a sample leaves in the running, and that the sample is part of it.
proof fn lemma_sample_is_left<F: Fn(Binary64) -> Binary64>(
    exp: F,
    values: Seq<Binary32>,
    temperature: Binary32,
    top_k: nat,
    top_p: Binary32,
    u: Binary32,
    ranked_exps: Seq<Binary64>,
    exps: Seq<Binary64>,
    r: int,
)
    requires
        0 < values.len() <= usize::MAX,
        all_finite(scaled(values, temperature)),
        is_sample_by(exp, values, temperature, top_k, top_p, u, ranked_exps, exps, r),
    ensures
        0 <= r < values.len(),
        all_numbers(top_k_kept(scaled(values, temperature), top_k)),
        contenders(values, temperature, top_k, top_p, ranked_exps)[r].gt(lowest()),
        top_k_kept(scaled(values, temperature), top_k)[r].gt(lowest()),
{
    let raw = scaled(values, temperature);
    let scores = top_k_kept(raw, top_k);
    let left = contenders(values, temperature, top_k, top_p, ranked_exps);
    assert forall|i: int| 0 <= i < raw.len() implies !(#[trigger] raw[i]).is_nan() by {
        assert(raw[i].signed().is_finite(binary32()));
    }
    assert(raw[0].signed().is_finite(binary32()));
    assert(raw[0].gt(lowest()));
    lemma_best_stays(raw, top_k, shares(ranked_exps), top_p);
    assert forall|i: int| 0 <= i < scores.len() implies !(#[trigger] scores[i]).is_nan() by {
        assert(!raw[i].is_nan());
    }
    lemma_best_stays(scores, top_k, shares(ranked_exps), top_p);
    assert forall|i: int| 0 <= i < left.len() implies !(#[trigger] left[i]).is_nan() by {
        assert(!scores[i].is_nan());
    }
    filtered_tokens_are_not_drawn(left, shares(exps), u, r);
}

/// A sample is among the `top_k` best: fewer scores than that are above it.
pub proof fn sample_is_among_top_k<F: Fn(Binary64) -> Binary64>(
    exp: F,
    values: Seq<Binary32>,
    temperature: Binary32,
    top_k: nat,
    top_p: Binary32,
    u: Binary32,
    r: int,
)
    requires
        values.len() <= usize::MAX,
        0 < top_k < values.len(),
        all_finite(scaled(values, temperature)),
        is_sample(exp, values, temperature, top_k, top_p, u, r),
    ensures
        0 <= r < values.len(),
        places_above(scaled(values, temperature), r).finite(),
        places_above(scaled(values, temperature), r).len() < top_k,
{
    let (ranked_exps, exps) = choose|ranked_exps: Seq<Binary64>, exps: Seq<Binary64>|
        is_sample_by(exp, values, temperature, top_k, top_p, u, ranked_exps, exps, r);
    lemma_sample_is_left(exp, values, temperature, top_k, top_p, u, ranked_exps, exps, r);
    let raw = scaled(values, temperature);
    assert forall|i: int| 0 <= i < raw.len() implies !(#[trigger] raw[i]).is_nan() by {
        assert(raw[i].signed().is_finite(binary32()));
    }
    lemma_few_above(raw, top_k, r);
}

/// The probabilities of all that ranks before a sample add up, by rank, to at
/// most `top_p`: the score at which they pass it can be drawn, none behind it.
pub proof fn sample_is_within_top_p<F: Fn(Binary64) -> Binary64>(
    exp: F,
    values: Seq<Binary32>,
    temperature: Binary32,
    top_k: nat,
    top_p: Binary32,
    u: Binary32,
    ranked_exps: Seq<Binary64>,
    exps: Seq<Binary64>,
    r: int,
)
    requires
        0 < values.len() <= usize::MAX,
        filters_by_p(top_p),
        all_finite(scaled(values, temperature)),
        is_sample_by(exp, values, temperature, top_k, top_p, u, ranked_exps, exps, r),
    ensures
        0 <= r < values.len(),
        ({
            let scores = top_k_kept(scaled(values, temperature), top_k);
            exists|rank: int|
                0 <= rank < scores.len() && #[trigger] ranked(scores)[rank] == r && !running(
                    shares(ranked_exps),
                    rank as nat,
                ).gt(top_p)
        }),
{
    lemma_sample_is_left(exp, values, temperature, top_k, top_p, u, ranked_exps, exps, r);
    let scores = top_k_kept(scaled(values, temperature), top_k);
    let probs = shares(ranked_exps);
    lemma_ranked(scores);
    let order = ranked(scores);
    assert(order.contains(r as usize));
    let rank = choose|q: int| 0 <= q < order.len() && order[q] == r as usize;
    assert(!beyond_top_p(order, probs, top_p, scores.len() as int, r));
    assert(order[rank] == r);
    if rank == 0 {
        assert(running(probs, 0) == zero());
    }
}

// --- Draws ---

/// The lower the random number, the earlier the place that is drawn.
pub proof fn lower_numbers_draw_earlier(
    scores: Seq<Binary32>,
    probs: Seq<Binary32>,
    low: Binary32,
    high: Binary32,
    a: int,
    b: int,
)
    requires
        !low.is_nan(),
        !high.is_nan(),
        !low.gt(high),
        is_drawn(scores, probs, low, a),
        is_drawn(scores, probs, high, b),
        0 <= b < probs.len(),
        can_draw(scores, probs, high, b),
    ensures
        a <= b,
{
    assert(can_draw(scores, probs, low, b));
}

/// Of two scores that take part, the first is drawn up to the number that its
/// probability is, and the second from there on.
pub proof fn shares_decide_between_two(
    scores: Seq<Binary32>,
    probs: Seq<Binary32>,
    u: Binary32,
    r: int,
)
    requires
        scores.len() == 2,
        probs.len() == 2,
        forall|i: int|
            0 <= i < 2 ==> (#[trigger] scores[i]).gt(lowest()) && probs[i].gt(
                Binary32 { bits: 0 },
            ),
        !u.is_nan(),
        !(Binary32 { bits: 0 }).add_spec(probs[0]).is_nan(),
        !(Binary32 { bits: 0 }).add_spec(probs[0]).add_spec(probs[1]).is_nan(),
        is_drawn(scores, probs, u, r),
    ensures
        ({
            let first = (Binary32 { bits: 0 }).add_spec(probs[0]);
            let both = first.add_spec(probs[1]);
            &&& !u.gt(first) ==> r == 0
            &&& u.gt(first) && !u.gt(both) ==> r == 1
        }),
{
    assert(scores[0].gt(lowest()) && scores[1].gt(lowest()));
    assert(running(probs, 0) == (Binary32 { bits: 0 }));
    let first = (Binary32 { bits: 0 }).add_spec(probs[0]);
    assert(running(probs, 1) == first);
    assert(running(probs, 2) == first.add_spec(probs[1]));
    if !u.gt(first) {
        assert(can_draw(scores, probs, u, 0));
    } else if !u.gt(first.add_spec(probs[1])) {
        assert(can_draw(scores, probs, u, 1));
        assert(!can_draw(scores, probs, u, 0));
    }
}

/// At a temperature of one, scores stay as they are.
pub proof fn temperature_of_one_changes_nothing(values: Seq<Binary32>)
    requires
        forall|i: int|
            0 <= i < values.len() ==> (#[trigger] values[i]).signed().is_finite(binary32()),
    ensures
        scaled(values, Binary32 { bits: 0x3f80_0000 }) == values,
{
    let t = Binary32 { bits: 0x3f80_0000 };
    assert forall|i: int| 0 <= i < values.len() implies #[trigger] scaled(values, t)[i]
        == values[i] by {
        one_divides_all(values[i]);
    }
}

/// The logits of the channels follow one another, each with its part of them.
pub proof fn channels_follow_one_another(logits: Seq<Binary32>, channel: nat, n_vq: nat)
    requires
        channel + 1 < n_vq,
    ensures
        ({
            let per = logits.len() / n_vq;
            &&& channel_logits(logits, 0, n_vq) == logits.take(per as int)
            &&& channel_logits(logits, channel, n_vq).len() == per
            &&& channel_logits(logits, channel, n_vq) + channel_logits(logits, channel + 1, n_vq)
                == logits.subrange((channel * per) as int, (channel * per + 2 * per) as int)
        }),
{
    let per = logits.len() / n_vq;
    let len = logits.len();
    vstd::arithmetic::div_mod::lemma_fundamental_div_mod(len as int, n_vq as int);
    vstd::arithmetic::div_mod::lemma_mod_bound(len as int, n_vq as int);
    assert((channel + 2) * per <= n_vq * per) by (nonlinear_arith)
        requires
            channel + 2 <= n_vq,
    ;
    assert((channel + 2) * per == channel * per + 2 * per) by (nonlinear_arith);
    assert((channel + 1) * per == channel * per + per) by (nonlinear_arith);
    assert(channel * per >= 0) by (nonlinear_arith);
    assert(0 * per == 0);
    assert(logits.subrange(0, per as int) == logits.take(per as int));
}

// --- When filters apply ---

/// Without a number of scores to keep, or with one that there are no more scores
/// than, all are kept.
pub proof fn top_k_of_zero_keeps_all(scores: Seq<Binary32>, k: nat)
    requires
        k == 0 || k >= scores.len(),
    ensures
        top_k_kept(scores, k) == scores,
{
}

/// With a probability between zero and one, what ranks behind where the
/// probabilities pass it is put out of the running; all else, and everything with
/// any other probability, stays.
pub proof fn top_p_applies_below_one(
    values: Seq<Binary32>,
    temperature: Binary32,
    top_k: nat,
    top_p: Binary32,
    ranked_exps: Seq<Binary64>,
    order: Seq<usize>,
    rank: int,
)
    requires
        values.len() <= usize::MAX,
        0 < rank < values.len(),
        is_ranking(
            top_k_kept(scaled(values, temperature), top_k),
            0,
            values.len() as int,
            order,
        ),
    ensures
        ({
            let scores = top_k_kept(scaled(values, temperature), top_k);
            let applies = top_p.gt(Binary32 { bits: 0 }) && (Binary32 { bits: 0x3f80_0000 }).gt(
                top_p,
            );
            let place = order[rank] as int;
            contenders(values, temperature, top_k, top_p, ranked_exps)[place] == if applies
                && running(shares(ranked_exps), rank as nat).gt(top_p) {
                Binary32 { bits: 0xff80_0000 }
            } else {
                scores[place]
            }
        }),
{
    let scores = top_k_kept(scaled(values, temperature), top_k);
    let probs = shares(ranked_exps);
    assert(scores.len() == values.len());
    lemma_ranking_is_unique(scores, order, ranked(scores));
    assert(0 <= order[rank] < scores.len());
    let place = order[rank] as int;
    if running(probs, rank as nat).gt(top_p) {
        assert(order[rank] == place);
        assert(beyond_top_p(order, probs, top_p, scores.len() as int, place));
    } else {
        crossing_score_is_kept(scores, order, probs, top_p, rank);
    }
}

/// With one candidate to keep, the assistant takes the better token even when it
/// samples.
#[verifier::rlimit(50)]
pub proof fn assistant_keeps_to_its_candidates<F: Fn(Binary64) -> Binary64>(
    exp: F,
    logits: Seq<Binary32>,
    slot: i32,
    end: i32,
    config: SamplingConfig,
    u: Binary32,
    token: i32,
)
    requires
        config.do_sample,
        config.text_top_k == 1,
        all_finite(scaled(seq![logits[slot as int], logits[end as int]], config.text_temperature)),
        is_assistant_pick(exp, logits, slot, end, config, u, token),
    ensures
        ({
            let a = logits[slot as int].div_spec(config.text_temperature);
            let b = logits[end as int].div_spec(config.text_temperature);
            &&& a.gt(b) ==> token == slot
            &&& b.gt(a) ==> token == end
        }),
{
    let values = candidate_scores(logits, slot, end);
    let index = choose|index: int|
        token == (if index == 0 {
            slot
        } else {
            end
        }) && #[trigger] is_pick(
            exp,
            values,
            config.do_sample,
            config.text_temperature,
            candidates_kept(config),
            config.text_top_p,
            u,
            index,
        );
    assert(values == seq![logits[slot as int], logits[end as int]]);
    let t = config.text_temperature;
    sample_is_among_top_k(exp, values, t, 1, config.text_top_p, u, index);
    let raw = scaled(values, t);
    assert(raw[0] == values[0].div_spec(t) && raw[1] == values[1].div_spec(t));
    lemma_none_above(raw, index, 0);
    lemma_none_above(raw, index, 1);
}

proof fn lemma_none_above(scores: Seq<Binary32>, r: int, j: usize)
    requires
        places_above(scores, r).finite(),
        places_above(scores, r).len() < 1,
        j < scores.len(),
    ensures
        !scores[j as int].gt(scores[r]),
{
    places_above(scores, r).lemma_len0_is_empty();
    assert(!places_above(scores, r).contains(j));
}

} // verus!
