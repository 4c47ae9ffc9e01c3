//! Picking tokens by their scores.

use crate::float::number::{lowest, Binary32, Binary64};
use crate::ranking::{all_numbers, is_ranking, rank, ranked};
use crate::rng::Random;
use std::collections::HashSet;
use vstd::prelude::*;

verus! {

broadcast use vstd::std_specs::hash::group_hash_axioms;

/// Sampling configuration for text and audio tokens.
#[derive(Debug, Clone, Copy)]
pub struct SamplingConfig {
    pub text_temperature: Binary32,
    pub text_top_p: Binary32,
    pub text_top_k: usize,
    pub audio_temperature: Binary32,
    pub audio_top_p: Binary32,
    pub audio_top_k: usize,
    pub audio_repetition_penalty: Binary32,
    pub do_sample: bool,
}

pub open spec fn zero() -> Binary32 {
    Binary32 { bits: 0 }
}

pub open spec fn one() -> Binary32 {
    Binary32 { bits: 0x3f80_0000 }
}

// --- Probabilities ---

/// The greatest score; what is no number does not count.
pub open spec fn greatest(values: Seq<Binary32>) -> Binary32
    decreases values.len(),
{
    if values.len() == 0 {
        lowest()
    } else {
        let so_far = greatest(values.drop_last());
        let v = values.last();
        if v.gt(so_far) {
            v
        } else {
            so_far
        }
    }
}

/// What the exponential is taken of for a score: how far it is below the greatest.
pub open spec fn exponent(values: Seq<Binary32>, i: int) -> Binary64 {
    values[i].sub_spec(greatest(values)).widen_spec()
}

/// Whether `exps` are the exponentials for scores.
pub open spec fn are_exponentials<F: Fn(Binary64) -> Binary64>(
    exp: F,
    values: Seq<Binary32>,
    exps: Seq<Binary64>,
) -> bool {
    &&& exps.len() == values.len()
    &&& forall|i: int|
        0 <= i < exps.len() ==> call_ensures(exp, (exponent(values, i),), #[trigger] exps[i])
}

/// The sum of the first `n` numbers, from the first on.
pub open spec fn total(exps: Seq<Binary64>, n: nat) -> Binary64
    decreases n,
{
    if n == 0 {
        Binary64 { bits: 0 }
    } else {
        total(exps, (n - 1) as nat).add_spec(exps[n - 1])
    }
}

/// The probabilities that exponentials give: each by its share of the sum.
pub open spec fn shares(exps: Seq<Binary64>) -> Seq<Binary32> {
    let sum = total(exps, exps.len());
    if sum.same(Binary64 { bits: 0 }) {
        Seq::new(exps.len(), |i: int| one().div_spec(Binary32::dyadic(exps.len(), 0)))
    } else {
        exps.map_values(|e: Binary64| e.div_spec(sum).narrow_spec())
    }
}

fn find_greatest(values: &Vec<Binary32>) -> (r: Binary32)
    ensures
        r == greatest(values@),
{
    let mut best = Binary32 { bits: 0xff80_0000 };
    let mut i: usize = 0;
    while i < values.len()
        invariant
            i <= values@.len(),
            best == greatest(values@.take(i as int)),
        decreases values.len() - i,
    {
        let v = values[i];
        proof {
            assert(values@.take(i + 1).drop_last() == values@.take(i as int));
        }
        if v.exceeds(best) {
            best = v;
        }
        i = i + 1;
    }
    proof {
        assert(values@.take(i as int) == values@);
    }
    best
}

/// The probabilities that exponentials give.
pub fn share(exps: &Vec<Binary64>) -> (r: Vec<Binary32>)
    ensures
        r@ == shares(exps@),
{
    let n = exps.len();
    let mut sum = Binary64 { bits: 0 };
    let mut i: usize = 0;
    while i < n
        invariant
            i <= n == exps@.len(),
            sum == total(exps@, i as nat),
        decreases n - i,
    {
        sum = sum.plus(exps[i]);
        i = i + 1;
    }
    let flat = sum.equals(Binary64 { bits: 0 });
    let mut r: Vec<Binary32> = Vec::new();
    let mut k: usize = 0;
    while k < n
        invariant
            k <= n == exps@.len(),
            sum == total(exps@, n as nat),
            flat == sum.same(Binary64 { bits: 0 }),
            r@ == shares(exps@).take(k as int),
        decreases n - k,
    {
        let p = if flat {
            Binary32 { bits: 0x3f80_0000 }.over(Binary32::from_dyadic(n as u64, 0))
        } else {
            exps[k].over(sum).narrow()
        };
        r.push(p);
        proof {
            assert(p == shares(exps@)[k as int]);
            assert(r@ == shares(exps@).take(k + 1));
        }
        k = k + 1;
    }
    proof {
        assert(shares(exps@).take(n as int) == shares(exps@));
    }
    r
}

/// Compute softmax over scores, with the exponential that is given.
pub fn softmax<F: Fn(Binary64) -> Binary64>(values: &Vec<Binary32>, exp: &F) -> (r: Vec<Binary32>)
    requires
        forall|x: Binary64| call_requires(*exp, (x,)),
    ensures
        exists|exps: Seq<Binary64>| are_exponentials(*exp, values@, exps) && r@ == shares(exps),
{
    let top = find_greatest(values);
    let mut exps: Vec<Binary64> = Vec::new();
    let mut i: usize = 0;
    while i < values.len()
        invariant
            i <= values@.len(),
            forall|x: Binary64| call_requires(*exp, (x,)),
            top == greatest(values@),
            exps@.len() == i,
            forall|j: int|
                0 <= j < i ==> call_ensures(*exp, (exponent(values@, j),), #[trigger] exps@[j]),
        decreases values.len() - i,
    {
        let x = values[i].minus(top).widen();
        let e = exp(x);
        exps.push(e);
        i = i + 1;
    }
    proof {
        assert(are_exponentials(*exp, values@, exps@));
    }
    share(&exps)
}

// --- Repetition ---

/// A score made worse by a penalty.
pub open spec fn penalized(v: Binary32, penalty: Binary32) -> Binary32 {
    if zero().gt(v) {
        v.mul_spec(penalty)
    } else {
        v.div_spec(penalty)
    }
}

fn penalize(v: Binary32, penalty: Binary32) -> (r: Binary32)
    ensures
        r == penalized(v, penalty),
{
    if (Binary32 { bits: 0 }).exceeds(v) {
        v.times(penalty)
    } else {
        v.over(penalty)
    }
}

/// Whether a token is among those of before.
pub open spec fn repeats(previous: Seq<i32>, i: int) -> bool {
    exists|k: int| 0 <= k < previous.len() && #[trigger] previous[k] == i
}

/// Scores with a penalty for the tokens of before.
pub open spec fn with_penalty(values: Seq<Binary32>, previous: Seq<i32>, penalty: Binary32) -> Seq<
    Binary32,
> {
    if penalty.same(one()) {
        values
    } else {
        Seq::new(
            values.len(),
            |i: int|
                if repeats(previous, i) {
                    penalized(values[i], penalty)
                } else {
                    values[i]
                },
        )
    }
}

fn copy_scores(values: &[Binary32]) -> (r: Vec<Binary32>)
    ensures
        r@ == values@,
{
    let mut r: Vec<Binary32> = Vec::new();
    let mut i: usize = 0;
    while i < values.len()
        invariant
            i <= values@.len(),
            r@ == values@.take(i as int),
        decreases values.len() - i,
    {
        r.push(values[i]);
        proof {
            assert(r@ == values@.take(i + 1));
        }
        i = i + 1;
    }
    proof {
        assert(values@.take(i as int) == values@);
    }
    r
}

/// Apply repetition penalty to scores: once to each token of before.
#[verifier::rlimit(50)]
pub fn apply_repetition_penalty(
    values: &[Binary32],
    previous_token_ids: &[i32],
    penalty: Binary32,
) -> (r: Vec<Binary32>)
    ensures
        r@ == with_penalty(values@, previous_token_ids@, penalty),
{
    let mut result = copy_scores(values);
    if penalty.equals((Binary32 { bits: 0x3f80_0000 })) {
        return result;
    }
    let ghost previous = previous_token_ids@;
    let mut seen: HashSet<usize> = HashSet::new();
    let mut k: usize = 0;
    while k < previous_token_ids.len()
        invariant
            k <= previous.len(),
            previous == previous_token_ids@,
            result@.len() == values@.len(),
            forall|id: usize|
                #[trigger] seen@.contains(id) <==> id < values@.len() && repeats(
                    previous.take(k as int),
                    id as int,
                ),
            forall|i: int|
                0 <= i < values@.len() ==> #[trigger] result@[i] == if repeats(
                    previous.take(k as int),
                    i,
                ) {
                    penalized(values@[i], penalty)
                } else {
                    values@[i]
                },
        decreases previous_token_ids.len() - k,
    {
        let token_id = previous_token_ids[k];
        let ghost before = previous.take(k as int);
        let ghost now = previous.take(k + 1);
        proof {
            assert(now == before.push(token_id));
            assert forall|i: int| #[trigger] repeats(now, i) <==> repeats(before, i) || i
                == token_id by {
                if repeats(before, i) {
                    let j = choose|j: int| 0 <= j < before.len() && #[trigger] before[j] == i;
                    assert(now[j] == i);
                }
                if i == token_id {
                    assert(now[k as int] == i);
                }
                if repeats(now, i) && i != token_id {
                    let j = choose|j: int| 0 <= j < now.len() && #[trigger] now[j] == i;
                    assert(before[j] == i);
                }
            }
        }
        if token_id >= 0 && (token_id as usize) < result.len() {
            let id: usize = token_id as usize;
            if !seen.contains(&id) {
                seen.insert(id);
                let v = result[id];
                result.set(id, penalize(v, penalty));
            }
        }
        k = k + 1;
    }
    proof {
        assert(previous.take(k as int) == previous);
        assert(result@ == with_penalty(values@, previous, penalty));
    }
    result
}

/// The score of a token in greedy decoding.
pub open spec fn greedy_score(
    values: Seq<Binary32>,
    previous: Set<i32>,
    penalty: Binary32,
    i: int,
) -> Binary32 {
    if !penalty.same(one()) && previous.contains(#[verifier::truncate] (i as i32)) {
        penalized(values[i], penalty)
    } else {
        values[i]
    }
}

/// Whether `r` is the first of the places with the highest score above the
/// lowest, or the first place if there is no such score.
pub open spec fn is_first_best(scores: Seq<Binary32>, r: int) -> bool {
    if exists|i: int| 0 <= i < scores.len() && (#[trigger] scores[i]).gt(lowest()) {
        &&& 0 <= r < scores.len()
        &&& scores[r].gt(lowest())
        &&& forall|j: int| 0 <= j < scores.len() ==> !(#[trigger] scores[j]).gt(scores[r])
        &&& forall|j: int|
            0 <= j < r && (#[trigger] scores[j]).gt(lowest()) ==> scores[r].gt(scores[j])
    } else {
        r == 0
    }
}

/// The scores of tokens in greedy decoding.
pub open spec fn greedy_scores(
    values: Seq<Binary32>,
    previous: Set<i32>,
    penalty: Binary32,
) -> Seq<Binary32> {
    Seq::new(values.len(), |i: int| greedy_score(values, previous, penalty, i))
}

/// Argmax with repetition penalty (greedy decoding).
pub fn argmax_with_repetition_penalty(
    values: &[Binary32],
    previous_token_set: &HashSet<i32>,
    penalty: Binary32,
) -> (r: usize)
    ensures
        is_first_best(greedy_scores(values@, previous_token_set@, penalty), r as int),
{
    let ghost scores = greedy_scores(values@, previous_token_set@, penalty);
    let apply_penalty = !penalty.equals(Binary32 { bits: 0x3f80_0000 });
    let mut best_index: usize = 0;
    let mut best_value = Binary32 { bits: 0xff80_0000 };
    let mut index: usize = 0;
    while index < values.len()
        invariant
            index <= values@.len(),
            scores == greedy_scores(values@, previous_token_set@, penalty),
            apply_penalty == !penalty.same(one()),
            if best_value.gt(lowest()) {
                &&& best_index < index
                &&& best_value == scores[best_index as int]
                &&& forall|j: int| 0 <= j < index ==> !(#[trigger] scores[j]).gt(best_value)
                &&& forall|j: int|
                    0 <= j < best_index && (#[trigger] scores[j]).gt(lowest()) ==> best_value.gt(
                        scores[j],
                    )
            } else {
                &&& best_index == 0
                &&& best_value == lowest()
                &&& forall|j: int| 0 <= j < index ==> !(#[trigger] scores[j]).gt(lowest())
            },
        decreases values.len() - index,
    {
        let mut score = values[index];
        if apply_penalty && previous_token_set.contains(&(#[verifier::truncate] (index as i32))) {
            score = penalize(score, penalty);
        }
        proof {
            assert(score == scores[index as int]);
        }
        if score.exceeds(best_value) {
            best_value = score;
            best_index = index;
        }
        index = index + 1;
    }
    best_index
}

/// Whether `r` is the last of the places with the highest score.
pub open spec fn is_last_best(scores: Seq<Binary32>, r: int) -> bool {
    if scores.len() == 0 {
        r == 0
    } else {
        &&& 0 <= r < scores.len()
        &&& forall|j: int| 0 <= j < scores.len() ==> !(#[trigger] scores[j]).gt(scores[r])
        &&& forall|j: int| r < j < scores.len() ==> scores[r].gt(#[trigger] scores[j])
    }
}

fn last_best(scores: &Vec<Binary32>) -> (r: usize)
    requires
        scores@.len() >= 2 ==> all_numbers(scores@),
    ensures
        is_last_best(scores@, r as int),
{
    let mut r: usize = 0;
    let mut i: usize = 1;
    while i < scores.len()
        invariant
            scores@.len() >= 2 ==> all_numbers(scores@),
            scores@.len() > 0 ==> r < i <= scores@.len(),
            scores@.len() == 0 ==> r == 0,
            forall|j: int|
                0 <= j < i && j < scores@.len() ==> !(#[trigger] scores@[j]).gt(scores@[r as int]),
            forall|j: int|
                r < j < i && j < scores@.len() ==> scores@[r as int].gt(#[trigger] scores@[j]),
        decreases scores.len() - i,
    {
        proof {
            assert(!scores@[i as int].is_nan() && !scores@[r as int].is_nan());
            assert forall|j: int| 0 <= j < i implies !(#[trigger] scores@[j]).is_nan() by {}
        }
        if !scores[r].exceeds(scores[i]) {
            r = i;
        }
        i = i + 1;
    }
    r
}

// --- Filters ---

/// The scores with those below the `k`-th highest put out of the running.
pub open spec fn top_k_kept(scores: Seq<Binary32>, k: nat) -> Seq<Binary32> {
    if 0 < k < scores.len() {
        let threshold = scores[ranked(scores)[k - 1] as int];
        scores.map_values(
            |s: Binary32|
                if threshold.gt(s) {
                    lowest()
                } else {
                    s
                },
        )
    } else {
        scores
    }
}

fn keep_top_k(scores: Vec<Binary32>, k: usize) -> (r: Vec<Binary32>)
    requires
        scores@.len() >= 2 ==> all_numbers(scores@),
    ensures
        r@ == top_k_kept(scores@, k as nat),
{
    if k == 0 || k >= scores.len() {
        return scores;
    }
    let order = rank(&scores);
    let threshold = scores[order[k - 1]];
    let mut r: Vec<Binary32> = Vec::new();
    let ghost kept = top_k_kept(scores@, k as nat);
    let mut i: usize = 0;
    while i < scores.len()
        invariant
            i <= scores@.len(),
            0 < k < scores@.len(),
            threshold == scores@[ranked(scores@)[k - 1] as int],
            kept == top_k_kept(scores@, k as nat),
            r@ == kept.take(i as int),
        decreases scores.len() - i,
    {
        let s = scores[i];
        if threshold.exceeds(s) {
            r.push(Binary32 { bits: 0xff80_0000 });
        } else {
            r.push(s);
        }
        proof {
            assert(r@.last() == kept[i as int]);
            assert(r@ == kept.take(i + 1));
        }
        i = i + 1;
    }
    proof {
        assert(kept.take(i as int) == kept);
    }
    r
}

/// The sum of the first `n` probabilities, from the first on.
pub open spec fn running(probs: Seq<Binary32>, n: nat) -> Binary32
    decreases n,
{
    if n == 0 {
        zero()
    } else {
        running(probs, (n - 1) as nat).add_spec(probs[n - 1])
    }
}

/// The scores by rank.
pub open spec fn ranked_scores(scores: Seq<Binary32>) -> Seq<Binary32> {
    ranked(scores).map_values(|i: usize| scores[i as int])
}

/// Whether a place's rank is among the first `n`, and the probabilities before
/// it add up to more than `top_p`.
pub open spec fn beyond_top_p(
    order: Seq<usize>,
    probs: Seq<Binary32>,
    top_p: Binary32,
    n: int,
    i: int,
) -> bool {
    exists|r: int|
        1 <= r < n && #[trigger] order[r] == i && running(probs, r as nat).gt(top_p)
}

/// The scores with those put out of the running that rank behind where the
/// probabilities, by rank, pass `top_p`.
pub open spec fn top_p_kept(scores: Seq<Binary32>, probs: Seq<Binary32>, top_p: Binary32) -> Seq<
    Binary32,
> {
    Seq::new(
        scores.len(),
        |i: int|
            if beyond_top_p(ranked(scores), probs, top_p, scores.len() as int, i) {
                lowest()
            } else {
                scores[i]
            },
    )
}

/// Whether filtering by probability applies.
pub open spec fn filters_by_p(top_p: Binary32) -> bool {
    top_p.gt(zero()) && one().gt(top_p)
}

/// Puts the scores out of the running that rank behind where the
/// probabilities, by rank, pass `top_p`.
#[verifier::rlimit(50)]
pub fn keep_top_p(scores: &Vec<Binary32>, order: &Vec<usize>, probs: &Vec<Binary32>, top_p: Binary32)
    -> (r: Vec<Binary32>)
    requires
        is_ranking(scores@, 0, scores@.len() as int, order@),
        order@ == ranked(scores@),
        probs@.len() == scores@.len(),
    ensures
        r@ == top_p_kept(scores@, probs@, top_p),
{
    let mut kept = copy_scores(scores.as_slice());
    let mut cumulative = Binary32 { bits: 0 };
    let mut i: usize = 1;
    while i < order.len()
        invariant
            1 <= i,
            order@.len() > 0 ==> i <= order@.len(),
            is_ranking(scores@, 0, scores@.len() as int, order@),
            probs@.len() == scores@.len(),
            kept@.len() == scores@.len(),
            cumulative == running(probs@, (i - 1) as nat),
            forall|x: int|
                0 <= x < scores@.len() ==> #[trigger] kept@[x] == if beyond_top_p(
                    order@,
                    probs@,
                    top_p,
                    i as int,
                    x,
                ) {
                    lowest()
                } else {
                    scores@[x]
                },
        decreases order.len() - i,
    {
        cumulative = cumulative.plus(probs[i - 1]);
        let passed = cumulative.exceeds(top_p);
        let ghost before = kept@;
        if passed {
            kept.set(order[i], Binary32 { bits: 0xff80_0000 });
        }
        proof {
            assert forall|x: int| 0 <= x < scores@.len() implies #[trigger] kept@[x]
                == if beyond_top_p(order@, probs@, top_p, i + 1, x) {
                lowest()
            } else {
                scores@[x]
            } by {
                assert(before[x] == before[x]);
                if beyond_top_p(order@, probs@, top_p, i as int, x) {
                    let r = choose|r: int|
                        1 <= r < i && #[trigger] order@[r] == x && running(probs@, r as nat).gt(
                            top_p,
                        );
                    assert(order@[r] == x);
                    assert(beyond_top_p(order@, probs@, top_p, i + 1, x));
                } else if passed && order@[i as int] == x {
                    assert(beyond_top_p(order@, probs@, top_p, i + 1, x));
                } else {
                    assert(!beyond_top_p(order@, probs@, top_p, i + 1, x));
                }
            }
        }
        i = i + 1;
    }
    proof {
        let n = scores@.len() as int;
        assert forall|x: int| 0 <= x < n implies beyond_top_p(order@, probs@, top_p, i as int, x)
            == #[trigger] beyond_top_p(order@, probs@, top_p, n, x) by {}
        assert(kept@ == top_p_kept(scores@, probs@, top_p));
    }
    kept
}

// --- Drawing ---

/// Whether the first `n` probabilities add up to at least `u`.
pub open spec fn reaches(probs: Seq<Binary32>, n: nat, u: Binary32) -> bool {
    running(probs, n).gt(u) || running(probs, n).same(u)
}

/// Whether a place can be drawn: the probabilities up to it reach `u`, it has a
/// share of them itself, and its score is in the running.
pub open spec fn can_draw(scores: Seq<Binary32>, probs: Seq<Binary32>, u: Binary32, i: int) -> bool {
    &&& reaches(probs, (i + 1) as nat, u)
    &&& probs[i].gt(zero())
    &&& scores[i].gt(lowest())
}

/// Whether `r` is the first place that can be drawn, or, if there is none, the
/// last place with the highest score.
pub open spec fn is_drawn(
    scores: Seq<Binary32>,
    probs: Seq<Binary32>,
    u: Binary32,
    r: int,
) -> bool {
    if exists|i: int| 0 <= i < probs.len() && #[trigger] can_draw(scores, probs, u, i) {
        &&& 0 <= r < probs.len()
        &&& can_draw(scores, probs, u, r)
        &&& forall|j: int| 0 <= j < r ==> !#[trigger] can_draw(scores, probs, u, j)
    } else {
        is_last_best(scores, r)
    }
}

/// Draws a place by its probability. What has no probability, or is out of the
/// running, is not drawn.
pub fn draw(scores: &Vec<Binary32>, probs: &Vec<Binary32>, u: Binary32) -> (r: usize)
    requires
        scores@.len() >= 2 ==> all_numbers(scores@),
        probs@.len() == scores@.len(),
    ensures
        is_drawn(scores@, probs@, u, r as int),
{
    let zero = Binary32 { bits: 0 };
    let lowest = Binary32 { bits: 0xff80_0000 };
    let mut cumulative = Binary32 { bits: 0 };
    let mut i: usize = 0;
    while i < probs.len()
        invariant
            i <= probs@.len() == scores@.len(),
            zero.bits == 0,
            lowest.bits == 0xff80_0000,
            cumulative == running(probs@, i as nat),
            forall|j: int| 0 <= j < i ==> !#[trigger] can_draw(scores@, probs@, u, j),
        decreases probs.len() - i,
    {
        cumulative = cumulative.plus(probs[i]);
        let reached = cumulative.exceeds(u) || cumulative.equals(u);
        proof {
            assert(reached == reaches(probs@, (i + 1) as nat, u));
        }
        if reached && probs[i].exceeds(zero) && scores[i].exceeds(lowest) {
            proof {
                assert(can_draw(scores@, probs@, u, i as int));
            }
            return i;
        }
        proof {
            assert(!can_draw(scores@, probs@, u, i as int));
        }
        i = i + 1;
    }
    last_best(scores)
}

// --- Sampling ---

/// Scores at a temperature.
pub open spec fn scaled(values: Seq<Binary32>, temperature: Binary32) -> Seq<Binary32> {
    values.map_values(|v: Binary32| v.div_spec(temperature))
}

/// Whether a temperature is zero or less.
pub open spec fn is_cold(temperature: Binary32) -> bool {
    zero().gt(temperature) || zero().same(temperature)
}

/// The scores that take part in a draw, given the exponentials for the scores
/// by rank.
pub open spec fn contenders(
    values: Seq<Binary32>,
    temperature: Binary32,
    top_k: nat,
    top_p: Binary32,
    ranked_exps: Seq<Binary64>,
) -> Seq<Binary32> {
    let scores = top_k_kept(scaled(values, temperature), top_k);
    if filters_by_p(top_p) {
        top_p_kept(scores, shares(ranked_exps), top_p)
    } else {
        scores
    }
}

/// Whether `r` is a sample, by two rounds of exponentials: for the scores by
/// rank, and for those that are left.
pub open spec fn is_sample_by<F: Fn(Binary64) -> Binary64>(
    exp: F,
    values: Seq<Binary32>,
    temperature: Binary32,
    top_k: nat,
    top_p: Binary32,
    u: Binary32,
    ranked_exps: Seq<Binary64>,
    exps: Seq<Binary64>,
    r: int,
) -> bool {
    let scores = top_k_kept(scaled(values, temperature), top_k);
    let left = contenders(values, temperature, top_k, top_p, ranked_exps);
    &&& filters_by_p(top_p) ==> are_exponentials(exp, ranked_scores(scores), ranked_exps)
    &&& are_exponentials(exp, left, exps)
    &&& is_drawn(left, shares(exps), u, r)
}

/// Whether `r` is a sample from scores at a temperature, with the random number `u`.
pub open spec fn is_sample<F: Fn(Binary64) -> Binary64>(
    exp: F,
    values: Seq<Binary32>,
    temperature: Binary32,
    top_k: nat,
    top_p: Binary32,
    u: Binary32,
    r: int,
) -> bool {
    exists|ranked_exps: Seq<Binary64>, exps: Seq<Binary64>|
        is_sample_by(exp, values, temperature, top_k, top_p, u, ranked_exps, exps, r)
}

/// Whether scores can be compared: none of several is undefined.
pub open spec fn comparable(values: Seq<Binary32>, do_sample: bool, temperature: Binary32) -> bool {
    values.len() >= 2 ==> all_numbers(
        if do_sample {
            scaled(values, temperature)
        } else {
            values
        },
    )
}

/// Whether tokens can be picked by these scores at all.
pub open spec fn can_sample<F: Fn(Binary64) -> Binary64>(
    exp: F,
    values: Seq<Binary32>,
    do_sample: bool,
    temperature: Binary32,
) -> bool {
    &&& forall|x: Binary64| call_requires(exp, (x,))
    &&& are_ready(values, do_sample, temperature)
}

/// Whether scores can be compared, and a temperature can be sampled at.
pub open spec fn are_ready(values: Seq<Binary32>, do_sample: bool, temperature: Binary32) -> bool {
    &&& do_sample ==> !is_cold(temperature)
    &&& comparable(values, do_sample, temperature)
}

/// Whether scores can be compared, and a temperature can be sampled at.
pub fn ready(values: &[Binary32], do_sample: bool, temperature: Binary32) -> (r: bool)
    ensures
        r == are_ready(values@, do_sample, temperature),
{
    let zero = Binary32 { bits: 0 };
    if do_sample && (zero.exceeds(temperature) || zero.equals(temperature)) {
        return false;
    }
    if values.len() < 2 {
        return true;
    }
    let ghost scores = if do_sample {
        scaled(values@, temperature)
    } else {
        values@
    };
    let mut i: usize = 0;
    while i < values.len()
        invariant
            i <= values@.len(),
            scores == if do_sample {
                scaled(values@, temperature)
            } else {
                values@
            },
            values@.len() >= 2,
            forall|j: int| 0 <= j < i ==> !(#[trigger] scores[j]).is_nan(),
        decreases values.len() - i,
    {
        let v = if do_sample {
            values[i].over(temperature)
        } else {
            values[i]
        };
        proof {
            assert(v == scores[i as int]);
        }
        if v.not_a_number() {
            proof {
                assert(!all_numbers(scores));
            }
            return false;
        }
        i = i + 1;
    }
    proof {
        assert(all_numbers(scores));
    }
    true
}

fn scale(values: &[Binary32], temperature: Binary32) -> (r: Vec<Binary32>)
    ensures
        r@ == scaled(values@, temperature),
{
    let mut r: Vec<Binary32> = Vec::new();
    let mut i: usize = 0;
    while i < values.len()
        invariant
            i <= values@.len(),
            r@ == scaled(values@, temperature).take(i as int),
        decreases values.len() - i,
    {
        r.push(values[i].over(temperature));
        proof {
            assert(r@ == scaled(values@, temperature).take(i + 1));
        }
        i = i + 1;
    }
    proof {
        assert(scaled(values@, temperature).take(i as int) == scaled(values@, temperature));
    }
    r
}

/// The scores by rank.
fn arrange(scores: &Vec<Binary32>, order: &Vec<usize>) -> (r: Vec<Binary32>)
    requires
        order@ == ranked(scores@),
        is_ranking(scores@, 0, scores@.len() as int, order@),
    ensures
        r@ == ranked_scores(scores@),
{
    let mut r: Vec<Binary32> = Vec::new();
    let mut i: usize = 0;
    while i < order.len()
        invariant
            i <= order@.len(),
            order@ == ranked(scores@),
            is_ranking(scores@, 0, scores@.len() as int, order@),
            r@ == ranked_scores(scores@).take(i as int),
        decreases order.len() - i,
    {
        r.push(scores[order[i]]);
        proof {
            assert(r@ == ranked_scores(scores@).take(i + 1));
        }
        i = i + 1;
    }
    proof {
        assert(ranked_scores(scores@).take(i as int) == ranked_scores(scores@));
    }
    r
}

proof fn lemma_filters_keep_numbers(
    scores: Seq<Binary32>,
    k: nat,
    probs: Seq<Binary32>,
    top_p: Binary32,
)
    requires
        all_numbers(scores),
    ensures
        all_numbers(top_k_kept(scores, k)),
        all_numbers(top_p_kept(scores, probs, top_p)),
{
    let a = top_k_kept(scores, k);
    assert forall|i: int| 0 <= i < a.len() implies !(#[trigger] a[i]).is_nan() by {
        assert(!scores[i].is_nan());
    }
    let b = top_p_kept(scores, probs, top_p);
    assert forall|i: int| 0 <= i < b.len() implies !(#[trigger] b[i]).is_nan() by {
        assert(!scores[i].is_nan());
    }
}

/// Sample from logits with temperature, top-k, and top-p filtering.
#[verifier::rlimit(50)]
pub fn sample_from_scores<F: Fn(Binary64) -> Binary64>(
    values: &[Binary32],
    do_sample: bool,
    temperature: Binary32,
    top_k: usize,
    top_p: Binary32,
    rng: &mut Random,
    exp: &F,
) -> (r: usize)
    requires
        can_sample(*exp, values@, do_sample, temperature),
    ensures
        !do_sample ==> final(rng)@ == old(rng)@ && is_last_best(values@, r as int),
        do_sample ==> final(rng)@ == old(rng)@.next() && is_sample(
            *exp,
            values@,
            temperature,
            top_k as nat,
            top_p,
            old(rng)@.fraction23(),
            r as int,
        ),
{
    if !do_sample {
        let scores = copy_scores(values);
        return last_best(&scores);
    }
    let scores = keep_top_k(scale(values, temperature), top_k);
    let ghost kept = scores@;
    proof {
        let none = Seq::<Binary32>::empty();
        if values@.len() >= 2 {
            lemma_filters_keep_numbers(
                scaled(values@, temperature),
                top_k as nat,
                none,
                top_p,
            );
        }
        assert(kept.len() == values@.len());
    }
    let ghost mut ranked_exps: Seq<Binary64> = Seq::empty();
    let zero = Binary32 { bits: 0 };
    let one = Binary32 { bits: 0x3f80_0000 };
    let left = if top_p.exceeds(zero) && one.exceeds(top_p) {
        let order = rank(&scores);
        let sorted = arrange(&scores, &order);
        let probs = softmax(&sorted, exp);
        proof {
            ranked_exps = choose|exps: Seq<Binary64>|
                are_exponentials(*exp, sorted@, exps) && probs@ == shares(exps);
            if values@.len() >= 2 {
                lemma_filters_keep_numbers(kept, top_k as nat, probs@, top_p);
            }
        }
        keep_top_p(&scores, &order, &probs, top_p)
    } else {
        scores
    };
    let probs = softmax(&left, exp);
    let u = rng.draw23();
    let r = draw(&left, &probs, u);
    proof {
        let exps = choose|exps: Seq<Binary64>|
            are_exponentials(*exp, left@, exps) && probs@ == shares(exps);
        assert(left@ == contenders(values@, temperature, top_k as nat, top_p, ranked_exps));
        assert(is_sample_by(
            *exp,
            values@,
            temperature,
            top_k as nat,
            top_p,
            u,
            ranked_exps,
            exps,
            r as int,
        ));
    }
    r
}

/// The places of a sample are places of the scores.
pub proof fn sample_is_a_place<F: Fn(Binary64) -> Binary64>(
    exp: F,
    values: Seq<Binary32>,
    temperature: Binary32,
    top_k: nat,
    top_p: Binary32,
    u: Binary32,
    r: int,
)
    requires
        is_sample(exp, values, temperature, top_k, top_p, u, r),
        values.len() > 0,
    ensures
        0 <= r < values.len(),
{
}

/// The scores of the two tokens that the assistant can choose between.
pub open spec fn candidate_scores(logits: Seq<Binary32>, slot: i32, end: i32) -> Seq<Binary32> {
    seq![logits[slot as int], logits[end as int]]
}

/// How many of the assistant's candidates take part.
pub open spec fn candidates_kept(config: SamplingConfig) -> nat {
    if config.text_top_k < 2 {
        config.text_top_k as nat
    } else {
        2
    }
}

/// Whether a token is picked for the assistant.
pub open spec fn is_assistant_pick<F: Fn(Binary64) -> Binary64>(
    exp: F,
    logits: Seq<Binary32>,
    slot: i32,
    end: i32,
    config: SamplingConfig,
    u: Binary32,
    r: i32,
) -> bool {
    exists|index: int|
        r == (if index == 0 {
            slot
        } else {
            end
        }) && #[trigger] is_pick(
            exp,
            candidate_scores(logits, slot, end),
            config.do_sample,
            config.text_temperature,
            candidates_kept(config),
            config.text_top_p,
            u,
            index,
        )
}

/// Sample a text token for the assistant: either the slot for audio or the end
/// of it.
pub fn sample_assistant_text_token<F: Fn(Binary64) -> Binary64>(
    text_logits: &[Binary32],
    assistant_slot_token_id: i32,
    audio_end_token_id: i32,
    config: &SamplingConfig,
    rng: &mut Random,
    exp: &F,
) -> (r: i32)
    requires
        0 <= assistant_slot_token_id < text_logits@.len(),
        0 <= audio_end_token_id < text_logits@.len(),
        can_sample(
            *exp,
            candidate_scores(text_logits@, assistant_slot_token_id, audio_end_token_id),
            config.do_sample,
            config.text_temperature,
        ),
    ensures
        is_assistant_pick(
            *exp,
            text_logits@,
            assistant_slot_token_id,
            audio_end_token_id,
            *config,
            old(rng)@.fraction23(),
            r,
        ),
        final(rng)@ == if config.do_sample {
            old(rng)@.next()
        } else {
            old(rng)@
        },
{
    let mut scores: Vec<Binary32> = Vec::new();
    scores.push(text_logits[assistant_slot_token_id as usize]);
    scores.push(text_logits[audio_end_token_id as usize]);
    proof {
        assert(scores@ == candidate_scores(
            text_logits@,
            assistant_slot_token_id,
            audio_end_token_id,
        ));
    }
    let top_k: usize = if config.text_top_k < 2 {
        config.text_top_k
    } else {
        2
    };
    let index = sample_from_scores(
        scores.as_slice(),
        config.do_sample,
        config.text_temperature,
        top_k,
        config.text_top_p,
        rng,
        exp,
    );
    proof {
        assert(is_pick(
            *exp,
            candidate_scores(text_logits@, assistant_slot_token_id, audio_end_token_id),
            config.do_sample,
            config.text_temperature,
            candidates_kept(*config),
            config.text_top_p,
            old(rng)@.fraction23(),
            index as int,
        ));
    }
    if index == 0 {
        assistant_slot_token_id
    } else {
        audio_end_token_id
    }
}

/// Whether `r` is picked from scores: the best one, or a sample.
pub open spec fn is_pick<F: Fn(Binary64) -> Binary64>(
    exp: F,
    values: Seq<Binary32>,
    do_sample: bool,
    temperature: Binary32,
    top_k: nat,
    top_p: Binary32,
    u: Binary32,
    r: int,
) -> bool {
    if do_sample {
        is_sample(exp, values, temperature, top_k, top_p, u, r)
    } else {
        is_last_best(values, r)
    }
}

/// Whether a token is picked for audio, given the tokens of before: their list
/// counts when sampling, their set otherwise.
pub open spec fn is_audio_pick<F: Fn(Binary64) -> Binary64>(
    exp: F,
    logits: Seq<Binary32>,
    previous: Seq<i32>,
    set: Set<i32>,
    config: SamplingConfig,
    u: Binary32,
    r: int,
) -> bool {
    if config.do_sample {
        is_sample(
            exp,
            with_penalty(logits, previous, config.audio_repetition_penalty),
            config.audio_temperature,
            config.audio_top_k as nat,
            config.audio_top_p,
            u,
            r,
        )
    } else {
        is_first_best(greedy_scores(logits, set, config.audio_repetition_penalty), r)
    }
}

/// Whether a token is the ID of one that is picked for audio.
pub open spec fn is_audio_token<F: Fn(Binary64) -> Binary64>(
    exp: F,
    logits: Seq<Binary32>,
    previous: Seq<i32>,
    set: Set<i32>,
    config: SamplingConfig,
    u: Binary32,
    r: i32,
) -> bool {
    exists|index: usize|
        r == (#[verifier::truncate] (index as i32)) && #[trigger] is_audio_pick(
            exp,
            logits,
            previous,
            set,
            config,
            u,
            index as int,
        )
}

/// Sample an audio token with repetition penalty: by the list of the tokens of
/// before when sampling, by their set otherwise.
pub fn sample_audio_token<F: Fn(Binary64) -> Binary64>(
    audio_logits: &[Binary32],
    previous_token_ids: &[i32],
    previous_token_set: &HashSet<i32>,
    config: &SamplingConfig,
    rng: &mut Random,
    exp: &F,
) -> (r: i32)
    requires
        config.do_sample ==> can_sample(
            *exp,
            with_penalty(audio_logits@, previous_token_ids@, config.audio_repetition_penalty),
            true,
            config.audio_temperature,
        ),
    ensures
        is_audio_token(
            *exp,
            audio_logits@,
            previous_token_ids@,
            previous_token_set@,
            *config,
            old(rng)@.fraction23(),
            r,
        ),
        final(rng)@ == if config.do_sample {
            old(rng)@.next()
        } else {
            old(rng)@
        },
{
    let index: usize = if !config.do_sample {
        argmax_with_repetition_penalty(
            audio_logits,
            previous_token_set,
            config.audio_repetition_penalty,
        )
    } else {
        let penalized = apply_repetition_penalty(
            audio_logits,
            previous_token_ids,
            config.audio_repetition_penalty,
        );
        sample_from_scores(
            penalized.as_slice(),
            true,
            config.audio_temperature,
            config.audio_top_k,
            config.audio_top_p,
            rng,
            exp,
        )
    };
    proof {
        assert(is_audio_pick(
            *exp,
            audio_logits@,
            previous_token_ids@,
            previous_token_set@,
            *config,
            old(rng)@.fraction23(),
            index as int,
        ));
    }
    #[verifier::truncate]
    (index as i32)
}

/// Slice audio channel logits from a flat array, in which each channel has the
/// same number of them.
pub fn slice_audio_channel_logits(audio_logits: &[Binary32], channel_index: usize, n_vq: usize)
    -> (r: Vec<Binary32>)
    requires
        n_vq > 0,
        (channel_index + 1) * (audio_logits@.len() / n_vq as nat) <= audio_logits@.len(),
    ensures
        r@ == channel_logits(audio_logits@, channel_index as nat, n_vq as nat),
{
    let per_channel: usize = audio_logits.len() / n_vq;
    proof {
        assert((channel_index + 1) * per_channel == channel_index * per_channel + per_channel)
            by (nonlinear_arith);
        assert(0 <= channel_index * per_channel) by (nonlinear_arith);
    }
    let start: usize = channel_index * per_channel;
    let end: usize = start + per_channel;
    copy_scores(&audio_logits[start..end])
}

/// The logits of a channel.
pub open spec fn channel_logits(logits: Seq<Binary32>, channel: nat, n_vq: nat) -> Seq<Binary32> {
    let per_channel = logits.len() / n_vq;
    logits.subrange(
        (channel * per_channel) as int,
        (channel * per_channel + per_channel) as int,
    )
}

} // verus!
