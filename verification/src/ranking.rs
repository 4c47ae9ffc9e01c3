//! Ranking scores.

use crate::float::number::Binary32;
use vstd::prelude::*;

verus! {

/// Whether no score is undefined.
pub open spec fn all_numbers(scores: Seq<Binary32>) -> bool {
    forall|i: int| 0 <= i < scores.len() ==> !(#[trigger] scores[i]).is_nan()
}

/// Whether place `a` ranks before place `b`: by the higher score, and on a draw
/// by the lower place.
pub open spec fn ranks_before(scores: Seq<Binary32>, a: int, b: int) -> bool {
    scores[a].gt(scores[b]) || (!scores[b].gt(scores[a]) && a < b)
}

/// Whether places are in the order of their ranks.
pub open spec fn in_rank_order(scores: Seq<Binary32>, order: Seq<usize>) -> bool {
    forall|i: int, j: int|
        0 <= i < j < order.len() ==> #[trigger] ranks_before(
            scores,
            order[i] as int,
            order[j] as int,
        )
}

/// Whether `order` lists the places from `low` up to `high` by rank.
pub open spec fn is_ranking(scores: Seq<Binary32>, low: int, high: int, order: Seq<usize>) -> bool {
    &&& order.len() == high - low
    &&& forall|i: int| 0 <= i < order.len() ==> low <= #[trigger] order[i] < high
    &&& forall|x: int| low <= x < high ==> #[trigger] order.contains(x as usize)
    &&& in_rank_order(scores, order)
}

/// The places by rank.
pub open spec fn ranked(scores: Seq<Binary32>) -> Seq<usize> {
    choose|order: Seq<usize>| is_ranking(scores, 0, scores.len() as int, order)
}

/// There is one ranking only.
pub proof fn lemma_ranking_is_unique(scores: Seq<Binary32>, a: Seq<usize>, b: Seq<usize>)
    requires
        scores.len() <= usize::MAX,
        is_ranking(scores, 0, scores.len() as int, a),
        is_ranking(scores, 0, scores.len() as int, b),
    ensures
        a == b,
{
    lemma_ranking_prefix(scores, a, b, scores.len() as int);
    assert(a == b);
}

proof fn lemma_ranking_prefix(scores: Seq<Binary32>, a: Seq<usize>, b: Seq<usize>, n: int)
    requires
        scores.len() <= usize::MAX,
        is_ranking(scores, 0, scores.len() as int, a),
        is_ranking(scores, 0, scores.len() as int, b),
        0 <= n <= scores.len(),
    ensures
        forall|i: int| 0 <= i < n ==> #[trigger] a[i] == b[i],
    decreases n,
{
    if n > 0 {
        lemma_ranking_prefix(scores, a, b, n - 1);
        let x = a[n - 1];
        let y = b[n - 1];
        assert(b.contains(x as int as usize));
        assert(a.contains(y as int as usize));
        let p = choose|p: int| 0 <= p < b.len() && b[p] == x;
        let q = choose|q: int| 0 <= q < a.len() && a[q] == y;
        if p < n - 1 {
            assert(a[p] == b[p]);
            assert(ranks_before(scores, a[p] as int, a[n - 1] as int));
        } else if q < n - 1 {
            assert(a[q] == b[q]);
            assert(ranks_before(scores, b[q] as int, b[n - 1] as int));
        } else if p > n - 1 && q > n - 1 {
            assert(ranks_before(scores, b[n - 1] as int, b[p] as int));
            assert(ranks_before(scores, a[n - 1] as int, a[q] as int));
        }
    }
}

fn before(scores: &Vec<Binary32>, a: usize, b: usize) -> (r: bool)
    requires
        a < scores@.len(),
        b < scores@.len(),
    ensures
        r == ranks_before(scores@, a as int, b as int),
{
    scores[a].exceeds(scores[b]) || (!scores[b].exceeds(scores[a]) && a < b)
}

proof fn lemma_ranks_transitive(scores: Seq<Binary32>, a: int, b: int, c: int)
    requires
        all_numbers(scores),
        0 <= a < scores.len(),
        0 <= b < scores.len(),
        0 <= c < scores.len(),
        ranks_before(scores, a, b),
        ranks_before(scores, b, c),
    ensures
        ranks_before(scores, a, c),
{
    assert(!scores[a].is_nan() && !scores[b].is_nan() && !scores[c].is_nan());
}

proof fn lemma_ranks_total(scores: Seq<Binary32>, a: int, b: int)
    requires
        all_numbers(scores),
        0 <= a < scores.len(),
        0 <= b < scores.len(),
        a != b,
        !ranks_before(scores, a, b),
    ensures
        ranks_before(scores, b, a),
{
    assert(!scores[a].is_nan() && !scores[b].is_nan());
}

/// Numbers can be ranked.
pub proof fn lemma_ranking_exists(scores: Seq<Binary32>, n: int) -> (order: Seq<usize>)
    requires
        all_numbers(scores),
        0 <= n <= scores.len() <= usize::MAX,
    ensures
        is_ranking(scores, 0, n, order),
    decreases n,
{
    if n == 0 {
        Seq::empty()
    } else {
        let before = lemma_ranking_exists(scores, n - 1);
        let x = (n - 1) as usize;
        let p = lemma_insertion_place(scores, before, x, before.len() as int);
        let order = before.insert(p, x);
        assert forall|i: int| 0 <= i < order.len() implies 0 <= #[trigger] order[i] < n by {
            if i < p {
                assert(order[i] == before[i]);
            } else if i > p {
                assert(order[i] == before[i - 1]);
            }
        }
        assert forall|y: int| 0 <= y < n implies #[trigger] order.contains(y as usize) by {
            if y == n - 1 {
                assert(order[p] == y as usize);
            } else {
                assert(before.contains(y as usize));
                let q = choose|q: int| 0 <= q < before.len() && before[q] == y as usize;
                if q < p {
                    assert(order[q] == y as usize);
                } else {
                    assert(order[q + 1] == y as usize);
                }
            }
        }
        assert forall|i: int, j: int| 0 <= i < j < order.len() implies #[trigger] ranks_before(
            scores,
            order[i] as int,
            order[j] as int,
        ) by {
            if i < p && j < p {
                assert(ranks_before(scores, before[i] as int, before[j] as int));
            } else if i < p && j == p {
                assert(ranks_before(scores, before[i] as int, x as int));
            } else if i < p {
                assert(ranks_before(scores, before[i] as int, before[j - 1] as int));
            } else if i == p {
                assert(ranks_before(scores, x as int, before[j - 1] as int));
            } else {
                assert(ranks_before(scores, before[i - 1] as int, before[j - 1] as int));
            }
        }
        order
    }
}

/// Where a place belongs in a ranking, among the first `n` of it.
proof fn lemma_insertion_place(scores: Seq<Binary32>, order: Seq<usize>, x: usize, n: int) -> (p:
    int)
    requires
        all_numbers(scores),
        0 <= n <= order.len(),
        x < scores.len(),
        in_rank_order(scores, order),
        forall|i: int| 0 <= i < order.len() ==> #[trigger] order[i] < x,
        forall|j: int|
            n <= j < order.len() ==> #[trigger] ranks_before(scores, x as int, order[j] as int),
    ensures
        0 <= p <= order.len(),
        forall|i: int|
            0 <= i < p ==> #[trigger] ranks_before(scores, order[i] as int, x as int),
        forall|j: int|
            p <= j < order.len() ==> #[trigger] ranks_before(scores, x as int, order[j] as int),
    decreases n,
{
    if n == 0 {
        0
    } else {
        let last = order[n - 1];
        if ranks_before(scores, last as int, x as int) {
            assert forall|i: int| 0 <= i < n implies #[trigger] ranks_before(
                scores,
                order[i] as int,
                x as int,
            ) by {
                if i < n - 1 {
                    assert(ranks_before(scores, order[i] as int, order[n - 1] as int));
                    assert(order[i] < x && order[n - 1] < x);
                    lemma_ranks_transitive(scores, order[i] as int, last as int, x as int);
                }
            }
            n
        } else {
            assert(order[n - 1] < x);
            lemma_ranks_total(scores, last as int, x as int);
            lemma_insertion_place(scores, order, x, n - 1)
        }
    }
}

/// Merges two rankings, of neighbouring places.
#[verifier::rlimit(50)]
fn merge(scores: &Vec<Binary32>, low: usize, mid: usize, high: usize, a: Vec<usize>, b: Vec<usize>)
    -> (r: Vec<usize>)
    requires
        all_numbers(scores@),
        low <= mid <= high <= scores@.len(),
        is_ranking(scores@, low as int, mid as int, a@),
        is_ranking(scores@, mid as int, high as int, b@),
    ensures
        is_ranking(scores@, low as int, high as int, r@),
{
    let mut r: Vec<usize> = Vec::new();
    let mut i: usize = 0;
    let mut j: usize = 0;
    while i < a.len() || j < b.len()
        invariant
            all_numbers(scores@),
            low <= mid <= high <= scores@.len(),
            is_ranking(scores@, low as int, mid as int, a@),
            is_ranking(scores@, mid as int, high as int, b@),
            i <= a@.len(),
            j <= b@.len(),
            r@.len() == i + j,
            forall|k: int| 0 <= k < r@.len() ==> low <= #[trigger] r@[k] < high,
            forall|k: int| 0 <= k < i ==> r@.contains(#[trigger] a@[k]),
            forall|k: int| 0 <= k < j ==> r@.contains(#[trigger] b@[k]),
            in_rank_order(scores@, r@),
            forall|k: int, m: int|
                0 <= k < r@.len() && i <= m < a@.len() ==> #[trigger] ranks_before(
                    scores@,
                    r@[k] as int,
                    a@[m] as int,
                ),
            forall|k: int, m: int|
                0 <= k < r@.len() && j <= m < b@.len() ==> #[trigger] ranks_before(
                    scores@,
                    r@[k] as int,
                    b@[m] as int,
                ),
        decreases a.len() - i + b.len() - j,
    {
        let ghost old_r = r@;
        let take_a = i < a.len() && (j >= b.len() || before(scores, a[i], b[j]));
        if take_a {
            let x = a[i];
            r.push(x);
            proof {
                assert(r@.last() == x);
                assert forall|k: int| 0 <= k < old_r.len() implies r@[k] == #[trigger] old_r[k] by {}
                assert forall|k: int| 0 <= k < i + 1 implies r@.contains(#[trigger] a@[k]) by {
                    if k < i {
                        let p = choose|p: int| 0 <= p < old_r.len() && old_r[p] == a@[k];
                        assert(r@[p] == a@[k]);
                    } else {
                        assert(r@[r@.len() - 1] == a@[k]);
                    }
                }
                assert forall|k: int| 0 <= k < j implies r@.contains(#[trigger] b@[k]) by {
                    let p = choose|p: int| 0 <= p < old_r.len() && old_r[p] == b@[k];
                    assert(r@[p] == b@[k]);
                }
                assert forall|k: int, m: int| 0 <= k < m < r@.len() implies #[trigger] ranks_before(
                    scores@,
                    r@[k] as int,
                    r@[m] as int,
                ) by {
                    if m == old_r.len() {
                        assert(ranks_before(scores@, old_r[k] as int, a@[i as int] as int));
                    } else {
                        assert(ranks_before(scores@, old_r[k] as int, old_r[m] as int));
                    }
                }
                assert forall|k: int, m: int|
                    0 <= k < r@.len() && i + 1 <= m < a@.len() implies #[trigger] ranks_before(
                    scores@,
                    r@[k] as int,
                    a@[m] as int,
                ) by {
                    if k == old_r.len() {
                        assert(ranks_before(scores@, a@[i as int] as int, a@[m] as int));
                    } else {
                        assert(ranks_before(scores@, old_r[k] as int, a@[m] as int));
                    }
                }
                assert forall|k: int, m: int|
                    0 <= k < r@.len() && j <= m < b@.len() implies #[trigger] ranks_before(
                    scores@,
                    r@[k] as int,
                    b@[m] as int,
                ) by {
                    if k == old_r.len() {
                        if m > j {
                            assert(ranks_before(scores@, b@[j as int] as int, b@[m] as int));
                            lemma_ranks_transitive(
                                scores@,
                                x as int,
                                b@[j as int] as int,
                                b@[m] as int,
                            );
                        }
                    } else {
                        assert(ranks_before(scores@, old_r[k] as int, b@[m] as int));
                    }
                }
            }
            i = i + 1;
        } else {
            let x = b[j];
            r.push(x);
            proof {
                assert(r@.last() == x);
                assert forall|k: int| 0 <= k < old_r.len() implies r@[k] == #[trigger] old_r[k] by {}
                assert forall|k: int| 0 <= k < i implies r@.contains(#[trigger] a@[k]) by {
                    let p = choose|p: int| 0 <= p < old_r.len() && old_r[p] == a@[k];
                    assert(r@[p] == a@[k]);
                }
                assert forall|k: int| 0 <= k < j + 1 implies r@.contains(#[trigger] b@[k]) by {
                    if k < j {
                        let p = choose|p: int| 0 <= p < old_r.len() && old_r[p] == b@[k];
                        assert(r@[p] == b@[k]);
                    } else {
                        assert(r@[r@.len() - 1] == b@[k]);
                    }
                }
                assert forall|k: int, m: int| 0 <= k < m < r@.len() implies #[trigger] ranks_before(
                    scores@,
                    r@[k] as int,
                    r@[m] as int,
                ) by {
                    if m == old_r.len() {
                        assert(ranks_before(scores@, old_r[k] as int, b@[j as int] as int));
                    } else {
                        assert(ranks_before(scores@, old_r[k] as int, old_r[m] as int));
                    }
                }
                assert forall|k: int, m: int|
                    0 <= k < r@.len() && j + 1 <= m < b@.len() implies #[trigger] ranks_before(
                    scores@,
                    r@[k] as int,
                    b@[m] as int,
                ) by {
                    if k == old_r.len() {
                        assert(ranks_before(scores@, b@[j as int] as int, b@[m] as int));
                    } else {
                        assert(ranks_before(scores@, old_r[k] as int, b@[m] as int));
                    }
                }
                assert forall|k: int, m: int|
                    0 <= k < r@.len() && i <= m < a@.len() implies #[trigger] ranks_before(
                    scores@,
                    r@[k] as int,
                    a@[m] as int,
                ) by {
                    if k == old_r.len() {
                        lemma_ranks_total(scores@, a@[i as int] as int, x as int);
                        if m > i {
                            assert(ranks_before(scores@, a@[i as int] as int, a@[m] as int));
                            lemma_ranks_transitive(
                                scores@,
                                x as int,
                                a@[i as int] as int,
                                a@[m] as int,
                            );
                        }
                    } else {
                        assert(ranks_before(scores@, old_r[k] as int, a@[m] as int));
                    }
                }
            }
            j = j + 1;
        }
    }
    proof {
        assert forall|x: int| low <= x < high implies #[trigger] r@.contains(x as usize) by {
            if x < mid {
                assert(a@.contains(x as usize));
                let k = choose|k: int| 0 <= k < a@.len() && a@[k] == x as usize;
                assert(r@.contains(a@[k]));
            } else {
                assert(b@.contains(x as usize));
                let k = choose|k: int| 0 <= k < b@.len() && b@[k] == x as usize;
                assert(r@.contains(b@[k]));
            }
        }
    }
    r
}

fn rank_range(scores: &Vec<Binary32>, low: usize, high: usize) -> (r: Vec<usize>)
    requires
        all_numbers(scores@) || high - low <= 1,
        low <= high <= scores@.len(),
    ensures
        is_ranking(scores@, low as int, high as int, r@),
    decreases high - low,
{
    let mut r: Vec<usize> = Vec::new();
    if low == high {
        return r;
    }
    if high - low == 1 {
        r.push(low);
        proof {
            assert forall|x: int| low <= x < high implies #[trigger] r@.contains(x as usize) by {
                assert(r@[0] == x as usize);
            }
        }
        return r;
    }
    let mid: usize = low + (high - low) / 2;
    let a = rank_range(scores, low, mid);
    let b = rank_range(scores, mid, high);
    merge(scores, low, mid, high, a, b)
}

/// The places of scores by rank.
pub fn rank(scores: &Vec<Binary32>) -> (r: Vec<usize>)
    requires
        scores@.len() >= 2 ==> all_numbers(scores@),
    ensures
        is_ranking(scores@, 0, scores@.len() as int, r@),
        r@ == ranked(scores@),
{
    let n = scores.len();
    let r = rank_range(scores, 0, n);
    proof {
        lemma_ranking_is_unique(scores@, r@, ranked(scores@));
    }
    r
}

} // verus!
