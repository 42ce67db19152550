//! Ordering candidates by their scores.
//!
//! The better of two candidates is the one with the higher score, and among
//! candidates with the same score the one that came first. A ranking lists
//! the positions of the best candidates, the best first.

use crate::matching::score::{lemma_not_below_transitive, Ratio, Score};
use vstd::prelude::*;

verus! {

/// Whether the candidate at position `i` ranks before the one at `j`: it
/// has the higher score, or the same score and the earlier position.
pub open spec fn precedes(scores: Seq<Ratio>, i: int, j: int) -> bool {
    scores[j].below(scores[i]) || (scores[i].same(scores[j]) && i < j)
}

/// Whether `order` ranks the first `count` candidates and is cut to `limit`
/// places: it lists positions below `count`, each before all that rank
/// after it, and every position that it leaves out ranks after all that it
/// lists. Where `limit` allows, it leaves none out.
pub open spec fn ranks(order: Seq<int>, scores: Seq<Ratio>, count: int, limit: nat) -> bool {
    &&& 0 <= count <= scores.len()
    &&& order.len() == if limit <= count {
        limit as int
    } else {
        count
    }
    &&& forall|k: int| 0 <= k < order.len() ==> 0 <= #[trigger] order[k] < count
    &&& forall|a: int, b: int|
        #![trigger order[a], order[b]]
        0 <= a < b < order.len() ==> precedes(scores, order[a], order[b])
    &&& forall|j: int, k: int|
        #![trigger order.contains(j), order[k]]
        0 <= j < count && !order.contains(j) && 0 <= k < order.len() ==> precedes(
            scores,
            order[k],
            j,
        )
    &&& count <= limit ==> forall|j: int| 0 <= j < count ==> #[trigger] order.contains(j)
}

/// Whether `order` is the ranking of all of `scores`, cut to `limit` places.
pub open spec fn is_ranking(order: Seq<int>, scores: Seq<Ratio>, limit: nat) -> bool {
    ranks(order, scores, scores.len() as int, limit)
}

/// Whether every one of `scores` has a positive denominator.
pub open spec fn all_positive(scores: Seq<Ratio>) -> bool {
    forall|i: int| 0 <= i < scores.len() ==> (#[trigger] scores[i]).den > 0
}

/// The values of `scores`.
pub open spec fn ratios(scores: Seq<Score>) -> Seq<Ratio> {
    scores.map_values(|score: Score| score@)
}

/// The positions that `order` holds, as mathematical integers.
pub open spec fn indices(order: Seq<usize>) -> Seq<int> {
    order.map_values(|position: usize| position as int)
}

/// Of two different candidates, exactly one ranks before the other.
pub proof fn lemma_precedes_total(scores: Seq<Ratio>, i: int, j: int)
    requires
        i != j,
    ensures
        precedes(scores, i, j) != precedes(scores, j, i),
{
}

/// Ranking before is transitive.
pub proof fn lemma_precedes_transitive(scores: Seq<Ratio>, i: int, j: int, k: int)
    requires
        all_positive(scores),
        0 <= i < scores.len(),
        0 <= j < scores.len(),
        0 <= k < scores.len(),
        precedes(scores, i, j),
        precedes(scores, j, k),
    ensures
        precedes(scores, i, k),
{
    lemma_not_below_transitive(scores[i], scores[j], scores[k]);
}

/// There is one ranking only: two that rank the same scores, cut to the
/// same number of places, are equal.
pub proof fn lemma_ranking_unique(
    first: Seq<int>,
    second: Seq<int>,
    scores: Seq<Ratio>,
    limit: nat,
)
    requires
        is_ranking(first, scores, limit),
        is_ranking(second, scores, limit),
    ensures
        first == second,
{
    assert forall|k: int| 0 <= k < first.len() implies first[k] == second[k] by {
        lemma_agree_up_to(first, second, scores, limit, k);
    }
    assert(first =~= second);
}

proof fn lemma_agree_up_to(
    first: Seq<int>,
    second: Seq<int>,
    scores: Seq<Ratio>,
    limit: nat,
    k: int,
)
    requires
        is_ranking(first, scores, limit),
        is_ranking(second, scores, limit),
        0 <= k < first.len(),
    ensures
        first[k] == second[k],
    decreases k,
{
    assert forall|m: int| 0 <= m < k implies first[m] == second[m] by {
        lemma_agree_up_to(first, second, scores, limit, m);
    }
    if first[k] != second[k] {
        lemma_precedes_total(scores, first[k], second[k]);
        lemma_misplaced(first, second, scores, limit, k);
        lemma_misplaced(second, first, scores, limit, k);
    }
}

/// Where two rankings agree before place `k` and differ at `k`, the
/// candidate that the first has there does not rank before the one that the
/// second has there.
proof fn lemma_misplaced(
    first: Seq<int>,
    second: Seq<int>,
    scores: Seq<Ratio>,
    limit: nat,
    k: int,
)
    requires
        is_ranking(first, scores, limit),
        is_ranking(second, scores, limit),
        0 <= k < first.len(),
        forall|m: int| 0 <= m < k ==> first[m] == second[m],
        first[k] != second[k],
    ensures
        !precedes(scores, first[k], second[k]),
{
    let better = first[k];
    lemma_precedes_total(scores, better, second[k]);
    if second.contains(better) {
        let m = choose|m: int| 0 <= m < second.len() && second[m] == better;
        if m < k {
            assert(first[m] == better);
            assert(precedes(scores, first[m], first[k]));
        } else {
            assert(precedes(scores, second[k], second[m]));
        }
    } else {
        assert(precedes(scores, second[k], better));
    }
}

/// What ranks before a candidate does not score below it.
proof fn lemma_precedes_not_below(scores: Seq<Ratio>, i: int, j: int)
    requires
        precedes(scores, i, j),
    ensures
        !scores[i].below(scores[j]),
{
}

/// A ranking of the first `count` candidates in which the next candidate
/// has no place ranks the first `count + 1` as well.
proof fn lemma_ranks_passed_over(order: Seq<int>, scores: Seq<Ratio>, count: int, limit: nat)
    requires
        all_positive(scores),
        ranks(order, scores, count, limit),
        count < scores.len(),
        order.len() == limit,
        limit > 0 ==> !scores[order[limit - 1]].below(scores[count]),
    ensures
        ranks(order, scores, count + 1, limit),
{
    assert forall|j: int, k: int|
        #![trigger order.contains(j), order[k]]
        0 <= j < count + 1 && !order.contains(j) && 0 <= k < order.len() implies precedes(
        scores,
        order[k],
        j,
    ) by {
        if j == count {
            let last = limit - 1;
            if k < last {
                assert(precedes(scores, order[k], order[last]));
                lemma_precedes_not_below(scores, order[k], order[last]);
                lemma_not_below_transitive(scores[order[k]], scores[order[last]], scores[count]);
            }
        }
    }
}

/// A ranking of the first `count` candidates with the next one put in at
/// place `p`, and cut to `limit` places, ranks the first `count + 1`.
proof fn lemma_ranks_inserted(
    order: Seq<int>,
    next: Seq<int>,
    scores: Seq<Ratio>,
    count: int,
    p: int,
    limit: nat,
)
    requires
        all_positive(scores),
        ranks(order, scores, count, limit),
        count < scores.len(),
        0 <= p <= order.len(),
        p < limit,
        forall|b: int| p <= b < order.len() ==> scores[#[trigger] order[b]].below(scores[count]),
        p > 0 ==> !scores[order[p - 1]].below(scores[count]),
        next.len() == if order.len() < limit {
            order.len() as int + 1
        } else {
            limit as int
        },
        forall|k: int| 0 <= k < p ==> next[k] == order[k],
        next[p] == count,
        forall|k: int| p < k < next.len() ==> next[k] == order[k - 1],
    ensures
        ranks(next, scores, count + 1, limit),
{
    // Whatever stands before place `p` ranks before the new candidate.
    assert forall|a: int| 0 <= a < p implies precedes(scores, #[trigger] order[a], count) by {
        if a < p - 1 {
            assert(precedes(scores, order[a], order[p - 1]));
            lemma_precedes_not_below(scores, order[a], order[p - 1]);
            lemma_not_below_transitive(scores[order[a]], scores[order[p - 1]], scores[count]);
        }
    }
    assert(next.contains(count)) by {
        assert(next[p] == count);
    }
    assert forall|a: int, b: int|
        #![trigger next[a], next[b]]
        0 <= a < b < next.len() implies precedes(scores, next[a], next[b]) by {
        if b < p {
            assert(precedes(scores, order[a], order[b]));
        } else if b == p {
            assert(precedes(scores, order[a], count));
        } else if a < p {
            assert(precedes(scores, order[a], order[b - 1]));
        } else if a == p {
            assert(scores[order[b - 1]].below(scores[count]));
        } else {
            assert(precedes(scores, order[a - 1], order[b - 1]));
        }
    }
    assert forall|j: int, k: int|
        #![trigger next.contains(j), next[k]]
        0 <= j < count + 1 && !next.contains(j) && 0 <= k < next.len() implies precedes(
        scores,
        next[k],
        j,
    ) by {
        if order.contains(j) {
            let m = choose|m: int| 0 <= m < order.len() && order[m] == j;
            if m < p {
                assert(next[m] == j);
            } else if m + 1 < next.len() {
                assert(next[m + 1] == j);
            } else {
                // `j` is the candidate that lost the last place.
                if k < p {
                    assert(precedes(scores, order[k], order[m]));
                } else if k == p {
                    assert(scores[order[m]].below(scores[count]));
                } else {
                    assert(precedes(scores, order[k - 1], order[m]));
                }
            }
        } else {
            if k < p {
                assert(precedes(scores, order[k], j));
            } else if k > p {
                assert(precedes(scores, order[k - 1], j));
            } else {
                let last = order.len() - 1;
                assert(order.len() == limit);
                assert(scores[order[last]].below(scores[count]));
                assert(precedes(scores, order[last], j));
                lemma_precedes_transitive(scores, count, order[last], j);
            }
        }
    }
    if count + 1 <= limit {
        assert forall|j: int| 0 <= j < count + 1 implies #[trigger] next.contains(j) by {
            if j < count {
                assert(order.contains(j));
                let m = choose|m: int| 0 <= m < order.len() && order[m] == j;
                if m < p {
                    assert(next[m] == j);
                } else {
                    assert(next[m + 1] == j);
                }
            }
        }
    }
}

/// The ranking of `scores`, cut to `limit` places: the positions of the
/// highest scores, the highest first, and of equal scores the earlier first.
pub fn rank(scores: &Vec<Score>, limit: usize) -> (order: Vec<usize>)
    requires
        all_positive(ratios(scores@)),
    ensures
        is_ranking(indices(order@), ratios(scores@), limit as nat),
{
    let mut order: Vec<usize> = Vec::new();
    let mut i: usize = 0;
    while i < scores.len()
        invariant
            i <= scores.len(),
            all_positive(ratios(scores@)),
            ranks(indices(order@), ratios(scores@), i as int, limit as nat),
        decreases scores.len() - i,
    {
        let ghost values = ratios(scores@);
        let ghost before = indices(order@);
        let mut p: usize = order.len();
        assert forall|k: int| 0 <= k < order@.len() implies #[trigger] order@[k] < i by {
            assert(0 <= before[k] < i);
        }
        while p > 0 && scores[i].exceeds(&scores[order[p - 1]])
            invariant
                p <= order.len(),
                i < scores.len(),
                values == ratios(scores@),
                before == indices(order@),
                forall|k: int| 0 <= k < order@.len() ==> #[trigger] order@[k] < i,
                forall|b: int|
                    p <= b < before.len() ==> values[#[trigger] before[b]].below(values[i as int]),
            decreases p,
        {
            p -= 1;
        }
        if p < limit {
            order.insert(p, i);
            if order.len() > limit {
                order.pop();
            }
            proof {
                lemma_ranks_inserted(before, indices(order@), values, i as int, p as int, limit as nat);
            }
        } else {
            proof {
                lemma_ranks_passed_over(before, values, i as int, limit as nat);
            }
        }
        i += 1;
    }
    order
}

} // verus!
