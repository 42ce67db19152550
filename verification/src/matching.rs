//! Scoring candidates against a query and ranking them.

use crate::matching::entry::Entry;
use crate::matching::model::{lemma_relevance_positive, relevance, Candidate};
use crate::matching::ranking::{indices, is_ranking, rank, ratios};
use crate::matching::score::{Ratio, Score};
use vstd::prelude::*;

pub mod entry;
pub mod fragment;
pub mod model;
pub mod ranking;
pub mod score;
pub mod theorems;

verus! {

/// A candidate's path, with the score that a query gave it.
pub struct Result {
    pub path: String,
    pub score: Score,
}

/// What each of `haystack` is to the matcher.
pub open spec fn candidates(haystack: Seq<Entry>) -> Seq<Candidate> {
    haystack.map_values(|entry: Entry| entry@)
}

/// The score of each of `haystack` for `needle`.
pub open spec fn relevances(needle: Seq<char>, haystack: Seq<Candidate>) -> Seq<Ratio> {
    haystack.map_values(|candidate: Candidate| relevance(needle, candidate))
}

/// Whether `results` are the candidates at the positions `order` of
/// `haystack`, each with its path and its score for `needle`.
pub open spec fn presents(
    results: Seq<Result>,
    order: Seq<int>,
    needle: Seq<char>,
    haystack: Seq<Candidate>,
) -> bool {
    &&& results.len() == order.len()
    &&& forall|k: int|
        0 <= k < results.len() ==> {
            &&& (#[trigger] results[k]).path@ == haystack[order[k]].path
            &&& results[k].score@ == relevance(needle, haystack[order[k]])
        }
}

/// The score of each of `haystack` for `needle`.
fn score_all(needle: &str, haystack: &Vec<Entry>) -> (scores: Vec<Score>)
    ensures
        ratios(scores@) == relevances(needle@, candidates(haystack@)),
{
    let mut scores: Vec<Score> = Vec::new();
    let mut i: usize = 0;
    while i < haystack.len()
        invariant
            i <= haystack.len(),
            scores@.len() == i,
            forall|j: int| 0 <= j < i ==> (#[trigger] scores@[j])@ == relevance(needle@, haystack@[j]@),
        decreases haystack.len() - i,
    {
        scores.push(haystack[i].similarity(needle));
        i += 1;
    }
    assert(ratios(scores@) =~= relevances(needle@, candidates(haystack@)));
    scores
}

/// Scores every one of `haystack` against `needle` and returns the best
/// `max_results` of them, the best first: the higher score comes first, and
/// of two candidates with the same score the one that stands first in
/// `haystack`. Where `haystack` has no more than `max_results` candidates,
/// all of them are returned.
pub fn find(needle: &str, haystack: &Vec<Entry>, max_results: usize) -> (results: Vec<Result>)
    ensures
        results@.len() == if max_results <= haystack@.len() {
            max_results as int
        } else {
            haystack@.len() as int
        },
        exists|order: Seq<int>|
            is_ranking(order, relevances(needle@, candidates(haystack@)), max_results as nat)
                && presents(results@, order, needle@, candidates(haystack@)),
{
    let scores = score_all(needle, haystack);
    proof {
        assert forall|i: int| 0 <= i < haystack@.len() implies (#[trigger] relevances(
            needle@,
            candidates(haystack@),
        )[i]).den > 0 by {
            lemma_relevance_positive(needle@, haystack@[i]@);
        }
    }
    let order = rank(&scores, max_results);
    let mut results: Vec<Result> = Vec::new();
    let mut k: usize = 0;
    while k < order.len()
        invariant
            k <= order.len(),
            ratios(scores@) == relevances(needle@, candidates(haystack@)),
            is_ranking(indices(order@), ratios(scores@), max_results as nat),
            presents(results@, indices(order@).take(k as int), needle@, candidates(haystack@)),
        decreases order.len() - k,
    {
        let i: usize = order[k];
        assert(0 <= indices(order@)[k as int] < haystack@.len());
        assert(ratios(scores@)[i as int] == relevances(needle@, candidates(haystack@))[i as int]);
        let result = Result { path: haystack[i].path().clone(), score: scores[i].clone() };
        results.push(result);
        k += 1;
    }
    assert(indices(order@).take(order@.len() as int) =~= indices(order@));
    results
}

} // verus!
