//! What a score is, stated over sequences of characters.
//!
//! A query is read character by character. Each character lengthens the runs
//! whose next position in the candidate's key holds that character, and
//! starts a new run at every other position that holds it. Long runs count
//! for more than scattered hits, and query characters that the key lacks
//! count against the candidate.

use crate::matching::fragment::Run;
use crate::matching::score::Ratio;
use vstd::prelude::*;

verus! {

/// What a candidate is to the matcher: the text it is shown as, and the key
/// that queries are matched against.
pub struct Candidate {
    pub path: Seq<char>,
    pub key: Seq<char>,
}

/// The positions of `key` that hold `c`, in ascending order.
pub open spec fn positions(key: Seq<char>, c: char) -> Seq<int>
    decreases key.len(),
{
    if key.len() == 0 {
        Seq::empty()
    } else {
        let before = positions(key.drop_last(), c);
        if key.last() == c {
            before.push(key.len() - 1)
        } else {
            before
        }
    }
}

/// Whether `position` is a position of `key` that holds `c`.
pub open spec fn touches(key: Seq<char>, position: int, c: char) -> bool {
    0 <= position < key.len() && key[position] == c
}

/// Whether one of `runs` ends just before `position`.
pub open spec fn claimed(runs: Seq<Run>, position: int) -> bool {
    exists|i: int| 0 <= i < runs.len() && (#[trigger] runs[i]).next() == position
}

/// Those of `places` that none of `runs` ends just before, in their order.
pub open spec fn unclaimed(places: Seq<int>, runs: Seq<Run>) -> Seq<int>
    decreases places.len(),
{
    if places.len() == 0 {
        Seq::empty()
    } else {
        let before = unclaimed(places.drop_last(), runs);
        if claimed(runs, places.last()) {
            before
        } else {
            before.push(places.last())
        }
    }
}

/// `run` after a query character `c`: one longer where the position past
/// its end holds `c`, and unchanged elsewhere.
pub open spec fn lengthened(run: Run, key: Seq<char>, c: char) -> Run {
    if touches(key, run.next(), c) {
        Run { start: run.start, length: run.length + 1 }
    } else {
        run
    }
}

/// Each of `runs` after a query character `c`.
pub open spec fn grown(runs: Seq<Run>, key: Seq<char>, c: char) -> Seq<Run> {
    runs.map_values(|run: Run| lengthened(run, key, c))
}

/// A run of length one at each of `places`.
pub open spec fn started(places: Seq<int>) -> Seq<Run> {
    places.map_values(|place: int| Run { start: place, length: 1 })
}

/// The runs after one more query character `c`: the earlier ones, grown,
/// and then a new one for each occurrence of `c` that lengthened none.
pub open spec fn advance(runs: Seq<Run>, key: Seq<char>, c: char) -> Seq<Run> {
    grown(runs, key, c) + started(unclaimed(positions(key, c), runs))
}

/// The runs that the characters of `query`, read in order, leave in `key`.
pub open spec fn runs_after(query: Seq<char>, key: Seq<char>) -> Seq<Run>
    decreases query.len(),
{
    if query.len() == 0 {
        Seq::empty()
    } else {
        advance(runs_after(query.drop_last(), key), key, query.last())
    }
}

/// How many characters of `query`, counted with repetition, `key` lacks.
pub open spec fn absent(query: Seq<char>, key: Seq<char>) -> nat
    decreases query.len(),
{
    if query.len() == 0 {
        0
    } else {
        let before = absent(query.drop_last(), key);
        if key.contains(query.last()) {
            before
        } else {
            before + 1
        }
    }
}

/// The sum of the squared lengths of `runs`.
pub open spec fn fragment_score(runs: Seq<Run>) -> nat
    decreases runs.len(),
{
    if runs.len() == 0 {
        0
    } else {
        fragment_score(runs.drop_last()) + (runs.last().length * runs.last().length) as nat
    }
}

/// The score of `candidate` for `query`.
///
/// A query that is the candidate's path scores one. Otherwise, with `n` the
/// length of the key and `m` the number of query characters that the key
/// lacks, the score is zero where `m >= n`, and else the fragment score
/// times `(n - m) / n`, divided by `n`.
pub open spec fn relevance(query: Seq<char>, candidate: Candidate) -> Ratio {
    let n = candidate.key.len();
    let m = absent(query, candidate.key);
    if query == candidate.path {
        Ratio::one()
    } else if m >= n {
        Ratio::zero()
    } else {
        Ratio {
            num: fragment_score(runs_after(query, candidate.key)) * ((n - m) as nat),
            den: n * n,
        }
    }
}

/// Whether `run` lies in a key of length `n`.
pub open spec fn within(run: Run, n: int) -> bool {
    0 <= run.start && 1 <= run.length && run.next() <= n
}

/// Whether each of `runs` lies in a key of length `n`.
pub open spec fn all_within(runs: Seq<Run>, n: int) -> bool {
    forall|i: int| 0 <= i < runs.len() ==> within(#[trigger] runs[i], n)
}

/// `positions(key, c)` holds exactly the positions of `c` in `key`, and
/// ascends.
pub proof fn lemma_positions(key: Seq<char>, c: char)
    ensures
        forall|i: int|
            0 <= i < positions(key, c).len() ==> touches(key, #[trigger] positions(key, c)[i], c),
        forall|i: int, j: int|
            0 <= i < j < positions(key, c).len() ==> positions(key, c)[i] < positions(key, c)[j],
        forall|p: int| touches(key, p, c) ==> positions(key, c).contains(p),
        key.contains(c) <==> positions(key, c).len() > 0,
    decreases key.len(),
{
    if key.len() > 0 {
        let shorter = key.drop_last();
        let before = positions(shorter, c);
        lemma_positions(shorter, c);
        let all = positions(key, c);
        assert forall|i: int| 0 <= i < all.len() implies touches(key, #[trigger] all[i], c) by {
            if i < before.len() {
                assert(touches(shorter, before[i], c));
            }
        }
        assert forall|p: int| touches(key, p, c) implies all.contains(p) by {
            if p < key.len() - 1 {
                assert(touches(shorter, p, c));
                let i = choose|i: int| 0 <= i < before.len() && before[i] == p;
                assert(all[i] == p);
            } else {
                assert(all[all.len() - 1] == p);
            }
        }
        if key.contains(c) {
            let p = choose|p: int| 0 <= p < key.len() && key[p] == c;
            assert(touches(key, p, c));
            assert(all.contains(p));
            let i = choose|i: int| 0 <= i < all.len() && all[i] == p;
            assert(all.len() > 0);
        }
        if all.len() > 0 {
            assert(touches(key, all[0], c));
            assert(key[all[0]] == c);
            assert(key.contains(c));
        }
    } else {
        if key.contains(c) {
            let p = choose|p: int| 0 <= p < key.len() && key[p] == c;
            assert(false);
        }
    }
}

/// `unclaimed(places, runs)` holds exactly those of `places` that no run
/// ends just before.
pub proof fn lemma_unclaimed(places: Seq<int>, runs: Seq<Run>)
    ensures
        forall|i: int|
            0 <= i < unclaimed(places, runs).len() ==> places.contains(
                #[trigger] unclaimed(places, runs)[i],
            ) && !claimed(runs, unclaimed(places, runs)[i]),
        forall|p: int|
            places.contains(p) && !claimed(runs, p) ==> unclaimed(places, runs).contains(p),
    decreases places.len(),
{
    if places.len() > 0 {
        let shorter = places.drop_last();
        let before = unclaimed(shorter, runs);
        lemma_unclaimed(shorter, runs);
        let all = unclaimed(places, runs);
        assert forall|i: int| 0 <= i < all.len() implies places.contains(#[trigger] all[i])
            && !claimed(runs, all[i]) by {
            if i < before.len() {
                let j = choose|j: int| 0 <= j < shorter.len() && shorter[j] == before[i];
                assert(places[j] == all[i]);
            } else {
                assert(places[places.len() - 1] == all[i]);
            }
        }
        assert forall|p: int| places.contains(p) && !claimed(runs, p) implies all.contains(p) by {
            let j = choose|j: int| 0 <= j < places.len() && places[j] == p;
            if j < shorter.len() {
                assert(shorter[j] == p);
                let i = choose|i: int| 0 <= i < before.len() && before[i] == p;
                assert(all[i] == p);
            } else {
                assert(all[all.len() - 1] == p);
            }
        }
    }
}

/// Runs that lie in the key still do after one more query character.
pub proof fn lemma_advance_within(runs: Seq<Run>, key: Seq<char>, c: char)
    requires
        all_within(runs, key.len() as int),
    ensures
        all_within(advance(runs, key, c), key.len() as int),
{
    let places = positions(key, c);
    let fresh = unclaimed(places, runs);
    let next = advance(runs, key, c);
    lemma_positions(key, c);
    lemma_unclaimed(places, runs);
    assert forall|i: int| 0 <= i < next.len() implies within(#[trigger] next[i], key.len() as int) by {
        if i < runs.len() {
            assert(next[i] == lengthened(runs[i], key, c));
            assert(within(runs[i], key.len() as int));
        } else {
            let place = fresh[i - runs.len()];
            assert(next[i] == Run { start: place, length: 1 });
            assert(places.contains(place));
            let j = choose|j: int| 0 <= j < places.len() && places[j] == place;
            assert(touches(key, places[j], c));
        }
    }
}

/// Every run that a query leaves lies in the key.
pub proof fn lemma_runs_within(query: Seq<char>, key: Seq<char>)
    ensures
        all_within(runs_after(query, key), key.len() as int),
    decreases query.len(),
{
    if query.len() > 0 {
        lemma_runs_within(query.drop_last(), key);
        lemma_advance_within(runs_after(query.drop_last(), key), key, query.last());
    }
}

/// A query character that the key lacks changes no run and starts none.
pub proof fn lemma_advance_absent(runs: Seq<Run>, key: Seq<char>, c: char)
    requires
        !key.contains(c),
    ensures
        advance(runs, key, c) == runs,
{
    lemma_positions(key, c);
    assert(positions(key, c).len() == 0);
    assert(advance(runs, key, c) =~= runs);
}

/// A score has a positive denominator.
pub proof fn lemma_relevance_positive(query: Seq<char>, candidate: Candidate)
    ensures
        relevance(query, candidate).den > 0,
{
    let n = candidate.key.len();
    if n > 0 {
        assert(n * n > 0) by (nonlinear_arith)
            requires
                n > 0,
        ;
    }
}

} // verus!
