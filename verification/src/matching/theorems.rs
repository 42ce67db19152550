//! What holds of every score.

use crate::matching::fragment::Run;
use crate::matching::model::{
    absent, advance, all_within, claimed, fragment_score, grown, lemma_advance_absent,
    lemma_positions, lemma_runs_within, lengthened, positions, relevance, runs_after, touches,
    unclaimed, within, Candidate,
};
use crate::matching::score::Ratio;
use vstd::prelude::*;

verus! {

/// A query that is the very text of a candidate scores one, whatever the
/// text: the empty one too.
pub proof fn lemma_identity(candidate: Candidate)
    ensures
        relevance(candidate.path, candidate) == Ratio::one(),
{
}

proof fn lemma_nothing_shared(query: Seq<char>, key: Seq<char>)
    requires
        forall|i: int| 0 <= i < query.len() ==> !key.contains(#[trigger] query[i]),
    ensures
        runs_after(query, key) == Seq::<Run>::empty(),
        absent(query, key) == query.len(),
    decreases query.len(),
{
    if query.len() > 0 {
        let shorter = query.drop_last();
        assert forall|i: int| 0 <= i < shorter.len() implies !key.contains(
            #[trigger] shorter[i],
        ) by {
            assert(shorter[i] == query[i]);
        }
        lemma_nothing_shared(shorter, key);
        assert(!key.contains(query[query.len() - 1]));
        lemma_advance_absent(runs_after(shorter, key), key, query.last());
    }
}

/// A query and a key that share no character score zero, where neither is
/// empty and the query is not the candidate's path.
pub proof fn lemma_disjoint(query: Seq<char>, candidate: Candidate)
    requires
        query.len() > 0,
        candidate.key.len() > 0,
        forall|i: int| 0 <= i < query.len() ==> !candidate.key.contains(#[trigger] query[i]),
        query != candidate.path,
    ensures
        relevance(query, candidate).num == 0,
{
    lemma_nothing_shared(query, candidate.key);
    let n = candidate.key.len();
    let m = absent(query, candidate.key);
    if m < n {
        assert(0 * ((n - m) as nat) == 0) by (nonlinear_arith);
    }
}

/// `query` with the character `c` put in before position `at`.
pub open spec fn with_inserted(query: Seq<char>, at: int, c: char) -> Seq<char> {
    query.take(at).push(c) + query.skip(at)
}

proof fn lemma_inserted_absent(query: Seq<char>, at: int, c: char, key: Seq<char>)
    requires
        0 <= at <= query.len(),
        !key.contains(c),
    ensures
        runs_after(with_inserted(query, at, c), key) == runs_after(query, key),
        absent(with_inserted(query, at, c), key) == absent(query, key) + 1,
    decreases query.len() - at,
{
    let longer = with_inserted(query, at, c);
    if at == query.len() {
        assert(longer.drop_last() =~= query);
        assert(longer.last() == c);
        lemma_advance_absent(runs_after(query, key), key, c);
    } else {
        let shorter = query.drop_last();
        assert(longer.drop_last() =~= with_inserted(shorter, at, c));
        assert(longer.last() == query.last());
        lemma_inserted_absent(shorter, at, c, key);
    }
}

/// One more query character that the key lacks, put in anywhere, lowers a
/// score that is above zero, where neither query is the candidate's path.
pub proof fn lemma_missing_character_penalty(
    query: Seq<char>,
    at: int,
    c: char,
    candidate: Candidate,
)
    requires
        0 <= at <= query.len(),
        !candidate.key.contains(c),
        query != candidate.path,
        with_inserted(query, at, c) != candidate.path,
        relevance(query, candidate).num > 0,
    ensures
        relevance(with_inserted(query, at, c), candidate).below(relevance(query, candidate)),
{
    let longer = with_inserted(query, at, c);
    lemma_inserted_absent(query, at, c, candidate.key);
    let n = candidate.key.len() as int;
    let m = absent(query, candidate.key) as int;
    let f = fragment_score(runs_after(query, candidate.key)) as int;
    assert(m < n);
    let old_num = relevance(query, candidate).num as int;
    assert(old_num == f * (n - m));
    assert(f > 0) by (nonlinear_arith)
        requires
            f * (n - m) > 0,
            f >= 0,
            n - m > 0,
    ;
    if m + 1 >= n {
        assert(0 * (n * n) < old_num * 1) by (nonlinear_arith)
            requires
                old_num > 0,
        ;
    } else {
        assert((f * (n - m - 1)) * (n * n) < (f * (n - m)) * (n * n)) by (nonlinear_arith)
            requires
                f > 0,
                n > 0,
                n - m - 1 > 0,
        ;
    }
}

proof fn lemma_longer_key(query: Seq<char>, key: Seq<char>, tail: char)
    requires
        !query.contains(tail),
    ensures
        runs_after(query, key.push(tail)) == runs_after(query, key),
        absent(query, key.push(tail)) == absent(query, key),
    decreases query.len(),
{
    if query.len() > 0 {
        let longer = key.push(tail);
        let shorter = query.drop_last();
        let c = query.last();
        assert(query[query.len() - 1] == c);
        if shorter.contains(tail) {
            let i = choose|i: int| 0 <= i < shorter.len() && shorter[i] == tail;
            assert(query[i] == tail);
        }
        lemma_longer_key(shorter, key, tail);
        let runs = runs_after(shorter, key);
        lemma_runs_within(shorter, key);
        assert(longer.drop_last() =~= key);
        assert(positions(longer, c) == positions(key, c));
        assert forall|i: int| 0 <= i < runs.len() implies lengthened(#[trigger] runs[i], longer, c)
            == lengthened(runs[i], key, c) by {
            assert(within(runs[i], key.len() as int));
            assert(touches(longer, runs[i].next(), c) == touches(key, runs[i].next(), c));
        }
        assert(grown(runs, longer, c) =~= grown(runs, key, c));
        if key.contains(c) {
            let i = choose|i: int| 0 <= i < key.len() && key[i] == c;
            assert(longer[i] == c);
        }
        if longer.contains(c) {
            let i = choose|i: int| 0 <= i < longer.len() && longer[i] == c;
            assert(key[i] == c);
        }
    }
}

/// Characters that a query lacks, put after the key, change neither the
/// runs that the query leaves nor the number of its characters that the key
/// lacks.
pub proof fn lemma_key_extended(query: Seq<char>, key: Seq<char>, suffix: Seq<char>)
    requires
        forall|i: int| 0 <= i < suffix.len() ==> !query.contains(#[trigger] suffix[i]),
    ensures
        runs_after(query, key + suffix) == runs_after(query, key),
        absent(query, key + suffix) == absent(query, key),
    decreases suffix.len(),
{
    if suffix.len() == 0 {
        assert(key + suffix =~= key);
    } else {
        let shorter = suffix.drop_last();
        assert forall|i: int| 0 <= i < shorter.len() implies !query.contains(
            #[trigger] shorter[i],
        ) by {
            assert(shorter[i] == suffix[i]);
        }
        lemma_key_extended(query, key, shorter);
        assert(!query.contains(suffix[suffix.len() - 1]));
        lemma_longer_key(query, key + shorter, suffix.last());
        assert((key + shorter).push(suffix.last()) =~= key + suffix);
    }
}

/// Of two candidates, one with the key of the other and then more
/// characters, none of which is in the query, the longer scores lower:
/// where the shorter key holds every character of the query, its score is
/// above zero, and the query is the path of neither.
pub proof fn lemma_length_sensitivity(
    query: Seq<char>,
    shorter: Candidate,
    longer: Candidate,
    suffix: Seq<char>,
)
    requires
        suffix.len() > 0,
        longer.key == shorter.key + suffix,
        forall|i: int| 0 <= i < suffix.len() ==> !query.contains(#[trigger] suffix[i]),
        absent(query, shorter.key) == 0,
        query != shorter.path,
        query != longer.path,
        relevance(query, shorter).num > 0,
    ensures
        relevance(query, longer).below(relevance(query, shorter)),
{
    lemma_key_extended(query, shorter.key, suffix);
    let n = shorter.key.len() as int;
    let k = suffix.len() as int;
    let f = fragment_score(runs_after(query, shorter.key)) as int;
    assert(longer.key.len() == n + k);
    assert(relevance(query, shorter).num == f * n);
    assert(f > 0 && n > 0) by (nonlinear_arith)
        requires
            f * n > 0,
            f >= 0,
            n >= 0,
    ;
    assert((f * (n + k)) * (n * n) < (f * n) * ((n + k) * (n + k))) by (nonlinear_arith)
        requires
            f > 0,
            n > 0,
            k > 0,
    ;
}

/// The sum of the lengths of `runs`.
spec fn total_length(runs: Seq<Run>) -> int
    decreases runs.len(),
{
    if runs.len() == 0 {
        0
    } else {
        total_length(runs.drop_last()) + runs.last().length
    }
}

/// Whether no two of `runs` end at the same position.
spec fn ends_differ(runs: Seq<Run>) -> bool {
    forall|i: int, j: int|
        0 <= i < runs.len() && 0 <= j < runs.len() && i != j ==> (#[trigger] runs[i]).next() != (
        #[trigger] runs[j]).next()
}

/// Whether `runs` cover only positions of `key` whose character is in
/// `seen`.
spec fn covers_seen(runs: Seq<Run>, key: Seq<char>, seen: Seq<char>) -> bool {
    forall|i: int, place: int|
        0 <= i < runs.len() && (#[trigger] runs[i]).start <= place < runs[i].next()
            ==> seen.contains(#[trigger] key[place])
}

proof fn lemma_total_length_at_least(runs: Seq<Run>)
    requires
        forall|i: int| 0 <= i < runs.len() ==> (#[trigger] runs[i]).length >= 1,
    ensures
        total_length(runs) >= runs.len(),
    decreases runs.len(),
{
    if runs.len() > 0 {
        let shorter = runs.drop_last();
        assert forall|i: int| 0 <= i < shorter.len() implies (#[trigger] shorter[i]).length
            >= 1 by {
            assert(shorter[i] == runs[i]);
        }
        lemma_total_length_at_least(shorter);
        assert(runs[runs.len() - 1].length >= 1);
    }
}

/// The squares of lengths add up to no more than the square of their sum,
/// and to less where there are two runs or more.
proof fn lemma_squares_below_square(runs: Seq<Run>)
    requires
        forall|i: int| 0 <= i < runs.len() ==> (#[trigger] runs[i]).length >= 1,
    ensures
        fragment_score(runs) <= total_length(runs) * total_length(runs),
        runs.len() >= 2 ==> fragment_score(runs) < total_length(runs) * total_length(runs),
    decreases runs.len(),
{
    if runs.len() > 0 {
        let shorter = runs.drop_last();
        assert forall|i: int| 0 <= i < shorter.len() implies (#[trigger] shorter[i]).length
            >= 1 by {
            assert(shorter[i] == runs[i]);
        }
        lemma_squares_below_square(shorter);
        lemma_total_length_at_least(shorter);
        let t = total_length(shorter);
        let l = runs.last().length;
        let f = fragment_score(shorter) as int;
        assert(runs[runs.len() - 1].length >= 1);
        assert(f + l * l <= (t + l) * (t + l)) by (nonlinear_arith)
            requires
                f <= t * t,
                t >= 0,
                l >= 1,
        ;
        if runs.len() >= 2 {
            assert(f + l * l < (t + l) * (t + l)) by (nonlinear_arith)
                requires
                    f <= t * t,
                    t >= 1,
                    l >= 1,
            ;
        }
    }
}

proof fn lemma_total_length_update(runs: Seq<Run>, i: int, run: Run)
    requires
        0 <= i < runs.len(),
    ensures
        total_length(runs.update(i, run)) == total_length(runs) - runs[i].length + run.length,
    decreases runs.len(),
{
    let changed = runs.update(i, run);
    if i == runs.len() - 1 {
        assert(changed.drop_last() =~= runs.drop_last());
    } else {
        assert(changed.drop_last() =~= runs.drop_last().update(i, run));
        lemma_total_length_update(runs.drop_last(), i, run);
    }
}

/// In a key without repeated characters, a character is at one place only.
proof fn lemma_single_position(key: Seq<char>, place: int)
    requires
        key.no_duplicates(),
        0 <= place < key.len(),
    ensures
        positions(key, key[place]) == seq![place],
{
    let c = key[place];
    let all = positions(key, c);
    lemma_positions(key, c);
    assert(touches(key, place, c));
    assert(all.contains(place));
    assert forall|i: int| 0 <= i < all.len() implies all[i] == place by {
        assert(touches(key, all[i], c));
    }
    if all.len() >= 2 {
        assert(all[0] < all[1]);
    }
    assert(all =~= seq![place]);
}

/// What one more character does to the runs, where neither the key nor the
/// query repeats a character and the key holds the character at `place`.
proof fn lemma_advance_without_repeats(
    runs: Seq<Run>,
    key: Seq<char>,
    seen: Seq<char>,
    place: int,
)
    requires
        key.no_duplicates(),
        0 <= place < key.len(),
        !seen.contains(key[place]),
        all_within(runs, key.len() as int),
        ends_differ(runs),
        covers_seen(runs, key, seen),
    ensures
        ({
            let next = advance(runs, key, key[place]);
            &&& all_within(next, key.len() as int)
            &&& ends_differ(next)
            &&& covers_seen(next, key, seen.push(key[place]))
            &&& total_length(next) == total_length(runs) + 1
            &&& next.len() >= runs.len()
            &&& next.len() >= 1
            &&& next.len() == 1 && runs.len() == 1 ==> runs[0].next() == place && next[0] == (Run {
                start: runs[0].start,
                length: runs[0].length + 1,
            })
            &&& runs.len() == 0 ==> next == seq![Run { start: place, length: 1 }]
        }),
{
    let c = key[place];
    let next = advance(runs, key, c);
    let wider = seen.push(c);
    lemma_single_position(key, place);
    crate::matching::model::lemma_advance_within(runs, key, c);
    assert(positions(key, c).drop_last() =~= Seq::<int>::empty());
    assert(positions(key, c).last() == place);
    assert(unclaimed(Seq::<int>::empty(), runs) =~= Seq::<int>::empty());
    // No run ends just after `place`: it would cover `place`.
    assert forall|i: int| 0 <= i < runs.len() implies (#[trigger] runs[i]).next() != place + 1 by {
        assert(within(runs[i], key.len() as int));
        if runs[i].next() == place + 1 {
            assert(runs[i].start <= place < runs[i].next());
            assert(seen.contains(key[place]));
        }
    }
    assert forall|i: int| 0 <= i < runs.len() implies (touches(key, (#[trigger] runs[i]).next(), c)
        <==> runs[i].next() == place) by {
        assert(within(runs[i], key.len() as int));
    }
    assert forall|x: char| seen.contains(x) implies wider.contains(x) by {
        let i = choose|i: int| 0 <= i < seen.len() && seen[i] == x;
        assert(wider[i] == x);
    }
    assert(wider.contains(c)) by {
        assert(wider[seen.len() as int] == c);
    }
    if claimed(runs, place) {
        let i = choose|i: int| 0 <= i < runs.len() && (#[trigger] runs[i]).next() == place;
        let longer = Run { start: runs[i].start, length: runs[i].length + 1 };
        assert(unclaimed(positions(key, c), runs) =~= Seq::<int>::empty());
        assert(next =~= runs.update(i, longer)) by {
            assert forall|j: int| 0 <= j < runs.len() implies next[j] == runs.update(i, longer)[j] by {
                assert(next[j] == lengthened(runs[j], key, c));
                if j != i {
                    assert(runs[j].next() != runs[i].next());
                }
            }
        }
        lemma_total_length_update(runs, i, longer);
        assert forall|a: int, b: int|
            0 <= a < next.len() && 0 <= b < next.len() && a != b implies (#[trigger] next[a]).next()
            != (#[trigger] next[b]).next() by {
            assert(runs[a].next() != runs[b].next());
            assert(runs[a].next() != place + 1);
            assert(runs[b].next() != place + 1);
        }
        assert forall|a: int, at: int|
            0 <= a < next.len() && (#[trigger] next[a]).start <= at < next[a].next()
            implies wider.contains(#[trigger] key[at]) by {
            if a == i && at == place {
            } else {
                assert(runs[a].start <= at < runs[a].next());
                assert(seen.contains(key[at]));
            }
        }
    } else {
        let fresh = Run { start: place, length: 1 };
        assert(unclaimed(positions(key, c), runs) =~= seq![place]);
        assert(next =~= runs.push(fresh)) by {
            assert forall|j: int| 0 <= j < runs.len() implies next[j] == runs[j] by {
                assert(next[j] == lengthened(runs[j], key, c));
                if runs[j].next() == place {
                    assert(claimed(runs, place));
                }
            }
        }
        assert(next.drop_last() =~= runs);
        assert forall|a: int, b: int|
            0 <= a < next.len() && 0 <= b < next.len() && a != b implies (#[trigger] next[a]).next()
            != (#[trigger] next[b]).next() by {
            if a < runs.len() && b < runs.len() {
                assert(runs[a].next() != runs[b].next());
            } else if a < runs.len() {
                assert(runs[a].next() != place + 1);
            } else {
                assert(runs[b].next() != place + 1);
            }
        }
        assert forall|a: int, at: int|
            0 <= a < next.len() && (#[trigger] next[a]).start <= at < next[a].next()
            implies wider.contains(#[trigger] key[at]) by {
            if a < runs.len() {
                assert(runs[a].start <= at < runs[a].next());
                assert(seen.contains(key[at]));
            }
        }
    }
}

/// The runs that a query leaves in a key, where neither repeats a character
/// and the key holds every character of the query: their lengths add up to
/// the length of the query, and where a single run is left, the query is
/// the part of the key that the run covers.
proof fn lemma_runs_without_repeats(query: Seq<char>, key: Seq<char>)
    requires
        key.no_duplicates(),
        query.no_duplicates(),
        forall|i: int| 0 <= i < query.len() ==> key.contains(#[trigger] query[i]),
    ensures
        ({
            let runs = runs_after(query, key);
            &&& all_within(runs, key.len() as int)
            &&& ends_differ(runs)
            &&& covers_seen(runs, key, query)
            &&& total_length(runs) == query.len()
            &&& absent(query, key) == 0
            &&& query.len() >= 1 ==> runs.len() >= 1
            &&& runs.len() == 1 ==> query == key.subrange(runs[0].start, runs[0].next())
        }),
    decreases query.len(),
{
    if query.len() > 0 {
        let shorter = query.drop_last();
        let c = query.last();
        assert(query[query.len() - 1] == c);
        assert forall|i: int| 0 <= i < shorter.len() implies key.contains(#[trigger] shorter[i]) by {
            assert(shorter[i] == query[i]);
        }
        assert(shorter.no_duplicates()) by {
            assert forall|i: int, j: int|
                0 <= i < shorter.len() && 0 <= j < shorter.len() && i != j implies shorter[i]
                != shorter[j] by {
                assert(shorter[i] == query[i]);
                assert(shorter[j] == query[j]);
            }
        }
        lemma_runs_without_repeats(shorter, key);
        if shorter.contains(c) {
            let i = choose|i: int| 0 <= i < shorter.len() && shorter[i] == c;
            assert(query[i] == c);
        }
        let place = choose|place: int| 0 <= place < key.len() && key[place] == c;
        let runs = runs_after(shorter, key);
        let next = runs_after(query, key);
        lemma_advance_without_repeats(runs, key, shorter, place);
        assert(shorter.push(c) =~= query);
        if next.len() == 1 {
            if runs.len() == 1 {
                let (from, to) = (runs[0].start, runs[0].next());
                assert(within(runs[0], key.len() as int));
                assert(query =~= key.subrange(from, to + 1)) by {
                    assert forall|i: int| 0 <= i < query.len() implies query[i] == key.subrange(
                        from,
                        to + 1,
                    )[i] by {
                        if i < shorter.len() {
                            assert(shorter[i] == key.subrange(from, to)[i]);
                        }
                    }
                }
            } else {
                assert(runs.len() == 0);
                assert(shorter.len() == 0);
                assert(query =~= key.subrange(place, place + 1));
            }
        }
    }
}

/// A query that is a part of a key without repeated characters leaves one
/// run: the part itself.
proof fn lemma_contiguous_query(key: Seq<char>, from: int, length: int)
    requires
        key.no_duplicates(),
        0 <= from,
        1 <= length,
        from + length <= key.len(),
    ensures
        runs_after(key.subrange(from, from + length), key) == seq![Run { start: from, length }],
    decreases length,
{
    let query = key.subrange(from, from + length);
    let place = from + length - 1;
    let c = key[place];
    assert(query.last() == c);
    lemma_single_position(key, place);
    assert(positions(key, c).drop_last() =~= Seq::<int>::empty());
    assert(positions(key, c).last() == place);
    assert(unclaimed(Seq::<int>::empty(), Seq::<Run>::empty()) =~= Seq::<int>::empty());
    if length == 1 {
        let none = Seq::<Run>::empty();
        assert(query.drop_last() =~= Seq::<char>::empty());
        assert(runs_after(query.drop_last(), key) =~= none);
        assert(!claimed(none, place));
        assert(unclaimed(positions(key, c), none) =~= seq![place]);
        assert(advance(none, key, c) =~= seq![Run { start: from, length }]);
    } else {
        assert(query.drop_last() =~= key.subrange(from, from + length - 1));
        lemma_contiguous_query(key, from, length - 1);
        let runs = seq![Run { start: from, length: length - 1 }];
        assert(runs[0].next() == place);
        assert(claimed(runs, place));
        assert(unclaimed(Seq::<int>::empty(), runs) =~= Seq::<int>::empty());
        assert(unclaimed(positions(key, c), runs) =~= Seq::<int>::empty());
        assert(touches(key, runs[0].next(), c));
        assert(advance(runs, key, c) =~= seq![Run { start: from, length }]);
    }
}

/// In a candidate whose key repeats no character, a query that is a part of
/// the key scores higher than every other arrangement of the characters of
/// that part: where neither query is the candidate's path.
pub proof fn lemma_contiguity(candidate: Candidate, from: int, length: int, scattered: Seq<char>)
    requires
        candidate.key.no_duplicates(),
        0 <= from,
        1 <= length,
        from + length <= candidate.key.len(),
        scattered.len() == length,
        scattered.no_duplicates(),
        forall|i: int|
            0 <= i < scattered.len() ==> candidate.key.subrange(from, from + length).contains(
                #[trigger] scattered[i],
            ),
        scattered != candidate.key.subrange(from, from + length),
        scattered != candidate.path,
        candidate.key.subrange(from, from + length) != candidate.path,
    ensures
        relevance(scattered, candidate).below(
            relevance(candidate.key.subrange(from, from + length), candidate),
        ),
{
    let key = candidate.key;
    let part = key.subrange(from, from + length);
    assert forall|i: int| 0 <= i < scattered.len() implies key.contains(#[trigger] scattered[i]) by {
        let j = choose|j: int| 0 <= j < part.len() && part[j] == scattered[i];
        assert(key[from + j] == scattered[i]);
    }
    assert forall|i: int| 0 <= i < part.len() implies key.contains(#[trigger] part[i]) by {
        assert(key[from + i] == part[i]);
    }
    assert(part.no_duplicates());
    lemma_contiguous_query(key, from, length);
    lemma_runs_without_repeats(part, key);
    lemma_runs_without_repeats(scattered, key);
    let runs = runs_after(scattered, key);
    assert forall|i: int| 0 <= i < runs.len() implies (#[trigger] runs[i]).length >= 1 by {
        assert(within(runs[i], key.len() as int));
    }
    lemma_squares_below_square(runs);
    let straight = seq![Run { start: from, length }];
    assert(straight.drop_last() =~= Seq::<Run>::empty());
    assert(straight.last().length == length);
    assert(length * length >= 0) by (nonlinear_arith);
    assert(fragment_score(Seq::<Run>::empty()) == 0);
    assert(fragment_score(straight) == length * length);
    if runs.len() == 1 {
        // A single run would make the query a part of the key: the same part.
        let start = runs[0].start;
        assert(within(runs[0], key.len() as int));
        assert(total_length(runs.drop_last()) == 0);
        assert(runs[0].length == length);
        let first = choose|j: int| 0 <= j < part.len() && part[j] == scattered[0];
        assert(key[from + first] == key[start]);
        let last = choose|j: int| 0 <= j < part.len() && part[j] == scattered[length - 1];
        assert(key[from + last] == key[start + length - 1]);
        assert(start == from);
        assert(scattered =~= part);
    }
    let n = key.len() as int;
    let f = fragment_score(runs) as int;
    let square = length * length;
    assert(f < square);
    assert((f * n) * (n * n) < (square * n) * (n * n)) by (nonlinear_arith)
        requires
            f < square,
            n > 0,
    ;
}

} // verus!
