//! Candidates, and how they score against a query.

use crate::matching::fragment::{Fragment, Run};
use crate::matching::model::{
    absent, advance, all_within, claimed, fragment_score, grown, lemma_advance_absent,
    lemma_advance_within, lemma_positions, lengthened, positions, relevance, runs_after, started,
    touches, unclaimed, within, Candidate,
};
use crate::matching::score::Score;
use crate::natural::Natural;
use std::collections::HashMap;
use vstd::prelude::*;

verus! {

broadcast use vstd::std_specs::hash::group_hash_axioms;

/// The number that stands for `c` in a position index.
pub open spec fn code(c: char) -> u32 {
    c as u32
}

/// The positions that `list` holds, as mathematical integers.
pub open spec fn places(list: Seq<usize>) -> Seq<int> {
    list.map_values(|place: usize| place as int)
}

/// The runs that `fragments` stand for.
pub open spec fn runs_of(fragments: Seq<Fragment>) -> Seq<Run> {
    fragments.map_values(|fragment: Fragment| fragment@)
}

/// Whether `index` is the position index of `key`: it has an entry for each
/// character that occurs in `key` and no other entry, and the entry of a
/// character lists the positions at which it occurs, in ascending order.
pub open spec fn indexes(index: Map<u32, Vec<usize>>, key: Seq<char>) -> bool {
    &&& forall|c: char| #[trigger] index.contains_key(code(c)) <==> key.contains(c)
    &&& forall|c: char|
        key.contains(c) ==> places((#[trigger] index[code(c)])@) == positions(key, c)
    &&& forall|k: u32| #[trigger]
        index.contains_key(k) ==> exists|c: char| #[trigger] code(c) == k && key.contains(c)
}

/// Every entry of a position index lists at least one position, its
/// positions ascend, and each of them holds the character of the entry.
pub proof fn lemma_index_entries(index: Map<u32, Vec<usize>>, key: Seq<char>)
    requires
        indexes(index, key),
    ensures
        forall|k: u32| #[trigger]
            index.contains_key(k) ==> {
                &&& index[k]@.len() > 0
                &&& forall|i: int, j: int|
                    0 <= i < j < index[k]@.len() ==> index[k]@[i] < index[k]@[j]
                &&& forall|i: int|
                    0 <= i < index[k]@.len() ==> index[k]@[i] < key.len() && code(
                        key[index[k]@[i] as int],
                    ) == k
            },
{
    assert forall|k: u32| #[trigger] index.contains_key(k) implies {
        &&& index[k]@.len() > 0
        &&& forall|i: int, j: int| 0 <= i < j < index[k]@.len() ==> index[k]@[i] < index[k]@[j]
        &&& forall|i: int|
            0 <= i < index[k]@.len() ==> index[k]@[i] < key.len() && code(
                key[index[k]@[i] as int],
            ) == k
    } by {
        let c = choose|c: char| #[trigger] code(c) == k && key.contains(c);
        let list = index[code(c)]@;
        let all = positions(key, c);
        lemma_positions(key, c);
        assert(places(list) == all);
        assert forall|i: int, j: int| 0 <= i < j < list.len() implies list[i] < list[j] by {
            assert(places(list)[i] == list[i] as int);
            assert(places(list)[j] == list[j] as int);
            assert(all[i] < all[j]);
        }
        assert forall|i: int| 0 <= i < list.len() implies list[i] < key.len() && code(
            key[list[i] as int],
        ) == k by {
            assert(places(list)[i] == list[i] as int);
            assert(touches(key, all[i], c));
        }
    }
}

/// Two characters that the same number stands for are the same.
proof fn lemma_code_injective(c: char, d: char)
    requires
        code(c) == code(d),
    ensures
        c == d,
{
    vstd::utf8::char_u32_cast(c, code(c));
    vstd::utf8::char_u32_cast(d, code(d));
}

/// The characters of `text`.
pub fn characters(text: &str) -> (chars: Vec<char>)
    ensures
        chars@ == text@,
{
    let mut chars: Vec<char> = Vec::new();
    for c in it: text.chars()
        invariant
            it.seq() == text@,
            chars@ == text@.take(it.index() as int),
    {
        chars.push(c);
        assert(text@.take(it.index() + 1) =~= text@.take(it.index() as int).push(c));
    }
    assert(text@.take(text@.len() as int) =~= text@);
    chars
}

/// The position index of `key`.
fn index_characters(key: &Vec<char>) -> (index: HashMap<u32, Vec<usize>>)
    ensures
        indexes(index@, key@),
{
    let mut index: HashMap<u32, Vec<usize>> = HashMap::new();
    let mut i: usize = 0;
    assert(key@.take(0) =~= Seq::<char>::empty());
    while i < key.len()
        invariant
            i <= key.len(),
            indexes(index@, key@.take(i as int)),
        decreases key.len() - i,
    {
        let c: char = key[i];
        let k: u32 = c as u32;
        let ghost before = index@;
        let ghost shorter = key@.take(i as int);
        let ghost longer = key@.take(i + 1);
        let mut list: Vec<usize> = match index.remove(&k) {
            Some(list) => list,
            None => Vec::new(),
        };
        let ghost earlier = list@;
        list.push(i);
        index.insert(k, list);
        proof {
            assert(longer.drop_last() =~= shorter);
            assert(longer.last() == c);
            assert(longer[i as int] == c);
            lemma_positions(shorter, c);
            assert(places(earlier) =~= positions(shorter, c)) by {
                if shorter.contains(c) {
                    assert(before.contains_key(code(c)));
                    assert(earlier == before[code(c)]@);
                } else {
                    assert(!before.contains_key(code(c)));
                }
            }
            assert(places(list@) =~= positions(longer, c));
            assert forall|d: char| #[trigger]
                index@.contains_key(code(d)) <==> longer.contains(d) by {
                if d != c {
                    if code(d) == k {
                        lemma_code_injective(c, d);
                    }
                    if longer.contains(d) {
                        let j = choose|j: int| 0 <= j < longer.len() && longer[j] == d;
                        assert(shorter[j] == d);
                    }
                    if shorter.contains(d) {
                        let j = choose|j: int| 0 <= j < shorter.len() && shorter[j] == d;
                        assert(longer[j] == d);
                    }
                }
            }
            assert forall|q: u32| #[trigger] index@.contains_key(q) implies exists|d: char|
                #[trigger] code(d) == q && longer.contains(d) by {
                if q == k {
                    assert(code(c) == q && longer.contains(c));
                } else {
                    assert(before.contains_key(q));
                    let d = choose|d: char| #[trigger] code(d) == q && shorter.contains(d);
                    let j = choose|j: int| 0 <= j < shorter.len() && shorter[j] == d;
                    assert(longer[j] == d);
                    assert(code(d) == q && longer.contains(d));
                }
            }
            assert forall|d: char| longer.contains(d) implies places(
                (#[trigger] index@[code(d)])@,
            ) == positions(longer, d) by {
                if d != c {
                    if code(d) == k {
                        lemma_code_injective(c, d);
                    }
                    assert(index@.contains_key(code(d)));
                    assert(shorter.contains(d));
                    assert(positions(longer, d) == positions(shorter, d));
                }
            }
        }
        i += 1;
    }
    assert(key@.take(key@.len() as int) =~= key@);
    index
}

/// The position index of `path`: for each character that occurs in it, the
/// positions at which it occurs, in ascending order.
pub fn index_path(path: &str) -> (index: HashMap<u32, Vec<usize>>)
    ensures
        indexes(index@, path@),
{
    let key = characters(path);
    index_characters(&key)
}

/// Whether `place` is one of `list`.
fn holds(list: &Vec<usize>, place: usize) -> (found: bool)
    ensures
        found == places(list@).contains(place as int),
{
    let mut i: usize = 0;
    while i < list.len()
        invariant
            i <= list.len(),
            forall|j: int| 0 <= j < i ==> places(list@)[j] != place as int,
        decreases list.len() - i,
    {
        if list[i] == place {
            assert(places(list@)[i as int] == place as int);
            return true;
        }
        i += 1;
    }
    false
}

/// Whether one of `fragments` ends just before `place`.
fn claims(fragments: &Vec<Fragment>, place: usize) -> (found: bool)
    requires
        all_within(runs_of(fragments@), usize::MAX as int),
    ensures
        found == claimed(runs_of(fragments@), place as int),
{
    let mut i: usize = 0;
    while i < fragments.len()
        invariant
            i <= fragments.len(),
            all_within(runs_of(fragments@), usize::MAX as int),
            forall|j: int| 0 <= j < i ==> (#[trigger] runs_of(fragments@)[j]).next() != place as int,
        decreases fragments.len() - i,
    {
        assert(within(runs_of(fragments@)[i as int], usize::MAX as int));
        if fragments[i].next_index() == place {
            assert(runs_of(fragments@)[i as int].next() == place as int);
            return true;
        }
        i += 1;
    }
    false
}

/// Those of `list` that none of `fragments` ends just before.
fn unclaimed_places(list: &Vec<usize>, fragments: &Vec<Fragment>) -> (fresh: Vec<usize>)
    requires
        all_within(runs_of(fragments@), usize::MAX as int),
    ensures
        places(fresh@) == unclaimed(places(list@), runs_of(fragments@)),
{
    let mut fresh: Vec<usize> = Vec::new();
    let mut i: usize = 0;
    assert(places(list@).take(0) =~= Seq::<int>::empty());
    while i < list.len()
        invariant
            i <= list.len(),
            all_within(runs_of(fragments@), usize::MAX as int),
            places(fresh@) == unclaimed(places(list@).take(i as int), runs_of(fragments@)),
        decreases list.len() - i,
    {
        let place: usize = list[i];
        let ghost longer = places(list@).take(i + 1);
        assert(longer.drop_last() =~= places(list@).take(i as int));
        assert(longer.last() == place as int);
        if !claims(fragments, place) {
            let ghost earlier = fresh@;
            fresh.push(place);
            assert(places(fresh@) =~= places(earlier).push(place as int));
        }
        i += 1;
    }
    assert(places(list@).take(list@.len() as int) =~= places(list@));
    fresh
}

/// Lengthens each of `fragments` that ends just before one of `list`, the
/// positions of `c` in `key`.
fn lengthen(fragments: &mut Vec<Fragment>, list: &Vec<usize>, Ghost(key): Ghost<Seq<char>>, Ghost(c): Ghost<char>)
    requires
        all_within(runs_of(old(fragments)@), key.len() as int),
        key.len() <= usize::MAX,
        places(list@) == positions(key, c),
    ensures
        runs_of(final(fragments)@) == grown(runs_of(old(fragments)@), key, c),
{
    let ghost before = runs_of(fragments@);
    let mut i: usize = 0;
    proof {
        lemma_positions(key, c);
    }
    while i < fragments.len()
        invariant
            i <= fragments.len(),
            fragments@.len() == before.len(),
            all_within(before, key.len() as int),
            key.len() <= usize::MAX,
            places(list@) == positions(key, c),
            forall|p: int| touches(key, p, c) <==> positions(key, c).contains(p),
            forall|j: int| 0 <= j < i ==> (#[trigger] fragments@[j])@ == lengthened(before[j], key, c),
            forall|j: int| i <= j < before.len() ==> (#[trigger] fragments@[j])@ == before[j],
        decreases fragments.len() - i,
    {
        assert(within(before[i as int], key.len() as int));
        let target: usize = fragments[i].next_index();
        if holds(list, target) {
            assert(touches(key, target as int, c));
            let ghost earlier = fragments@;
            fragments[i].increase_length();
            assert(forall|j: int| 0 <= j < earlier.len() && j != i ==> fragments@[j] == earlier[j]);
        }
        i += 1;
    }
    assert(runs_of(fragments@) =~= grown(before, key, c));
}

/// Starts a fragment at each of `list`.
fn start(fragments: &mut Vec<Fragment>, list: &Vec<usize>)
    ensures
        runs_of(final(fragments)@) == runs_of(old(fragments)@) + started(places(list@)),
{
    let ghost before = runs_of(fragments@);
    let mut i: usize = 0;
    assert(runs_of(fragments@) =~= before + started(places(list@).take(0)));
    while i < list.len()
        invariant
            i <= list.len(),
            runs_of(fragments@) == before + started(places(list@).take(i as int)),
        decreases list.len() - i,
    {
        let ghost earlier = fragments@;
        let fragment = Fragment::new(list[i]);
        fragments.push(fragment);
        proof {
            let shorter = places(list@).take(i as int);
            let longer = places(list@).take(i + 1);
            assert(longer =~= shorter.push(list@[i as int] as int));
            assert(started(longer) =~= started(shorter).push(fragment@));
            assert(runs_of(fragments@) =~= runs_of(earlier).push(fragment@));
            assert(runs_of(fragments@) =~= before + started(longer));
        }
        i += 1;
    }
    assert(places(list@).take(list@.len() as int) =~= places(list@));
}

/// The sum of the squared lengths of `fragments`.
fn sum_of_squares(fragments: &Vec<Fragment>) -> (sum: Natural)
    ensures
        sum@ == fragment_score(runs_of(fragments@)),
{
    let mut sum = Natural::zero();
    let mut pending: u128 = 0;
    let mut i: usize = 0;
    assert(runs_of(fragments@).take(0) =~= Seq::<Run>::empty());
    while i < fragments.len()
        invariant
            i <= fragments.len(),
            sum@ + pending == fragment_score(runs_of(fragments@).take(i as int)),
        decreases fragments.len() - i,
    {
        let length: u128 = fragments[i].length as u128;
        assert(length * length <= 0xFFFF_FFFF_FFFF_FFFF_FFFF_FFFF_FFFF_FFFF) by (nonlinear_arith)
            requires
                length <= 0xFFFF_FFFF_FFFF_FFFF,
        ;
        let square: u128 = length * length;
        proof {
            let longer = runs_of(fragments@).take(i + 1);
            assert(longer.drop_last() =~= runs_of(fragments@).take(i as int));
            assert(longer.last().length == length);
        }
        match pending.checked_add(square) {
            Some(more) => {
                pending = more;
            },
            None => {
                sum = sum.plus(&Natural::from_u128(pending));
                pending = square;
            },
        }
        i += 1;
    }
    assert(runs_of(fragments@).take(fragments@.len() as int) =~= runs_of(fragments@));
    sum.plus(&Natural::from_u128(pending))
}

/// A candidate for matching: a path, the key that queries are matched
/// against, and the position index of that key.
pub struct Entry {
    path: String,
    key: Vec<char>,
    index: HashMap<u32, Vec<usize>>,
}

impl View for Entry {
    type V = Candidate;

    closed spec fn view(&self) -> Candidate {
        Candidate { path: self.path@, key: self.key@ }
    }
}

impl Entry {
    #[verifier::type_invariant]
    spec fn indexed(&self) -> bool {
        indexes(self.index@, self.key@)
    }

    /// The path of the candidate, as it is shown.
    pub fn path(&self) -> (path: &String)
        ensures
            path@ == self@.path,
    {
        &self.path
    }

    /// The characters that queries are matched against.
    pub fn key(&self) -> (key: &Vec<char>)
        ensures
            key@ == self@.key,
    {
        &self.key
    }

    /// The positions of the key that hold `c`, in ascending order, or `None`
    /// where `c` does not occur in the key.
    pub fn occurrences(&self, c: char) -> (list: Option<&Vec<usize>>)
        ensures
            list is Some <==> self@.key.contains(c),
            list is Some ==> places(list->0@) == positions(self@.key, c),
    {
        proof {
            use_type_invariant(self);
        }
        let k: u32 = c as u32;
        let list = self.index.get(&k);
        assert(k == code(c));
        list
    }

    /// The runs that `query` leaves in the key, and the number of its
    /// characters that the key lacks.
    fn track(&self, query: &Vec<char>) -> (outcome: (Vec<Fragment>, usize))
        ensures
            runs_of(outcome.0@) == runs_after(query@, self@.key),
            outcome.1 == absent(query@, self@.key),
    {
        let ghost key = self.key@;
        assert(self.key.len() <= usize::MAX);
        let mut fragments: Vec<Fragment> = Vec::new();
        let mut missing: usize = 0;
        let mut k: usize = 0;
        assert(query@.take(0) =~= Seq::<char>::empty());
        assert(runs_of(fragments@) =~= Seq::<Run>::empty());
        while k < query.len()
            invariant
                k <= query.len(),
                key == self@.key,
                key.len() <= usize::MAX,
                missing <= k,
                missing == absent(query@.take(k as int), key),
                runs_of(fragments@) == runs_after(query@.take(k as int), key),
                all_within(runs_of(fragments@), key.len() as int),
            decreases query.len() - k,
        {
            let c: char = query[k];
            let ghost before = runs_of(fragments@);
            proof {
                let longer = query@.take(k + 1);
                assert(longer.drop_last() =~= query@.take(k as int));
                assert(longer.last() == c);
                lemma_advance_within(before, key, c);
            }
            match self.occurrences(c) {
                Some(list) => {
                    let fresh = unclaimed_places(list, &fragments);
                    lengthen(&mut fragments, list, Ghost(key), Ghost(c));
                    start(&mut fragments, &fresh);
                    assert(runs_of(fragments@) == advance(before, key, c));
                },
                None => {
                    proof {
                        lemma_advance_absent(before, key, c);
                    }
                    missing += 1;
                },
            }
            k += 1;
        }
        assert(query@.take(query@.len() as int) =~= query@);
        (fragments, missing)
    }

    /// Compares `query` to the candidate and returns its score.
    ///
    /// A query that is the candidate's path scores one. Any other scores by
    /// the runs of consecutive characters of the key that it matches, less
    /// a penalty for each of its characters that the key lacks.
    pub fn similarity(&self, query: &str) -> (score: Score)
        ensures
            score@ == relevance(query@, self@),
    {
        let text: String = query.to_owned();
        if text == self.path {
            return Score::one();
        }
        let chars = characters(query);
        let n: usize = self.key.len();
        let (fragments, missing) = self.track(&chars);
        if missing >= n {
            return Score::zero();
        }
        let sum = sum_of_squares(&fragments);
        let numerator = sum.times((n - missing) as u64);
        Score::new(numerator, n as u64)
    }
}

/// The candidate for `path`, which is also its key.
pub fn new(path: String) -> (entry: Entry)
    ensures
        entry@ == (Candidate { path: path@, key: path@ }),
{
    let key = characters(path.as_str());
    let index = index_characters(&key);
    Entry { path, key, index }
}

/// The candidate for `path` that is matched by `key`.
pub fn keyed(path: String, key: &str) -> (entry: Entry)
    ensures
        entry@ == (Candidate { path: path@, key: key@ }),
{
    let key = characters(key);
    let index = index_characters(&key);
    Entry { path, key, index }
}

} // verus!
