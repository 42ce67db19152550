//! The files beneath a directory, indexed for fuzzy search.

use crate::exclusion::{any_accepts, excluded, ExclusionPattern};
use crate::indexed_path::{lowercase, IndexedPath};
use crate::matching::entry::Entry;
use crate::matching::model::Candidate;
use crate::matching::ranking::is_ranking;
use crate::matching::{candidates, find, presents, relevances};
use vstd::prelude::*;
use vstd::string::StringSliceAdditionalSpecFns;
use vstd::utf8::{decode_utf8, encode_utf8, is_char_boundary};

verus! {

/// What a walk of the file system found at one place.
pub struct Found {
    /// The full path, with whatever is not valid text in it replaced.
    pub shown: String,
    /// The full path, where all of it is valid text.
    pub path: Option<String>,
    /// Whether a regular file is at the path.
    pub is_file: bool,
}

/// Whether `exclusions` let a path with the text `shown` into an index:
/// none of them matches it. No list of exclusions lets every path in.
pub open spec fn admitted(exclusions: Option<Vec<ExclusionPattern>>, shown: Seq<char>) -> bool {
    match exclusions {
        Some(list) => !any_accepts(list@, shown),
        None => true,
    }
}

/// Whether `exclusions` let a path with the text `shown` into an index.
pub fn admits(exclusions: &Option<Vec<ExclusionPattern>>, shown: &str) -> (admitted: bool)
    ensures
        admitted == self::admitted(*exclusions, shown@),
{
    match exclusions {
        Some(list) => !excluded(list, shown),
        None => true,
    }
}

/// Whether `found` has a path relative to a directory whose own path, with
/// the separator after it, takes `prefix_length` bytes: it is a regular
/// file, and its path is text that can be cut after that many bytes.
pub open spec fn has_relative_path(found: Found, prefix_length: int) -> bool {
    &&& found.is_file
    &&& found.path is Some
    &&& is_char_boundary(encode_utf8(found.path->0@), prefix_length)
}

/// The text of `path` after its first `prefix_length` bytes.
pub open spec fn relative_text(path: Seq<char>, prefix_length: int) -> Seq<char> {
    decode_utf8(encode_utf8(path).skip(prefix_length))
}

/// Turns what a walk found into a path relative to the directory walked,
/// whose own path, with the separator after it, takes `prefix_length`
/// bytes. Returns `None` for what is not a regular file, and for a path
/// that is not text or cannot be cut there.
pub fn relative_entry_path(found: &Found, prefix_length: usize) -> (relative: Option<String>)
    ensures
        relative is Some <==> has_relative_path(*found, prefix_length as int),
        relative is Some ==> relative->0@ == relative_text(found.path->0@, prefix_length as int),
{
    if !found.is_file {
        return None;
    }
    match &found.path {
        Some(path) => {
            let text: &str = path.as_str();
            if text.is_char_boundary(prefix_length) {
                let (_, rest) = text.split_at(prefix_length);
                proof {
                    vstd::utf8::encode_utf8_decode_utf8(rest@);
                    assert(encode_utf8(text@).skip(prefix_length as int) =~= rest.spec_bytes());
                }
                Some(rest.to_owned())
            } else {
                None
            }
        },
        None => None,
    }
}

/// The candidate that `found` adds to an index, if any.
pub open spec fn candidate_of(
    found: Found,
    prefix_length: int,
    exclusions: Option<Vec<ExclusionPattern>>,
    case_sensitive: bool,
) -> Option<Candidate> {
    if admitted(exclusions, found.shown@) && has_relative_path(found, prefix_length) {
        let relative = relative_text(found.path->0@, prefix_length);
        Some(
            Candidate {
                path: relative,
                key: if case_sensitive {
                    relative
                } else {
                    lowercase(relative)
                },
            },
        )
    } else {
        None
    }
}

/// The candidates that the finds of `walk` add to an index, in their order.
pub open spec fn gathered(
    walk: Seq<Found>,
    prefix_length: int,
    exclusions: Option<Vec<ExclusionPattern>>,
    case_sensitive: bool,
) -> Seq<Candidate>
    decreases walk.len(),
{
    if walk.len() == 0 {
        Seq::empty()
    } else {
        let before = gathered(walk.drop_last(), prefix_length, exclusions, case_sensitive);
        match candidate_of(walk.last(), prefix_length, exclusions, case_sensitive) {
            Some(candidate) => before.push(candidate),
            None => before,
        }
    }
}

/// The number of bytes that `root` and the separator after it take in the
/// paths beneath it.
pub open spec fn prefix_of(root: Seq<char>) -> int {
    (encode_utf8(root).len() as usize) + 1
}

/// The path of what lies at `relative` beneath the directory `root`.
pub open spec fn beneath(root: Seq<char>, separator: char, relative: Seq<char>) -> Seq<char> {
    root.push(separator) + relative
}

/// Whether `found` is a regular file at `relative` beneath `root`.
pub open spec fn is_file_at(
    found: Found,
    root: Seq<char>,
    separator: char,
    relative: Seq<char>,
) -> bool {
    found.is_file && found.path is Some && found.path->0@ == beneath(root, separator, relative)
}

/// The paths of `candidates`.
pub open spec fn paths_of(candidates: Seq<Candidate>) -> Seq<Seq<char>> {
    candidates.map_values(|candidate: Candidate| candidate.path)
}

proof fn lemma_encode_concat(first: Seq<char>, second: Seq<char>)
    ensures
        encode_utf8(first + second) == encode_utf8(first) + encode_utf8(second),
        is_char_boundary(encode_utf8(first + second), encode_utf8(first).len() as int),
    decreases first.len(),
{
    let whole = first + second;
    vstd::utf8::encode_utf8_valid_utf8(whole);
    if first.len() == 0 {
        assert(whole =~= second);
        assert(encode_utf8(first) + encode_utf8(second) =~= encode_utf8(second));
    } else {
        let rest = first.drop_first();
        assert(whole.drop_first() =~= rest + second);
        assert(whole[0] == first[0]);
        lemma_encode_concat(rest, second);
        let head = vstd::utf8::encode_scalar(first[0] as u32);
        assert(encode_utf8(whole) =~= encode_utf8(first) + encode_utf8(second));
        vstd::utf8::encode_utf8_first_scalar(whole);
        assert(vstd::utf8::pop_first_scalar(encode_utf8(whole)) =~= encode_utf8(rest + second));
        assert(encode_utf8(first).len() == head.len() + encode_utf8(rest).len());
        assert(head.len() > 0);
    }
}

/// Cutting the directory's own path and the separator from the path of what
/// lies beneath the directory leaves the relative path.
pub proof fn lemma_relative_path(root: Seq<char>, separator: char, relative: Seq<char>)
    requires
        separator as u32 <= 0x7F,
        encode_utf8(root).len() < usize::MAX,
    ensures
        is_char_boundary(encode_utf8(beneath(root, separator, relative)), prefix_of(root)),
        relative_text(beneath(root, separator, relative), prefix_of(root)) == relative,
{
    let stem = root.push(separator);
    let one = seq![separator];
    assert(stem =~= root + one);
    lemma_encode_concat(root, one);
    lemma_encode_concat(stem, relative);
    assert(one.drop_first() =~= Seq::<char>::empty());
    assert(encode_utf8(one) =~= vstd::utf8::encode_scalar(separator as u32)) by {
        reveal_with_fuel(encode_utf8, 2);
    }
    assert(encode_utf8(one).len() == 1);
    assert(encode_utf8(stem).len() == prefix_of(root));
    assert(encode_utf8(beneath(root, separator, relative)).skip(prefix_of(root)) =~= encode_utf8(
        relative,
    ));
    vstd::utf8::encode_utf8_decode_utf8(relative);
}

/// A walk of a directory puts into an index exactly the regular files
/// beneath the directory that the exclusions admit, each by its relative
/// path: where every regular file of the walk lies beneath the directory,
/// `relative` is the path of a gathered candidate if and only if the walk
/// found an admitted regular file at `relative`.
pub proof fn lemma_population(
    walk: Seq<Found>,
    root: Seq<char>,
    separator: char,
    exclusions: Option<Vec<ExclusionPattern>>,
    case_sensitive: bool,
    relative: Seq<char>,
)
    requires
        separator as u32 <= 0x7F,
        encode_utf8(root).len() < usize::MAX,
        forall|i: int|
            0 <= i < walk.len() && (#[trigger] walk[i]).is_file && walk[i].path is Some
                ==> exists|place: Seq<char>|
                walk[i].path->0@ == #[trigger] beneath(root, separator, place),
    ensures
        paths_of(gathered(walk, prefix_of(root), exclusions, case_sensitive)).contains(relative)
            <==> exists|i: int|
            0 <= i < walk.len() && admitted(exclusions, (#[trigger] walk[i]).shown@) && is_file_at(
                walk[i],
                root,
                separator,
                relative,
            ),
    decreases walk.len(),
{
    let prefix = prefix_of(root);
    let all = gathered(walk, prefix, exclusions, case_sensitive);
    if walk.len() > 0 {
        let shorter = walk.drop_last();
        let last = walk.last();
        let before = gathered(shorter, prefix, exclusions, case_sensitive);
        assert forall|i: int|
            0 <= i < shorter.len() && (#[trigger] shorter[i]).is_file && shorter[i].path is Some
            implies exists|place: Seq<char>|
            shorter[i].path->0@ == #[trigger] beneath(root, separator, place) by {
            assert(shorter[i] == walk[i]);
        }
        lemma_population(shorter, root, separator, exclusions, case_sensitive, relative);
        let added = candidate_of(last, prefix, exclusions, case_sensitive);
        assert(walk[walk.len() - 1] == last);
        if paths_of(all).contains(relative) {
            let j = choose|j: int| 0 <= j < all.len() && paths_of(all)[j] == relative;
            if j < before.len() {
                assert(paths_of(before)[j] == relative);
                let i = choose|i: int|
                    0 <= i < shorter.len() && admitted(exclusions, (#[trigger] shorter[i]).shown@)
                        && is_file_at(shorter[i], root, separator, relative);
                assert(walk[i] == shorter[i]);
            } else {
                assert(added is Some);
                let place = choose|place: Seq<char>|
                    last.path->0@ == #[trigger] beneath(root, separator, place);
                lemma_relative_path(root, separator, place);
                assert(added->0.path == place);
                assert(is_file_at(walk[walk.len() - 1], root, separator, relative));
            }
        }
        if exists|i: int|
            0 <= i < walk.len() && admitted(exclusions, (#[trigger] walk[i]).shown@) && is_file_at(
                walk[i],
                root,
                separator,
                relative,
            ) {
            let i = choose|i: int|
                0 <= i < walk.len() && admitted(exclusions, (#[trigger] walk[i]).shown@)
                    && is_file_at(walk[i], root, separator, relative);
            if i < shorter.len() {
                assert(shorter[i] == walk[i]);
                assert(paths_of(before).contains(relative));
                let j = choose|j: int| 0 <= j < before.len() && paths_of(before)[j] == relative;
                assert(paths_of(all)[j] == relative);
            } else {
                lemma_relative_path(root, separator, relative);
                assert(added is Some);
                assert(paths_of(all)[before.len() as int] == relative);
            }
        }
    }
}

/// What an index is: the directory it stands for, and its candidates in the
/// order in which they came in.
pub struct Listing {
    pub root: Seq<char>,
    pub candidates: Seq<Candidate>,
}

/// The files beneath one directory, each a candidate for `find`.
pub struct Index {
    path: String,
    entries: Vec<Entry>,
}

impl View for Index {
    type V = Listing;

    closed spec fn view(&self) -> Listing {
        Listing { root: self.path@, candidates: candidates(self.entries@) }
    }
}

impl Index {
    /// An index for the directory at `path`, with no candidates yet.
    pub fn new(path: String) -> (index: Index)
        ensures
            index@ == (Listing { root: path@, candidates: Seq::empty() }),
    {
        let index = Index { path, entries: Vec::new() };
        assert(index@.candidates =~= Seq::empty());
        index
    }

    /// The directory that the index stands for.
    pub fn path(&self) -> (path: &str)
        ensures
            path@ == self@.root,
    {
        self.path.as_str()
    }

    /// The candidates, in the order in which they came in.
    pub fn entries(&self) -> (entries: &Vec<Entry>)
        ensures
            candidates(entries@) == self@.candidates,
    {
        &self.entries
    }

    /// Adds to the index a candidate for each regular file among `walk`,
    /// what a walk of the directory found, in the order of `walk`. What one
    /// of `exclusions` matches is left out, and so is a path that is not
    /// text. A candidate has the path that leads to it from the directory;
    /// where `case_sensitive` does not hold it is searched for by the
    /// lower-case form of that path.
    pub fn populate(
        &mut self,
        walk: &Vec<Found>,
        exclusions: &Option<Vec<ExclusionPattern>>,
        case_sensitive: bool,
    )
        ensures
            final(self)@.root == old(self)@.root,
            final(self)@.candidates == old(self)@.candidates + (if prefix_of(old(self)@.root)
                <= usize::MAX {
                gathered(walk@, prefix_of(old(self)@.root), *exclusions, case_sensitive)
            } else {
                Seq::empty()
            }),
    {
        let ghost before = self@.candidates;
        // The paths of a walk begin with the directory's own; the
        // candidates' are relative to it.
        let prefix_length: usize = match self.path.as_str().len().checked_add(1) {
            Some(length) => length,
            None => {
                assert(self@.candidates =~= before + Seq::empty());
                return ;
            },
        };
        let mut i: usize = 0;
        assert(walk@.take(0) =~= Seq::<Found>::empty());
        assert(self@.candidates =~= before + Seq::empty());
        while i < walk.len()
            invariant
                i <= walk.len(),
                self@.root == old(self)@.root,
                prefix_length == prefix_of(self@.root),
                self@.candidates == before + gathered(
                    walk@.take(i as int),
                    prefix_length as int,
                    *exclusions,
                    case_sensitive,
                ),
            decreases walk.len() - i,
        {
            let found = &walk[i];
            let ghost earlier = self@.candidates;
            proof {
                let longer = walk@.take(i + 1);
                assert(longer.drop_last() =~= walk@.take(i as int));
                assert(longer.last() == *found);
            }
            if admits(exclusions, found.shown.as_str()) {
                match relative_entry_path(found, prefix_length) {
                    Some(relative) => {
                        let indexed = IndexedPath::new(relative.as_str(), case_sensitive);
                        self.entries.push(indexed.into_entry());
                        assert(self@.candidates =~= earlier.push(
                            candidate_of(
                                *found,
                                prefix_length as int,
                                *exclusions,
                                case_sensitive,
                            )->0,
                        ));
                    },
                    None => {},
                }
            }
            i += 1;
        }
        assert(walk@.take(walk@.len() as int) =~= walk@);
    }

    /// The paths of the best `limit` candidates for `term`, the best first:
    /// the higher score comes first, and of two candidates with the same
    /// score the one that came into the index first.
    pub fn find(&self, term: &str, limit: usize) -> (paths: Vec<String>)
        ensures
            paths@.len() == if limit <= self@.candidates.len() {
                limit as int
            } else {
                self@.candidates.len() as int
            },
            exists|order: Seq<int>|
                {
                    &&& is_ranking(order, relevances(term@, self@.candidates), limit as nat)
                    &&& paths@.len() == order.len()
                    &&& forall|k: int|
                        0 <= k < paths@.len() ==> (#[trigger] paths@[k])@
                            == self@.candidates[order[k]].path
                },
    {
        let results = find(term, &self.entries, limit);
        let mut paths: Vec<String> = Vec::new();
        let mut k: usize = 0;
        while k < results.len()
            invariant
                k <= results.len(),
                paths@.len() == k,
                forall|j: int| 0 <= j < k ==> (#[trigger] paths@[j])@ == results@[j].path@,
            decreases results.len() - k,
        {
            paths.push(results[k].path.clone());
            k += 1;
        }
        proof {
            let order = choose|order: Seq<int>|
                is_ranking(order, relevances(term@, self@.candidates), limit as nat) && presents(
                    results@,
                    order,
                    term@,
                    self@.candidates,
                );
            assert forall|j: int| 0 <= j < paths@.len() implies (#[trigger] paths@[j])@
                == self@.candidates[order[j]].path by {
                assert(results@[j].path@ == self@.candidates[order[j]].path);
            }
        }
        paths
    }

    /// The paths of all candidates, in the order in which they came in.
    pub fn iter(&self) -> (paths: Vec<&str>)
        ensures
            paths@.len() == self@.candidates.len(),
            forall|i: int|
                0 <= i < paths@.len() ==> (#[trigger] paths@[i])@ == self@.candidates[i].path,
    {
        let mut paths: Vec<&str> = Vec::new();
        let mut i: usize = 0;
        while i < self.entries.len()
            invariant
                i <= self.entries.len(),
                paths@.len() == i,
                forall|j: int| 0 <= j < i ==> (#[trigger] paths@[j])@ == self.entries@[j]@.path,
            decreases self.entries.len() - i,
        {
            paths.push(self.entries[i].path().as_str());
            i += 1;
        }
        paths
    }
}

} // verus!
