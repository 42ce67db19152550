//! Paths paired with the text that queries are matched against.

use crate::matching::entry::{keyed, Entry};
use crate::matching::model::Candidate;
use vstd::prelude::*;

verus! {

/// The lower-case form of `text`: what `str::to_lowercase` returns for it.
pub uninterp spec fn lowercase(text: Seq<char>) -> Seq<char>;

/// Calls `str::to_lowercase`, which maps each character of `text` to its
/// lower-case form by the Unicode tables that the standard library was
/// built with. The result is a function of `text` alone; the contract gives
/// it the name `lowercase` and claims nothing else of it.
#[verifier::external_body]
fn to_lowercase(text: &str) -> (lower: String)
    ensures
        lower@ == lowercase(text@),
{
    text.to_lowercase()
}

/// A path with the text by which it is searched for. The text is built
/// once, when the path is indexed, and not on each search; for an index
/// that ignores case it is the lower-case form of the path, which itself
/// stays as it was.
#[derive(Debug, PartialEq, Eq, PartialOrd, Ord)]
pub struct IndexedPath {
    path: String,
    path_string: String,
}

impl View for IndexedPath {
    type V = Candidate;

    closed spec fn view(&self) -> Candidate {
        Candidate { path: self.path@, key: self.path_string@ }
    }
}

impl IndexedPath {
    /// The path `path`, searched for by its own text where `case_sensitive`
    /// holds and by its lower-case form where not.
    pub fn new(path: &str, case_sensitive: bool) -> (indexed: IndexedPath)
        ensures
            indexed@.path == path@,
            indexed@.key == if case_sensitive {
                path@
            } else {
                lowercase(path@)
            },
    {
        if case_sensitive {
            IndexedPath::with_key(path, path.to_owned())
        } else {
            IndexedPath::with_key(path, to_lowercase(path))
        }
    }

    /// The path `path`, searched for by `key`.
    pub fn with_key(path: &str, key: String) -> (indexed: IndexedPath)
        ensures
            indexed@ == (Candidate { path: path@, key: key@ }),
    {
        IndexedPath { path: path.to_owned(), path_string: key }
    }

    /// The path as it was given.
    pub fn as_path(&self) -> (path: &str)
        ensures
            path@ == self@.path,
    {
        self.path.as_str()
    }

    /// The text by which the path is searched for.
    pub fn as_str(&self) -> (key: &str)
        ensures
            key@ == self@.key,
    {
        self.path_string.as_str()
    }

    /// The candidate that the matcher scores: the path, its key, and the
    /// position index of the key.
    pub fn into_entry(self) -> (entry: Entry)
        ensures
            entry@ == self@,
    {
        let IndexedPath { path, path_string } = self;
        keyed(path, path_string.as_str())
    }
}

} // verus!
