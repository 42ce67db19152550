//! Glob patterns for paths that an index leaves out.

use vstd::prelude::*;

verus! {

/// Whether `pattern` is a glob pattern that `glob::Pattern::new` accepts.
pub uninterp spec fn glob_valid(pattern: Seq<char>) -> bool;

/// Whether the glob pattern `pattern` matches all of `text`, as
/// `glob::Pattern::matches` finds with its default options.
pub uninterp spec fn glob_accepts(pattern: Seq<char>, text: Seq<char>) -> bool;

/// Compiles `pattern` with `glob::Pattern::new` and matches `text` against
/// it with `glob::Pattern::matches`. The contract claims that the pattern
/// compiles exactly where `glob_valid` holds of it, and that the match is
/// then what `glob_accepts` names: both calls compute from their arguments
/// and the target's path separators alone.
#[verifier::external_body]
fn glob_match(pattern: &str, text: &str) -> (outcome: Option<bool>)
    ensures
        outcome is Some <==> glob_valid(pattern@),
        outcome is Some ==> outcome->0 == glob_accepts(pattern@, text@),
{
    match glob::Pattern::new(pattern) {
        Ok(compiled) => Some(compiled.matches(text)),
        Err(_) => None,
    }
}

/// A glob pattern for paths to leave out of an index.
pub struct ExclusionPattern {
    pattern: String,
}

impl View for ExclusionPattern {
    type V = Seq<char>;

    closed spec fn view(&self) -> Seq<char> {
        self.pattern@
    }
}

impl ExclusionPattern {
    #[verifier::type_invariant]
    spec fn valid(&self) -> bool {
        glob_valid(self.pattern@)
    }

    /// The exclusion pattern `pattern`, or `None` where it is not a glob
    /// pattern.
    pub fn new(pattern: &str) -> (exclusion: Option<ExclusionPattern>)
        ensures
            exclusion is Some <==> glob_valid(pattern@),
            exclusion is Some ==> exclusion->0@ == pattern@,
    {
        match glob_match(pattern, pattern) {
            Some(_) => Some(ExclusionPattern { pattern: pattern.to_owned() }),
            None => None,
        }
    }

    /// The pattern as it was written.
    pub fn as_str(&self) -> (pattern: &str)
        ensures
            pattern@ == self@,
    {
        self.pattern.as_str()
    }

    /// Whether the pattern matches all of `text`.
    pub fn matches(&self, text: &str) -> (matched: bool)
        ensures
            matched == glob_accepts(self@, text@),
    {
        proof {
            use_type_invariant(self);
        }
        match glob_match(self.pattern.as_str(), text) {
            Some(matched) => matched,
            None => false,
        }
    }
}

/// Whether one of `exclusions` matches `text`.
pub open spec fn any_accepts(exclusions: Seq<ExclusionPattern>, text: Seq<char>) -> bool {
    exists|i: int| 0 <= i < exclusions.len() && glob_accepts((#[trigger] exclusions[i])@, text)
}

/// Whether one of `exclusions` matches all of `text`.
pub fn excluded(exclusions: &Vec<ExclusionPattern>, text: &str) -> (found: bool)
    ensures
        found == any_accepts(exclusions@, text@),
{
    let mut i: usize = 0;
    while i < exclusions.len()
        invariant
            i <= exclusions.len(),
            forall|j: int| 0 <= j < i ==> !glob_accepts((#[trigger] exclusions@[j])@, text@),
        decreases exclusions.len() - i,
    {
        if exclusions[i].matches(text) {
            return true;
        }
        i += 1;
    }
    false
}

} // verus!
