//! Fuzzy matching of file paths against short, hand-typed queries.
//!
//! An [`index::Index`] holds the relative paths found beneath a directory.
//! Its `find` ranks them against a query by an exact rational score that
//! rewards long runs of consecutive matching characters, and returns the
//! best few.

pub use exclusion::ExclusionPattern;
pub use index::Index;

pub mod exclusion;
pub mod index;
pub mod indexed_path;
pub mod matching;
pub mod natural;
