//! Edit distance between strings, and the "did you mean ...?" search built on it.
//!
//! * [`distance`] holds the Levenshtein distance: its definition on sequences of
//!   scalar values, the laws it obeys, and the single-row program that computes it.
//! * [`edits`] shows what that distance measures: the length of the shortest
//!   list of single edits that turns one sequence into the other.
//! * [`words`] reads a name as a list of words and brings it into a normal form
//!   that does not depend on the order of the words.
//! * [`matching`] selects, among candidate names, the best match for a name that
//!   was not found.
//! * [`text`] moves between strings and sequences of scalar values.

pub mod distance;
pub mod edits;
pub mod matching;
pub mod text;
pub mod words;

pub use crate::distance::lev_distance;
pub use crate::matching::{find_best_match_for_name, find_match_by_sorted_words};
pub use crate::words::sort_by_words;
