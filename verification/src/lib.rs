//! A literal-prefix trie that accelerates membership testing against a pool
//! of regular expressions.
//!
//! Patterns are indexed by the run of non-meta characters they start with, so
//! a query only evaluates the compiled automata of the few patterns whose
//! literal prefix is a prefix of the input.

pub mod dfa;
pub mod error;
pub mod pattern;
pub mod regex_trie;
pub mod scorer;
pub mod trie;

pub use error::RegexTrieError;
pub use regex_trie::RegexTrie;
pub use scorer::{DefaultScorer, PathSegmentScorer, PatternLengthScorer, Scorer};
