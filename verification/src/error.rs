//! The one error the trie can report.

use vstd::prelude::*;

verus! {

/// Raised when a pattern turns out to carry regex semantics and the regex
/// engine rejects it. The payload is the engine's description of the fault.
#[derive(Debug, Clone)]
pub enum RegexTrieError {
    RegexCompilationFailed(String),
}

} // verus!
