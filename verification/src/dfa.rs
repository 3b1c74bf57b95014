//! The regex engine as an external collaborator.
//!
//! Compiling a pattern into a matchable automaton and running that automaton
//! over a byte string is the job of `regex_automata`'s dense-DFA regex. The
//! items here declare that engine's types and give names to what its calls
//! return; the trie's own logic is verified against these contracts.

use vstd::prelude::*;
use vstd::utf8::encode_utf8;

verus! {

#[verifier::external_type_specification]
#[verifier::external_body]
#[verifier::reject_recursive_types(A)]
pub struct ExRegex<A>(regex_automata::dfa::regex::Regex<A>);

#[verifier::external_type_specification]
#[verifier::external_body]
#[verifier::reject_recursive_types(T)]
pub struct ExDenseDfa<T>(regex_automata::dfa::dense::DFA<T>);

/// Whether `regex_automata::dfa::regex::Regex::new` accepts the pattern.
/// Compilation is a function of the pattern text alone.
pub uninterp spec fn regex_compiles(p: Seq<char>) -> bool;

/// The pattern text an automaton was compiled from. The automaton built by
/// `Regex::new` is determined by that text, so everything the automaton does
/// can be stated over it.
pub uninterp spec fn regex_pattern(r: regex_automata::dfa::regex::Regex) -> Seq<char>;

/// The byte offsets of the leftmost match that the automaton compiled from
/// `p` reports on the UTF-8 bytes of `input`, or `None` when it reports no
/// match. A function of the pattern text and the input alone.
pub uninterp spec fn regex_find_spec(p: Seq<char>, input: Seq<char>) -> Option<(usize, usize)>;

/// Whether the automaton compiled from `p` reports a match spanning the whole
/// input, anchored at both ends.
pub open spec fn matches_exactly(p: Seq<char>, input: Seq<char>) -> bool {
    match regex_find_spec(p, input) {
        Some(span) => span.0 == 0 && span.1 == encode_utf8(input).len(),
        None => false,
    }
}

/// Relies on `regex_automata::dfa::regex::Regex::new`: compiles the pattern
/// into a forward/reverse dense-DFA pair, deterministically in the pattern
/// text; fails exactly on the pattern texts the engine rejects.
#[verifier::external_body]
pub(crate) fn regex_new(pattern: &str) -> (r: Result<regex_automata::dfa::regex::Regex, String>)
    ensures
        r is Ok <==> regex_compiles(pattern@),
        r matches Ok(re) ==> regex_pattern(re) == pattern@,
{
    regex_automata::dfa::regex::Regex::new(pattern).map_err(|e| e.to_string())
}

/// Relies on `regex_automata::dfa::regex::Regex::find`: reports the start and
/// end byte offsets of the leftmost match, a function of the pattern the
/// automaton was compiled from and the haystack alone. With the default
/// configuration `Regex::new` uses, the search cannot quit, so the call does
/// not panic.
#[verifier::external_body]
pub(crate) fn regex_find(re: &regex_automata::dfa::regex::Regex, input: &str) -> (r: Option<
    (usize, usize),
>)
    ensures
        r == regex_find_spec(regex_pattern(*re), input@),
{
    re.find(input.as_bytes()).map(|m| (m.start(), m.end()))
}

/// Relies on `str::len`: the length in bytes of the slice's UTF-8 encoding,
/// which, being the extent of a real allocation, fits in `usize`.
#[verifier::external_body]
pub(crate) fn byte_len(s: &str) -> (r: usize)
    ensures
        r == encode_utf8(s@).len(),
{
    s.len()
}

/// Relies on `String::push`: appends one character.
#[verifier::external_body]
pub(crate) fn push_char(s: &mut String, c: char)
    ensures
        final(s)@ == old(s)@.push(c),
{
    s.push(c);
}

} // verus!
