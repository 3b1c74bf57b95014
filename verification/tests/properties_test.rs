use regextrie::DefaultScorer;
use regextrie::PathSegmentScorer;
use regextrie::PatternLengthScorer;
use regextrie::RegexTrie;
use regextrie::RegexTrieError;
use regextrie::Scorer;

fn sorted(mut v: Vec<String>) -> Vec<String> {
    v.sort();
    v
}

/// Repeated queries with the same input return identical results.
#[test]
fn test_idempotent_read() {
    let patterns = vec![
        "abc.*".to_string(),
        "abcdef".to_string(),
        "a[0-9]+".to_string(),
    ];
    let tree = RegexTrie::from(&patterns).expect("can't init regex trie");

    let a = tree.find_matches("abcdef");
    let b = tree.find_matches("abcdef");
    assert_eq!(sorted(a), sorted(b));

    let x = tree.find_best_match("abcdef");
    let y = tree.find_best_match("abcdef");
    assert_eq!(x, y);
    assert_eq!(Some("abcdef".to_string()), x);
}

/// A pattern whose automaton matches only part of the input is not reported:
/// matches are anchored at both ends.
#[test]
fn test_exact_anchor() {
    let patterns = vec!["test[0-9]+".to_string()];
    let tree = RegexTrie::from(&patterns).expect("can't init regex trie");

    assert_eq!(vec!["test[0-9]+".to_string()], tree.find_matches("test42"));
    // The automaton matches "test42" inside these inputs, but not the whole.
    assert!(tree.find_matches("test42x").is_empty());
    assert!(tree.find_matches("xtest42").is_empty());
}

/// An empty pattern is a plain string matching exactly the empty input, and a
/// pattern with an empty literal prefix is indexed at the root.
#[test]
fn test_empty_pattern_and_empty_input() {
    let patterns = vec!["".to_string(), ".*".to_string()];
    let tree = RegexTrie::from(&patterns).expect("can't init regex trie");

    assert_eq!(sorted(tree.find_matches("")), vec!["".to_string(), ".*".to_string()]);
    assert_eq!(vec![".*".to_string()], tree.find_matches("anything"));
    assert_eq!(Some("".to_string()), tree.find_best_match(""));
}

/// Two regex patterns with equal scores: the best match is one of them, and
/// both are reported by `find_matches`.
#[test]
fn test_equal_score_tie() {
    let patterns = vec!["ab.*".to_string(), "a.*b".to_string()];
    let tree = RegexTrie::from(&patterns).expect("can't init regex trie");

    assert_eq!(sorted(tree.find_matches("ab")), sorted(patterns.clone()));
    let best = tree.find_best_match("ab").expect("should match");
    assert!(patterns.contains(&best));
}

/// The one error variant reports a failed compilation.
#[test]
fn test_error_variant() {
    let mut tree = RegexTrie::new();
    let err = tree.insert("bad[").expect_err("should have failed");
    assert!(matches!(err, RegexTrieError::RegexCompilationFailed(_)));
}

/// A failing pattern in the middle aborts the batch, but the patterns
/// inserted before it stay queryable.
#[test]
fn test_insert_many_stops_at_failure() {
    let patterns = vec![
        "good[0-9]+".to_string(),
        "bad[".to_string(),
        "later.*".to_string(),
    ];
    let mut tree = RegexTrie::new();
    assert!(tree.insert_many(&patterns).is_err(), "should have failed");

    assert_eq!(vec!["good[0-9]+".to_string()], tree.find_matches("good1"));
    assert!(tree.find_matches("laterx").is_empty());
}

/// Byte offsets, not character counts, decide whether a match spans the
/// whole input: multi-byte characters must not break the anchoring.
#[test]
fn test_unicode_input() {
    let patterns = vec!["h\u{e9}llo.*".to_string()];
    let tree = RegexTrie::from(&patterns).expect("can't init regex trie");

    assert_eq!(patterns, tree.find_matches("h\u{e9}llo!"));
    assert_eq!(patterns, tree.find_matches("h\u{e9}llo"));
    assert!(tree.find_matches("hello!").is_empty());
}

/// The default scorer: character length for a regex, zero for a plain string.
#[test]
fn test_default_scorer_values() {
    assert_eq!(5, DefaultScorer.score("ab.*c", true));
    assert_eq!(0, DefaultScorer.score("ab.*c", false));
}

/// The length scorer ignores regex-ness.
#[test]
fn test_length_scorer_values() {
    assert_eq!(5, PatternLengthScorer.score("ab.*c", true));
    assert_eq!(5, PatternLengthScorer.score("ab.*c", false));
}

/// The path-segment scorer counts separators after the scheme and falls back
/// to the pattern length when no scheme separator exists.
#[test]
fn test_path_segment_scorer_values() {
    assert_eq!(2, PathSegmentScorer.score("https://www.google.com/[a-zA-Z0-9/-]+", true));
    assert_eq!(3, PathSegmentScorer.score("https://www.google.com/.*/test/.*", true));
    assert_eq!(7, PathSegmentScorer.score("abcdefg", true));
}

/// An escaped meta-character participates in the literal prefix: the trie
/// distinguishes it from the regex path, and the reported text keeps the
/// backslash.
#[test]
fn test_escaping_reconstruction() {
    let patterns = vec!["a\\[b\\]c".to_string()];
    let tree = RegexTrie::from(&patterns).expect("can't init regex trie");

    assert_eq!(patterns, tree.find_matches("a[b]c"));
    assert_eq!(Some(patterns[0].clone()), tree.find_best_match("a[b]c"));
    assert!(tree.find_matches("a\\[b\\]c").is_empty());
}

/// A custom scorer can rank a regex above the plain hit.
#[test]
fn test_custom_scorer_overrides_plain_priority() {
    let patterns = vec!["ab".to_string(), "a.*".to_string()];
    let tree =
        RegexTrie::from_with_scorer(&patterns, PatternLengthScorer).expect("can't init regex trie");

    // Both match "ab"; under the length scorer both score 2, and the plain
    // hit, seeded first, keeps the tie.
    assert_eq!(Some("ab".to_string()), tree.find_best_match("ab"));
}

/// The default construction is an empty trie that reports nothing.
#[test]
fn test_default_is_empty() {
    let tree = RegexTrie::default();
    assert!(tree.find_matches("anything").is_empty());
    assert_eq!(None, tree.find_best_match("anything"));
}
