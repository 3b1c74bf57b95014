//! Scoring policies for choosing the best match.
//!
//! A scorer assigns a numeric priority to a pattern at insertion time; lower
//! wins. It must be a pure function of the pattern text and of whether the
//! pattern carries regex semantics, which the `score_spec` model enforces.

use vstd::prelude::*;

use crate::pattern::chars_of;

verus! {

/// A pluggable scoring policy, supplied when a trie is built.
pub trait Scorer: Sized {
    /// The mathematical content of this policy.
    spec fn score_spec(&self, pattern: Seq<char>, is_regex: bool) -> usize;

    /// Computes the score of a pattern; `is_regex` tells whether the pattern
    /// carries regex semantics or is a plain string.
    fn score(&self, pattern: &str, is_regex: bool) -> (r: usize)
        ensures
            r == self.score_spec(pattern@, is_regex),
    ;
}

/// The default policy: a regex pattern scores its character length, a plain
/// string scores zero, so plain matches outrank every regex match.
pub struct DefaultScorer;

impl Scorer for DefaultScorer {
    open spec fn score_spec(&self, pattern: Seq<char>, is_regex: bool) -> usize {
        if is_regex {
            pattern.len() as usize
        } else {
            0
        }
    }

    fn score(&self, pattern: &str, is_regex: bool) -> (r: usize)
        ensures
            r == self.score_spec(pattern@, is_regex),
    {
        if is_regex {
            pattern.unicode_len()
        } else {
            0
        }
    }
}

/// A policy that scores every pattern, plain or regex, by its character
/// length alone.
pub struct PatternLengthScorer;

impl Scorer for PatternLengthScorer {
    open spec fn score_spec(&self, pattern: Seq<char>, is_regex: bool) -> usize {
        pattern.len() as usize
    }

    fn score(&self, pattern: &str, is_regex: bool) -> (r: usize)
        ensures
            r == self.score_spec(pattern@, is_regex),
    {
        pattern.unicode_len()
    }
}

/// The position of the first `://` in a sequence, if any.
pub open spec fn sep_index(s: Seq<char>) -> Option<int>
    decreases s.len(),
{
    if s.len() < 3 {
        None
    } else if s[0] == ':' && s[1] == '/' && s[2] == '/' {
        Some(0int)
    } else {
        match sep_index(s.skip(1)) {
            Some(k) => Some(k + 1),
            None => None,
        }
    }
}

/// How many `/` characters a sequence holds.
pub open spec fn count_slashes(s: Seq<char>) -> int
    decreases s.len(),
{
    if s.len() == 0 {
        0
    } else {
        count_slashes(s.drop_last()) + if s.last() == '/' {
            1int
        } else {
            0int
        }
    }
}

pub proof fn lemma_count_slashes_bound(s: Seq<char>)
    ensures
        0 <= count_slashes(s) <= s.len(),
    decreases s.len(),
{
    if s.len() > 0 {
        lemma_count_slashes_bound(s.drop_last());
    }
}

/// The score a [`PathSegmentScorer`] assigns: the number of `/` separators
/// after the first `://`, an approximation of a URL pattern's path depth; a
/// pattern without a scheme separator scores its character length.
pub open spec fn path_segment_score(p: Seq<char>) -> int {
    match sep_index(p) {
        Some(k) => count_slashes(p.skip(k + 3)),
        None => p.len() as int,
    }
}

/// Shifts the payload of an optional index.
pub open spec fn shift_opt(o: Option<int>, d: int) -> Option<int> {
    match o {
        Some(k) => Some(k + d),
        None => None,
    }
}

/// A policy for URL-shaped patterns: fewer path segments win, regardless of
/// pattern length or regex-ness.
pub struct PathSegmentScorer;

impl Scorer for PathSegmentScorer {
    open spec fn score_spec(&self, pattern: Seq<char>, is_regex: bool) -> usize {
        path_segment_score(pattern) as usize
    }

    fn score(&self, pattern: &str, is_regex: bool) -> (r: usize)
        ensures
            r == self.score_spec(pattern@, is_regex),
    {
        let chars = chars_of(pattern);
        let n = chars.len();
        let mut i: usize = 0;
        proof {
            assert(chars@.skip(0) =~= chars@);
            assert(shift_opt(sep_index(chars@), 0) == sep_index(chars@));
        }
        while n - i >= 3
            invariant
                i <= n,
                n == chars@.len(),
                chars@ == pattern@,
                sep_index(chars@) == shift_opt(sep_index(chars@.skip(i as int)), i as int),
            decreases n - i,
        {
            let ghost rest = chars@.skip(i as int);
            proof {
                assert(rest.len() == n - i >= 3);
                assert(rest[0] == chars@[i as int]);
                assert(rest[1] == chars@[i + 1]);
                assert(rest[2] == chars@[i + 2]);
            }
            if chars[i] == ':' && chars[i + 1] == '/' && chars[i + 2] == '/' {
                let k = i;
                proof {
                    assert(sep_index(rest) == Some(0int));
                    assert(sep_index(chars@) == Some(k as int));
                    lemma_count_slashes_bound(chars@.skip(k + 3));
                }
                let mut cnt: usize = 0;
                let mut j: usize = k + 3;
                proof {
                    assert(chars@.subrange(k + 3, j as int) =~= Seq::<char>::empty());
                }
                while j < n
                    invariant
                        k + 3 <= j <= n,
                        n == chars@.len(),
                        chars@ == pattern@,
                        sep_index(chars@) == Some(k as int),
                        cnt == count_slashes(chars@.subrange(k + 3, j as int)),
                        cnt <= j - (k + 3),
                    decreases n - j,
                {
                    proof {
                        let pre = chars@.subrange(k + 3, j + 1);
                        assert(pre.drop_last() =~= chars@.subrange(k + 3, j as int));
                        assert(pre.last() == chars@[j as int]);
                    }
                    if chars[j] == '/' {
                        cnt = cnt + 1;
                    }
                    j = j + 1;
                }
                proof {
                    assert(chars@.subrange(k + 3, n as int) =~= chars@.skip(k + 3));
                }
                return cnt;
            } else {
                proof {
                    assert(rest.skip(1) =~= chars@.skip(i + 1));
                    assert(sep_index(rest) == shift_opt(sep_index(rest.skip(1)), 1));
                }
                i = i + 1;
            }
        }
        proof {
            assert(chars@.skip(i as int).len() < 3);
            assert(sep_index(chars@.skip(i as int)) is None);
        }
        n
    }
}

} // verus!
