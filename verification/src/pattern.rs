//! Literal-prefix scanning of pattern strings.
//!
//! A pattern is scanned left to right. A backslash followed by a
//! meta-character stands for that character itself; an unescaped
//! meta-character ends the literal prefix and marks the pattern as a regex.

use vstd::prelude::*;

verus! {

/// The characters that trigger regex semantics unless escaped.
pub open spec fn is_special(c: char) -> bool {
    c == '.' || c == '?' || c == '*' || c == '+' || c == '(' || c == ')' || c == '[' || c == ']'
        || c == '{' || c == '}'
}

/// The literal prefix of a pattern: the characters before the first unescaped
/// meta-character, with the escaping backslashes removed.
pub open spec fn literal_of(p: Seq<char>) -> Seq<char>
    decreases p.len(),
{
    if p.len() == 0 {
        Seq::empty()
    } else if p[0] == '\\' && p.len() >= 2 && is_special(p[1]) {
        seq![p[1]] + literal_of(p.skip(2))
    } else if is_special(p[0]) {
        Seq::empty()
    } else {
        seq![p[0]] + literal_of(p.skip(1))
    }
}

/// Whether the scan hits an unescaped meta-character, so that the pattern
/// carries regex semantics and must be compiled.
pub open spec fn is_regex_pattern(p: Seq<char>) -> bool
    decreases p.len(),
{
    if p.len() == 0 {
        false
    } else if p[0] == '\\' && p.len() >= 2 && is_special(p[1]) {
        is_regex_pattern(p.skip(2))
    } else if is_special(p[0]) {
        true
    } else {
        is_regex_pattern(p.skip(1))
    }
}

/// The escaped form of a literal: a backslash is put back in front of every
/// meta-character, recovering the pattern text a plain literal was written as.
pub open spec fn escaped(lit: Seq<char>) -> Seq<char>
    decreases lit.len(),
{
    if lit.len() == 0 {
        Seq::empty()
    } else if is_special(lit[0]) {
        seq!['\\', lit[0]] + escaped(lit.skip(1))
    } else {
        seq![lit[0]] + escaped(lit.skip(1))
    }
}

/// A plain pattern (one without regex semantics) is exactly the escaped form
/// of its own literal prefix.
pub proof fn lemma_plain_roundtrip(p: Seq<char>)
    requires
        !is_regex_pattern(p),
    ensures
        escaped(literal_of(p)) == p,
    decreases p.len(),
{
    if p.len() == 0 {
        assert(escaped(literal_of(p)) =~= p);
    } else if p[0] == '\\' && p.len() >= 2 && is_special(p[1]) {
        lemma_plain_roundtrip(p.skip(2));
        let lit = literal_of(p);
        assert(lit == seq![p[1]] + literal_of(p.skip(2)));
        assert(lit[0] == p[1]);
        assert(lit.skip(1) =~= literal_of(p.skip(2)));
        assert(escaped(lit) == seq!['\\', p[1]] + escaped(literal_of(p.skip(2))));
        assert(escaped(lit) =~= p);
    } else {
        assert(!is_special(p[0]));
        lemma_plain_roundtrip(p.skip(1));
        let lit = literal_of(p);
        assert(lit == seq![p[0]] + literal_of(p.skip(1)));
        assert(lit[0] == p[0]);
        assert(lit.skip(1) =~= literal_of(p.skip(1)));
        assert(escaped(lit) == seq![p[0]] + escaped(literal_of(p.skip(1))));
        assert(escaped(lit) =~= p);
    }
}

/// The escaped form of any character sequence scans as a plain pattern whose
/// literal prefix is that sequence again.
pub proof fn lemma_escaped_literal(x: Seq<char>)
    ensures
        literal_of(escaped(x)) == x,
        !is_regex_pattern(escaped(x)),
    decreases x.len(),
{
    let e = escaped(x);
    if x.len() == 0 {
        assert(literal_of(e) =~= x);
    } else if is_special(x[0]) {
        lemma_escaped_literal(x.skip(1));
        assert(e == seq!['\\', x[0]] + escaped(x.skip(1)));
        assert(e[0] == '\\');
        assert(e.len() >= 2 && e[1] == x[0]);
        assert(e.skip(2) =~= escaped(x.skip(1)));
        assert(literal_of(e) == seq![x[0]] + literal_of(escaped(x.skip(1))));
        assert(literal_of(e) =~= x);
    } else {
        lemma_escaped_literal(x.skip(1));
        assert(e == seq![x[0]] + escaped(x.skip(1)));
        assert(e[0] == x[0]);
        assert(e.skip(1) =~= escaped(x.skip(1)));
        if x[0] == '\\' && e.len() >= 2 && is_special(e[1]) {
            // A backslash in the literal is followed in the escaped form by
            // the escaped tail, which never starts with a bare meta-character.
            let t = x.skip(1);
            assert(t.len() > 0);
            assert(e[1] == escaped(t)[0]);
            if is_special(t[0]) {
                assert(escaped(t)[0] == '\\');
            }
            assert(false);
        }
        assert(literal_of(e) == seq![x[0]] + literal_of(escaped(x.skip(1))));
        assert(literal_of(e) =~= x);
    }
}

/// Escaping one more character appends its escaped form.
pub proof fn lemma_escaped_snoc(s: Seq<char>, c: char)
    ensures
        escaped(s.push(c)) == escaped(s) + (if is_special(c) {
            seq!['\\', c]
        } else {
            seq![c]
        }),
    decreases s.len(),
{
    if s.len() == 0 {
        assert(s.push(c)[0] == c);
        assert(s.push(c).skip(1) =~= Seq::<char>::empty());
        assert(escaped(Seq::<char>::empty()) == Seq::<char>::empty());
        if is_special(c) {
            assert(escaped(s.push(c)) == seq!['\\', c] + escaped(s.push(c).skip(1)));
            assert(escaped(s.push(c)) =~= escaped(s) + seq!['\\', c]);
        } else {
            assert(escaped(s.push(c)) == seq![c] + escaped(s.push(c).skip(1)));
            assert(escaped(s.push(c)) =~= escaped(s) + seq![c]);
        }
    } else {
        assert(s.push(c)[0] == s[0]);
        assert(s.push(c).skip(1) =~= s.skip(1).push(c));
        lemma_escaped_snoc(s.skip(1), c);
        let x = if is_special(c) {
            seq!['\\', c]
        } else {
            seq![c]
        };
        assert(escaped(s.skip(1).push(c)) == escaped(s.skip(1)) + x);
        if is_special(s[0]) {
            assert(escaped(s.push(c)) == seq!['\\', s[0]] + escaped(s.skip(1).push(c)));
            assert(escaped(s) == seq!['\\', s[0]] + escaped(s.skip(1)));
            assert(seq!['\\', s[0]] + (escaped(s.skip(1)) + x) =~= (seq!['\\', s[0]] + escaped(
                s.skip(1),
            )) + x);
            assert(escaped(s.push(c)) == escaped(s) + x);
        } else {
            assert(escaped(s.push(c)) == seq![s[0]] + escaped(s.skip(1).push(c)));
            assert(escaped(s) == seq![s[0]] + escaped(s.skip(1)));
            assert(seq![s[0]] + (escaped(s.skip(1)) + x) =~= (seq![s[0]] + escaped(s.skip(1)))
                + x);
            assert(escaped(s.push(c)) == escaped(s) + x);
        }
    }
}

/// Meta-character test, usable from executable code.
pub fn is_special_char(c: char) -> (r: bool)
    ensures
        r == is_special(c),
{
    c == '.' || c == '?' || c == '*' || c == '+' || c == '(' || c == ')' || c == '[' || c == ']'
        || c == '{' || c == '}'
}

/// The characters of a string, as a vector.
pub fn chars_of(s: &str) -> (r: Vec<char>)
    ensures
        r@ == s@,
{
    let n = s.unicode_len();
    let mut r: Vec<char> = Vec::new();
    let mut i: usize = 0;
    while i < n
        invariant
            i <= n,
            n == s@.len(),
            r@ == s@.take(i as int),
        decreases n - i,
    {
        let c = s.get_char(i);
        r.push(c);
        proof {
            assert(r@ =~= s@.take(i + 1 as int));
        }
        i = i + 1;
    }
    proof {
        assert(r@ =~= s@);
    }
    r
}

/// Splits a pattern's characters into its literal prefix and the
/// determination whether the pattern carries regex semantics.
pub fn scan_pattern(chars: &Vec<char>) -> (res: (Vec<char>, bool))
    ensures
        res.0@ == literal_of(chars@),
        res.1 == is_regex_pattern(chars@),
{
    let n = chars.len();
    let mut lit: Vec<char> = Vec::new();
    let mut i: usize = 0;
    proof {
        assert(chars@.skip(0) =~= chars@);
        assert(lit@ + literal_of(chars@) =~= literal_of(chars@));
    }
    while i < n
        invariant
            i <= n,
            n == chars@.len(),
            literal_of(chars@) == lit@ + literal_of(chars@.skip(i as int)),
            is_regex_pattern(chars@) == is_regex_pattern(chars@.skip(i as int)),
        decreases n - i,
    {
        let c = chars[i];
        let ghost rest = chars@.skip(i as int);
        proof {
            assert(rest[0] == chars@[i as int]);
        }
        if c == '\\' && i + 1 < n && is_special_char(chars[i + 1]) {
            proof {
                assert(rest.len() >= 2 && rest[1] == chars@[i + 1]);
                assert(rest.skip(2) =~= chars@.skip(i + 2));
                assert(literal_of(rest) == seq![rest[1]] + literal_of(rest.skip(2)));
            }
            lit.push(chars[i + 1]);
            proof {
                assert(lit@ + literal_of(chars@.skip(i + 2)) =~= lit@.drop_last() + literal_of(
                    rest,
                ));
            }
            i = i + 2;
        } else if is_special_char(c) {
            proof {
                assert(is_regex_pattern(rest));
                assert(literal_of(rest) =~= Seq::<char>::empty());
                assert(lit@ =~= lit@ + literal_of(rest));
            }
            return (lit, true);
        } else {
            proof {
                assert(rest.skip(1) =~= chars@.skip(i + 1));
                assert(literal_of(rest) == seq![rest[0]] + literal_of(rest.skip(1)));
            }
            lit.push(c);
            proof {
                assert(lit@ + literal_of(chars@.skip(i + 1)) =~= lit@.drop_last() + literal_of(
                    rest,
                ));
            }
            i = i + 1;
        }
    }
    proof {
        assert(chars@.skip(i as int) =~= Seq::<char>::empty());
        assert(literal_of(chars@) =~= lit@);
    }
    (lit, false)
}

} // verus!
