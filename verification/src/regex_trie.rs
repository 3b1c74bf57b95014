//! The regex trie: a compiled-pattern table indexed by a literal-prefix trie.

use vstd::prelude::*;

use crate::dfa::byte_len;
use crate::dfa::matches_exactly;
use crate::dfa::regex_compiles;
use crate::dfa::regex_find;
use crate::dfa::regex_new;
use crate::dfa::regex_pattern;
use crate::dfa::push_char;
use crate::error::RegexTrieError;
use crate::pattern::chars_of;
use crate::pattern::escaped;
use crate::pattern::is_regex_pattern;
use crate::pattern::literal_of;
use crate::pattern::scan_pattern;
use crate::scorer::shift_opt;
use crate::scorer::DefaultScorer;
use crate::scorer::Scorer;
use crate::trie::indices_at;
use crate::trie::lemma_descend_in_bounds;
use crate::trie::lemma_descend_same_children;
use crate::trie::lemma_node_of_injective;
use crate::trie::node_of;
use crate::trie::nodes_children;
use crate::trie::plain_at;
use crate::trie::trie_wf;
use crate::trie::Trie;

verus! {

/// One entry of the compiled-pattern table: the original pattern text, its
/// compiled automaton, and the score the trie's policy gave it at insertion.
pub struct CompiledPattern {
    pub text: String,
    pub automaton: regex_automata::dfa::regex::Regex,
    pub score: usize,
}

/// The trie of literal prefixes together with the compiled-pattern table and
/// the scoring policy. Built by insertions, then queried.
pub struct RegexTrie<S: Scorer> {
    pub trie: Trie,
    pub compiled_patterns: Vec<CompiledPattern>,
    pub scorer: S,
}

impl<S: Scorer> RegexTrie<S> {
    /// The texts of the regex patterns held by the table, in insertion order.
    pub open spec fn entry_texts(self) -> Seq<Seq<char>> {
        self.compiled_patterns@.map_values(|e: CompiledPattern| e.text@)
    }

    /// Whether a plain pattern whose literal prefix is `q` has been inserted.
    pub open spec fn plain_hit(self, q: Seq<char>) -> bool {
        plain_at(self.trie.nodes@, q)
    }

    /// One table entry is sound: its text carries regex semantics, compiles,
    /// its automaton was compiled from that text, and its score is the one
    /// the policy assigns.
    pub open spec fn entry_ok(self, i: int) -> bool {
        let e = self.compiled_patterns@[i];
        &&& is_regex_pattern(e.text@)
        &&& regex_compiles(e.text@)
        &&& regex_pattern(e.automaton) == e.text@
        &&& e.score == self.scorer.score_spec(e.text@, true)
    }

    /// Well-formedness: the trie keeps its shape, every table entry is sound,
    /// an index stored at a node names an entry whose literal prefix is
    /// exactly the path to that node, and every entry is stored at the node
    /// of its literal prefix.
    pub open spec fn wf(self) -> bool {
        &&& trie_wf(self.trie.nodes@)
        &&& (forall|i: int|
            0 <= i < self.compiled_patterns@.len() ==> #[trigger] self.entry_ok(i))
        &&& (forall|q: Seq<char>, k: int|
            0 <= k < indices_at(self.trie.nodes@, q).len() ==> {
                let idx = (#[trigger] indices_at(self.trie.nodes@, q)[k]) as int;
                &&& idx < self.compiled_patterns@.len()
                &&& literal_of(self.compiled_patterns@[idx].text@) == q
            })
        &&& (forall|i: int|
            0 <= i < self.compiled_patterns@.len() ==> indices_at(
                self.trie.nodes@,
                literal_of((#[trigger] self.compiled_patterns@[i]).text@),
            ).contains(i as usize))
    }

    /// Whether the table holds an entry with text `t` that fully matches the
    /// input and whose literal prefix lets the trie walk reach it.
    pub open spec fn regex_match(self, input: Seq<char>, t: Seq<char>) -> bool {
        exists|i: int|
            0 <= i < self.compiled_patterns@.len() && (#[trigger] self.compiled_patterns@[i]).text@
                == t && literal_of(t).is_prefix_of(input) && matches_exactly(t, input)
    }

    /// Whether `find_matches` reports pattern text `t` for this input: either
    /// the input is itself an inserted plain pattern (written in escaped
    /// form), or a stored regex pattern reachable through the input's prefix
    /// matches the whole input.
    pub open spec fn pattern_matches(self, input: Seq<char>, t: Seq<char>) -> bool {
        ||| (self.plain_hit(input) && t == escaped(input))
        ||| self.regex_match(input, t)
    }

    /// The priority of a reported match: the plain hit is scored as a plain
    /// string, every other match as a regex.
    pub open spec fn score_of(self, input: Seq<char>, t: Seq<char>) -> usize {
        if self.plain_hit(input) && t == escaped(input) {
            self.scorer.score_spec(t, false)
        } else {
            self.scorer.score_spec(t, true)
        }
    }

    /// Creates a new, empty trie with a custom scoring policy.
    pub fn new_with_custom_scorer(scorer: S) -> (t: RegexTrie<S>)
        ensures
            t.wf(),
            t.compiled_patterns@.len() == 0,
            t.entry_texts() == Seq::<Seq<char>>::empty(),
            forall|q: Seq<char>| !(#[trigger] t.plain_hit(q)),
            t.scorer == scorer,
    {
        let t = RegexTrie { trie: Trie::new(), compiled_patterns: Vec::new(), scorer };
        proof {
            assert(t.entry_texts() =~= Seq::<Seq<char>>::empty());
            assert forall|q: Seq<char>| !(#[trigger] t.plain_hit(q)) by {
                assert(node_of(t.trie.nodes@, q) == (if q.len() == 0 {
                    Some(0int)
                } else {
                    None::<int>
                }));
            }
            assert forall|q: Seq<char>, k: int|
                0 <= k < indices_at(t.trie.nodes@, q).len() implies {
                let idx = (#[trigger] indices_at(t.trie.nodes@, q)[k]) as int;
                &&& idx < t.compiled_patterns@.len()
                &&& literal_of(t.compiled_patterns@[idx].text@) == q
            } by {
                assert(node_of(t.trie.nodes@, q) == (if q.len() == 0 {
                    Some(0int)
                } else {
                    None::<int>
                }));
                assert(indices_at(t.trie.nodes@, q).len() == 0);
            }
        }
        t
    }

    /// Compiles one pattern and indexes it under its literal prefix. A plain
    /// pattern (no unescaped meta-character) is marked on the trie alone; a
    /// regex pattern is compiled first, and a compilation failure leaves the
    /// trie exactly as it was.
    pub fn insert(&mut self, pattern: &str) -> (r: Result<(), RegexTrieError>)
        requires
            old(self).wf(),
        ensures
            final(self).wf(),
            final(self).scorer == old(self).scorer,
            r is Err <==> (is_regex_pattern(pattern@) && !regex_compiles(pattern@)),
            r is Err ==> *final(self) == *old(self),
            (r is Ok && is_regex_pattern(pattern@)) ==> {
                &&& final(self).entry_texts() == old(self).entry_texts().push(pattern@)
                &&& forall|q: Seq<char>|
                    #[trigger] final(self).plain_hit(q) == old(self).plain_hit(q)
            },
            !is_regex_pattern(pattern@) ==> {
                &&& final(self).entry_texts() == old(self).entry_texts()
                &&& forall|q: Seq<char>|
                    #[trigger] final(self).plain_hit(q) == (old(self).plain_hit(q) || q
                        == literal_of(pattern@))
            },
    {
        let chars = chars_of(pattern);
        let (lit, is_rx) = scan_pattern(&chars);
        if is_rx {
            let automaton = match regex_new(pattern) {
                Ok(a) => a,
                Err(msg) => {
                    return Err(RegexTrieError::RegexCompilationFailed(msg));
                },
            };
            let ghost pre = *self;
            let n = self.trie.ensure_path(&lit);
            let ghost mid = *self;
            let score = self.scorer.score(pattern, true);
            let idx = self.compiled_patterns.len();
            self.compiled_patterns.push(
                CompiledPattern { text: pattern.to_owned(), automaton, score },
            );
            let grown = self.compiled_patterns.len();
            proof {
                assert(grown == idx + 1);
            }
            let ghost mid2 = *self;
            self.trie.nodes[n].pattern_indices.push(idx);
            proof {
                lemma_insert_regex(
                    pre,
                    mid,
                    mid2,
                    *self,
                    pattern@,
                    lit@,
                    n as int,
                    idx as int,
                );
            }
            Ok(())
        } else {
            let ghost pre = *self;
            let n = self.trie.ensure_path(&lit);
            let ghost mid = *self;
            self.trie.nodes[n].has_plain_prefix = true;
            proof {
                lemma_insert_plain(pre, mid, *self, pattern@, lit@, n as int);
            }
            Ok(())
        }
    }
}

/// Whether some string of the sequence reads as the character sequence `t`.
pub open spec fn texts_contain(r: Seq<String>, t: Seq<char>) -> bool {
    exists|k: int| 0 <= k < r.len() && (#[trigger] r[k])@ == t
}

proof fn lemma_texts_contain_push(r: Seq<String>, x: String)
    ensures
        forall|t: Seq<char>|
            #[trigger] texts_contain(r.push(x), t) == (texts_contain(r, t) || t == x@),
{
    assert forall|t: Seq<char>|
        #[trigger] texts_contain(r.push(x), t) == (texts_contain(r, t) || t == x@) by {
        if texts_contain(r.push(x), t) {
            let w = choose|k: int| 0 <= k < r.push(x).len() && (#[trigger] r.push(x)[k])@ == t;
            if w < r.len() {
                assert(r[w] == r.push(x)[w]);
            } else {
                assert(r.push(x)[w] == x);
            }
        }
        if texts_contain(r, t) {
            let w = choose|k: int| 0 <= k < r.len() && (#[trigger] r[k])@ == t;
            assert(r.push(x)[w] == r[w]);
        }
        if t == x@ {
            assert(r.push(x)[r.len() as int] == x);
        }
    }
}

/// Appends every element of `src` to `dst`, in order.
fn append_indices(dst: &mut Vec<usize>, src: &Vec<usize>)
    ensures
        final(dst)@ == old(dst)@ + src@,
{
    let m = src.len();
    let mut k: usize = 0;
    proof {
        assert(old(dst)@ + src@.take(0) =~= old(dst)@);
    }
    while k < m
        invariant
            k <= m,
            m == src@.len(),
            dst@ == old(dst)@ + src@.take(k as int),
        decreases m - k,
    {
        dst.push(src[k]);
        proof {
            assert(dst@ =~= old(dst)@ + src@.take(k + 1));
        }
        k = k + 1;
    }
    proof {
        assert(src@.take(m as int) =~= src@);
    }
}

proof fn lemma_contains_in_extension(a: Seq<usize>, b: Seq<usize>)
    requires
        a.len() <= b.len(),
        forall|t: int| 0 <= t < a.len() ==> a[t] == b[t],
    ensures
        forall|x: usize| a.contains(x) ==> b.contains(x),
{
    assert forall|x: usize| a.contains(x) implies b.contains(x) by {
        let w = choose|w: int| 0 <= w < a.len() && a[w] == x;
        assert(b[w] == x);
    }
}

impl<S: Scorer> RegexTrie<S> {
    /// Whether one of the first `upto` collected candidates names an entry
    /// with text `t` that matches the whole input.
    spec fn hit_among(self, cand: Seq<usize>, upto: int, input: Seq<char>, t: Seq<char>) -> bool {
        exists|kk: int|
            0 <= kk < upto && kk < cand.len() && {
                let i = (#[trigger] cand[kk]) as int;
                &&& i < self.compiled_patterns@.len()
                &&& self.compiled_patterns@[i].text@ == t
                &&& matches_exactly(t, input)
            }
    }

    /// Candidate soundness: every collected index names an entry whose
    /// literal prefix is a prefix of the input.
    spec fn cand_sound(self, cand: Seq<usize>, input: Seq<char>) -> bool {
        forall|k: int|
            0 <= k < cand.len() ==> {
                let i = (#[trigger] cand[k]) as int;
                &&& i < self.compiled_patterns@.len()
                &&& literal_of(self.compiled_patterns@[i].text@).is_prefix_of(input)
            }
    }

    /// Candidate completeness: every entry whose literal prefix is a prefix
    /// of the input was collected.
    spec fn cand_complete(self, cand: Seq<usize>, input: Seq<char>) -> bool {
        forall|i: int|
            0 <= i < self.compiled_patterns@.len() && literal_of(
                (#[trigger] self.compiled_patterns@[i]).text@,
            ).is_prefix_of(input) ==> cand.contains(i as usize)
    }

    /// Walks the trie along the input and gathers every candidate index, the
    /// plain-hit determination, and the escaped written form of the path.
    fn collect(&self, input: &str) -> (r: (Vec<usize>, bool, String))
        requires
            self.wf(),
        ensures
            self.cand_sound(r.0@, input@),
            self.cand_complete(r.0@, input@),
            r.1 == self.plain_hit(input@),
            r.1 ==> r.2@ == escaped(input@),
    {
        let chars = chars_of(input);
        let n = chars.len();
        let mut cand: Vec<usize> = Vec::new();
        let mut esc = String::new();
        let mut cur: usize = 0;
        let mut d: usize = 0;
        proof {
            assert(input@.take(0).len() == 0);
            assert(node_of(self.trie.nodes@, input@.take(0)) == Some(0int));
        }
        append_indices(&mut cand, &self.trie.nodes[0].pattern_indices);
        proof {
            assert(cand@ =~= indices_at(self.trie.nodes@, input@.take(0)));
            assert forall|k: int| 0 <= k < cand@.len() implies {
                let i = (#[trigger] cand@[k]) as int;
                &&& i < self.compiled_patterns@.len()
                &&& literal_of(self.compiled_patterns@[i].text@).is_prefix_of(input@)
            } by {
                let q = input@.take(0);
                assert(indices_at(self.trie.nodes@, q)[k] == cand@[k]);
                let i = cand@[k] as int;
                assert(literal_of(self.compiled_patterns@[i].text@) == q);
                assert(q =~= input@.subrange(0, q.len() as int));
            }
            assert forall|i: int|
                0 <= i < self.compiled_patterns@.len() && literal_of(
                    (#[trigger] self.compiled_patterns@[i]).text@,
                ).is_prefix_of(input@.take(0)) implies cand@.contains(i as usize) by {
                let l = literal_of(self.compiled_patterns@[i].text@);
                assert(l.len() == 0);
                assert(l =~= input@.take(0));
                assert(indices_at(self.trie.nodes@, l).contains(i as usize));
            }
            assert(esc@ =~= escaped(input@.take(0)));
        }
        while d < n
            invariant
                d <= n,
                n == chars@.len(),
                chars@ == input@,
                self.wf(),
                cur < self.trie.nodes@.len(),
                node_of(self.trie.nodes@, input@.take(d as int)) == Some(cur as int),
                self.cand_sound(cand@, input@),
                self.cand_complete(cand@, input@.take(d as int)),
                esc@ == escaped(input@.take(d as int)),
            decreases n - d,
        {
            let c = chars[d];
            let ghost qd = input@.take(d as int);
            match self.trie.child_get(cur, c) {
                Some(j) => {
                    proof {
                        assert(qd.push(c) =~= qd + seq![c]);
                        crate::trie::lemma_descend_compose(self.trie.nodes@, 0, qd, seq![c]);
                        assert(seq![c][0] == c);
                        assert(seq![c].skip(1) =~= Seq::<char>::empty());
                        assert(crate::trie::node_ok(self.trie.nodes@, cur as int));
                        let cs = self.trie.nodes@[cur as int].children@;
                        crate::trie::lemma_find_child_some(cs, c);
                        let kk = choose|k: int|
                            0 <= k < cs.len() && (#[trigger] cs[k]).0 == c && cs[k].1 as int
                                == crate::trie::find_child(cs, c).unwrap();
                        assert(cs[kk].1 < self.trie.nodes@.len());
                        assert(self.trie.nodes@[cs[kk].1 as int].is_escaped
                            == crate::pattern::is_special(c));
                        assert(crate::trie::descend(self.trie.nodes@, cur as int, seq![c]) == Some(
                            j as int,
                        )) by {
                            assert(crate::trie::find_child(cs, c) == Some(j as int));
                            assert(crate::trie::descend(
                                self.trie.nodes@,
                                j as int,
                                seq![c].skip(1),
                            ) == Some(j as int));
                        }
                        assert(node_of(self.trie.nodes@, qd.push(c)) == Some(j as int));
                        assert(input@.take(d + 1) =~= qd.push(c));
                    }
                    if self.trie.nodes[j].is_escaped {
                        push_char(&mut esc, '\\');
                    }
                    push_char(&mut esc, c);
                    proof {
                        crate::pattern::lemma_escaped_snoc(qd, c);
                        assert(esc@ == escaped(input@.take(d + 1)));
                    }
                    let ghost before = cand@;
                    append_indices(&mut cand, &self.trie.nodes[j].pattern_indices);
                    proof {
                        let q1 = input@.take(d + 1);
                        assert(indices_at(self.trie.nodes@, q1) == self.trie.nodes@[j
                            as int].pattern_indices@);
                        assert(cand@ == before + indices_at(self.trie.nodes@, q1));
                        assert forall|k: int| 0 <= k < cand@.len() implies {
                            let i = (#[trigger] cand@[k]) as int;
                            &&& i < self.compiled_patterns@.len()
                            &&& literal_of(self.compiled_patterns@[i].text@).is_prefix_of(input@)
                        } by {
                            if k < before.len() {
                                assert(before[k] == cand@[k]);
                            } else {
                                let kk2 = k - before.len();
                                assert(indices_at(self.trie.nodes@, q1)[kk2] == cand@[k]);
                                let i = cand@[k] as int;
                                assert(literal_of(self.compiled_patterns@[i].text@) == q1);
                                assert(q1 =~= input@.subrange(0, q1.len() as int));
                            }
                        }
                        lemma_contains_in_extension(before, cand@);
                        assert forall|i: int|
                            0 <= i < self.compiled_patterns@.len() && literal_of(
                                (#[trigger] self.compiled_patterns@[i]).text@,
                            ).is_prefix_of(q1) implies cand@.contains(i as usize) by {
                            let l = literal_of(self.compiled_patterns@[i].text@);
                            if l.len() <= d {
                                assert(l =~= qd.subrange(0, l.len() as int));
                                assert(l.is_prefix_of(qd));
                                assert(before.contains(i as usize));
                            } else {
                                assert(l.len() == d + 1);
                                assert(l =~= q1);
                                assert(indices_at(self.trie.nodes@, l).contains(i as usize));
                                let w = choose|w: int|
                                    0 <= w < indices_at(self.trie.nodes@, q1).len() && indices_at(
                                        self.trie.nodes@,
                                        q1,
                                    )[w] == i as usize;
                                assert(cand@[before.len() + w] == i as usize);
                            }
                        }
                    }
                    cur = j;
                },
                None => {
                    proof {
                        let nodes = self.trie.nodes@;
                        // No deeper literal prefix can exist, and the input
                        // itself reaches no node.
                        assert forall|i: int|
                            0 <= i < self.compiled_patterns@.len() && literal_of(
                                (#[trigger] self.compiled_patterns@[i]).text@,
                            ).is_prefix_of(input@) implies cand@.contains(i as usize) by {
                            let l = literal_of(self.compiled_patterns@[i].text@);
                            if l.len() <= d {
                                assert(l =~= qd.subrange(0, l.len() as int));
                                assert(l.is_prefix_of(qd));
                            } else {
                                assert(indices_at(nodes, l).contains(i as usize));
                                assert(node_of(nodes, l) is Some);
                                assert(l =~= qd + l.skip(d as int));
                                crate::trie::lemma_descend_compose(nodes, 0, qd, l.skip(d as int));
                                let mid = l.skip(d as int);
                                assert(mid.len() > 0);
                                assert(mid[0] == l[d as int]);
                                assert(l[d as int] == input@[d as int]);
                                assert(crate::trie::find_child(
                                    nodes[cur as int].children@,
                                    input@[d as int],
                                ) is Some);
                                assert(false);
                            }
                        }
                        if node_of(nodes, input@) is Some {
                            assert(input@ =~= qd + input@.skip(d as int));
                            crate::trie::lemma_descend_compose(nodes, 0, qd, input@.skip(d as int));
                            let mid = input@.skip(d as int);
                            assert(mid.len() > 0);
                            assert(mid[0] == input@[d as int]);
                            assert(false);
                        }
                        assert(!self.plain_hit(input@));
                    }
                    return (cand, false, esc);
                },
            }
            d = d + 1;
        }
        proof {
            assert(input@.take(n as int) =~= input@);
        }
        let plain = self.trie.nodes[cur].has_plain_prefix;
        (cand, plain, esc)
    }

    /// Every inserted pattern that matches the entire input: the plain hit,
    /// if the input is itself an inserted plain pattern, and every reachable
    /// regex pattern whose automaton spans the whole input. Order is
    /// unspecified.
    pub fn find_matches(&self, input: &str) -> (r: Vec<String>)
        requires
            self.wf(),
        ensures
            forall|t: Seq<char>|
                #[trigger] texts_contain(r@, t) == self.pattern_matches(input@, t),
    {
        let (cand, plain, esc) = self.collect(input);
        let mut out: Vec<String> = Vec::new();
        if plain {
            proof {
                lemma_texts_contain_push(out@, esc);
            }
            out.push(esc);
        }
        let m = cand.len();
        let mut k: usize = 0;
        while k < m
            invariant
                k <= m,
                m == cand@.len(),
                self.wf(),
                self.cand_sound(cand@, input@),
                self.cand_complete(cand@, input@),
                plain == self.plain_hit(input@),
                forall|t: Seq<char>|
                    #[trigger] texts_contain(out@, t) == ((plain && t == escaped(input@))
                        || self.hit_among(cand@, k as int, input@, t)),
            decreases m - k,
        {
            let i = cand[k];
            proof {
                assert(cand@[k as int] == i);
                assert(self.entry_ok(i as int));
            }
            let found = regex_find(&self.compiled_patterns[i].automaton, input);
            let ghost t = self.compiled_patterns@[i as int].text@;
            let hit = match found {
                Some(span) => span.0 == 0 && span.1 == byte_len(input),
                None => false,
            };
            proof {
                assert(found == crate::dfa::regex_find_spec(t, input@));
                assert(hit == matches_exactly(t, input@));
            }
            if hit {
                proof {
                    lemma_texts_contain_push(out@, self.compiled_patterns@[i as int].text);
                }
                out.push(self.compiled_patterns[i].text.clone());
                proof {
                    assert forall|u: Seq<char>|
                        #[trigger] texts_contain(out@, u) == ((plain && u == escaped(input@))
                            || self.hit_among(cand@, k + 1, input@, u)) by {
                        if texts_contain(out@, u) && !(plain && u == escaped(input@))
                            && !self.hit_among(cand@, k as int, input@, u) {
                            assert(u == t);
                            assert(cand@[k as int] == i);
                            assert(self.hit_among(cand@, k + 1, input@, u));
                        }
                        if self.hit_among(cand@, k + 1, input@, u) && !self.hit_among(
                            cand@,
                            k as int,
                            input@,
                            u,
                        ) {
                            let kk = choose|kk: int|
                                0 <= kk < k + 1 && kk < cand@.len() && {
                                    let x = (#[trigger] cand@[kk]) as int;
                                    &&& x < self.compiled_patterns@.len()
                                    &&& self.compiled_patterns@[x].text@ == u
                                    &&& matches_exactly(u, input@)
                                };
                            assert(kk == k);
                            assert(u == t);
                        }
                    }
                }
            } else {
                proof {
                    assert forall|u: Seq<char>|
                        #[trigger] texts_contain(out@, u) == ((plain && u == escaped(input@))
                            || self.hit_among(cand@, k + 1, input@, u)) by {
                        if self.hit_among(cand@, k + 1, input@, u) && !self.hit_among(
                            cand@,
                            k as int,
                            input@,
                            u,
                        ) {
                            let kk = choose|kk: int|
                                0 <= kk < k + 1 && kk < cand@.len() && {
                                    let x = (#[trigger] cand@[kk]) as int;
                                    &&& x < self.compiled_patterns@.len()
                                    &&& self.compiled_patterns@[x].text@ == u
                                    &&& matches_exactly(u, input@)
                                };
                            assert(kk == k);
                            assert(u == t);
                            assert(false);
                        }
                    }
                }
            }
            k = k + 1;
        }
        let plen = self.compiled_patterns.len();
        proof {
            assert(plen == self.compiled_patterns@.len());
            assert forall|t: Seq<char>|
                #[trigger] texts_contain(out@, t) == self.pattern_matches(input@, t) by {
                if texts_contain(out@, t) {
                    if plain && t == escaped(input@) {
                        assert(self.pattern_matches(input@, t));
                    } else {
                        assert(self.hit_among(cand@, m as int, input@, t));
                        let kk = choose|kk: int|
                            0 <= kk < m && kk < cand@.len() && {
                                let x = (#[trigger] cand@[kk]) as int;
                                &&& x < self.compiled_patterns@.len()
                                &&& self.compiled_patterns@[x].text@ == t
                                &&& matches_exactly(t, input@)
                            };
                        let x = cand@[kk] as int;
                        assert(literal_of(self.compiled_patterns@[x].text@).is_prefix_of(input@));
                        assert(self.regex_match(input@, t));
                    }
                }
                if self.pattern_matches(input@, t) && !texts_contain(out@, t) {
                    assert(!(plain && t == escaped(input@)));
                    assert(self.regex_match(input@, t));
                    let i = choose|i: int|
                        0 <= i < self.compiled_patterns@.len() && (
                        #[trigger] self.compiled_patterns@[i]).text@ == t && literal_of(
                            t,
                        ).is_prefix_of(input@) && matches_exactly(t, input@);
                    assert(i < plen);
                    assert(cand@.contains(i as usize));
                    let kk = choose|kk: int| 0 <= kk < cand@.len() && cand@[kk] == i as usize;
                    assert((cand@[kk]) as int == i);
                    assert(0 <= kk < m as int);
                    assert(self.hit_among(cand@, m as int, input@, t));
                    assert(false);
                }
            }
        }
        out
    }
}
impl<S: Scorer> RegexTrie<S> {
    /// The text of the entry a collected candidate names.
    spec fn cand_text(self, cand: Seq<usize>, kk: int) -> Seq<char> {
        self.compiled_patterns@[cand[kk] as int].text@
    }

    /// The stored score of the entry a collected candidate names.
    spec fn cand_score(self, cand: Seq<usize>, kk: int) -> usize {
        self.compiled_patterns@[cand[kk] as int].score
    }

    /// Whether the entry a collected candidate names matches the whole input.
    spec fn cand_matches(self, cand: Seq<usize>, kk: int, input: Seq<char>) -> bool {
        matches_exactly(self.cand_text(cand, kk), input)
    }

    /// The single best full-string match under the trie's scoring policy:
    /// a reported pattern of minimal score, or none when nothing matches.
    /// The plain hit is seeded first and a regex match replaces the running
    /// best only when its score is strictly lower, so a plain hit of minimal
    /// score always wins. Between regex matches of equal minimal score the
    /// choice is left open, as the candidate set carries no meaningful order.
    pub fn find_best_match(&self, input: &str) -> (r: Option<String>)
        requires
            self.wf(),
        ensures
            match r {
                None => forall|t: Seq<char>| !self.pattern_matches(input@, t),
                Some(s) => {
                    &&& self.pattern_matches(input@, s@)
                    &&& (forall|t: Seq<char>|
                        self.pattern_matches(input@, t) ==> self.score_of(input@, s@)
                            <= self.score_of(input@, t))
                    &&& ((self.plain_hit(input@) && (forall|t: Seq<char>|
                        self.pattern_matches(input@, t) ==> self.score_of(
                            input@,
                            escaped(input@),
                        ) <= self.score_of(input@, t))) ==> s@ == escaped(input@))
                },
            },
    {
        let (cand, plain, esc) = self.collect(input);
        let mut best: Option<(String, usize)> = None;
        if plain {
            let sc = self.scorer.score(esc.as_str(), false);
            proof {
                assert(esc@ == escaped(input@));
            }
            best = Some((esc, sc));
        }
        let m = cand.len();
        let mut k: usize = 0;
        while k < m
            invariant
                k <= m,
                m == cand@.len(),
                self.wf(),
                self.cand_sound(cand@, input@),
                self.cand_complete(cand@, input@),
                plain == self.plain_hit(input@),
                match best {
                    None => !plain && (forall|kk: int|
                        0 <= kk < k ==> !(#[trigger] self.cand_matches(cand@, kk, input@))),
                    Some(p) => {
                        &&& self.pattern_matches(input@, p.0@)
                        &&& p.1 == self.score_of(input@, p.0@)
                        &&& (forall|kk: int|
                            0 <= kk < k && #[trigger] self.cand_matches(cand@, kk, input@)
                                ==> p.1 <= self.cand_score(cand@, kk))
                        &&& (plain ==> p.1 <= self.scorer.score_spec(escaped(input@), false))
                        &&& ((plain && (forall|kk: int|
                            0 <= kk < k && #[trigger] self.cand_matches(cand@, kk, input@)
                                ==> self.scorer.score_spec(escaped(input@), false)
                                <= self.cand_score(cand@, kk))) ==> p.0@ == escaped(input@))
                    },
                },
            decreases m - k,
        {
            let i = cand[k];
            proof {
                assert(cand@[k as int] == i);
                assert(self.entry_ok(i as int));
            }
            let found = regex_find(&self.compiled_patterns[i].automaton, input);
            let ghost t = self.compiled_patterns@[i as int].text@;
            let hit = match found {
                Some(span) => span.0 == 0 && span.1 == byte_len(input),
                None => false,
            };
            proof {
                assert(found == crate::dfa::regex_find_spec(t, input@));
                assert(hit == matches_exactly(t, input@));
                assert(self.cand_matches(cand@, k as int, input@) == hit);
            }
            if hit {
                proof {
                    // A regex text is never the escaped plain form, so its
                    // reported score is its stored regex score.
                    crate::pattern::lemma_escaped_literal(input@);
                    assert(is_regex_pattern(t));
                    assert(t != escaped(input@) || !self.plain_hit(input@));
                    assert(self.score_of(input@, t) == self.compiled_patterns@[i as int].score);
                    assert(self.pattern_matches(input@, t)) by {
                        assert(literal_of(t).is_prefix_of(input@));
                    }
                }
                let e_score = self.compiled_patterns[i].score;
                let replace = match &best {
                    Some(p) => e_score < p.1,
                    None => true,
                };
                if replace {
                    best = Some((self.compiled_patterns[i].text.clone(), e_score));
                }
                proof {
                    assert(self.cand_score(cand@, k as int) == e_score);
                }
            }
            k = k + 1;
        }
        let plen = self.compiled_patterns.len();
        proof {
            assert(plen == self.compiled_patterns@.len());
            let b = best;
            match b {
                None => {
                    assert forall|t: Seq<char>| !self.pattern_matches(input@, t) by {
                        if self.regex_match(input@, t) {
                            let i = choose|i: int|
                                0 <= i < self.compiled_patterns@.len() && (
                                #[trigger] self.compiled_patterns@[i]).text@ == t && literal_of(
                                    t,
                                ).is_prefix_of(input@) && matches_exactly(t, input@);
                            assert(i < plen);
                            assert(cand@.contains(i as usize));
                            let kk = choose|kk: int|
                                0 <= kk < cand@.len() && cand@[kk] == i as usize;
                            assert(self.cand_matches(cand@, kk, input@));
                            assert(false);
                        }
                    }
                },
                Some(p) => {
                    assert forall|t: Seq<char>|
                        self.pattern_matches(input@, t) implies self.score_of(input@, p.0@)
                        <= self.score_of(input@, t) by {
                        if self.plain_hit(input@) && t == escaped(input@) {
                            assert(p.1 <= self.scorer.score_spec(escaped(input@), false));
                        } else {
                            assert(self.regex_match(input@, t));
                            let i = choose|i: int|
                                0 <= i < self.compiled_patterns@.len() && (
                                #[trigger] self.compiled_patterns@[i]).text@ == t && literal_of(
                                    t,
                                ).is_prefix_of(input@) && matches_exactly(t, input@);
                            assert(i < plen);
                            assert(self.entry_ok(i));
                            assert(cand@.contains(i as usize));
                            let kk = choose|kk: int|
                                0 <= kk < cand@.len() && cand@[kk] == i as usize;
                            assert(self.cand_matches(cand@, kk, input@));
                            assert(p.1 <= self.cand_score(cand@, kk));
                            assert(self.cand_score(cand@, kk) == self.scorer.score_spec(t, true));
                            assert(self.score_of(input@, t) == self.scorer.score_spec(t, true));
                        }
                    }
                    if self.plain_hit(input@) && (forall|t: Seq<char>|
                        self.pattern_matches(input@, t) ==> self.score_of(input@, escaped(input@))
                            <= self.score_of(input@, t)) {
                        assert forall|kk: int|
                            0 <= kk < m && #[trigger] self.cand_matches(cand@, kk, input@)
                            implies self.scorer.score_spec(escaped(input@), false)
                            <= self.cand_score(cand@, kk) by {
                            let u = self.cand_text(cand@, kk);
                            let i = cand@[kk] as int;
                            assert(i < self.compiled_patterns@.len());
                            assert(self.entry_ok(i));
                            assert(literal_of(u).is_prefix_of(input@));
                            assert(self.regex_match(input@, u));
                            assert(self.pattern_matches(input@, u));
                            assert(self.score_of(input@, escaped(input@)) <= self.score_of(
                                input@,
                                u,
                            ));
                            crate::pattern::lemma_escaped_literal(input@);
                            assert(u != escaped(input@));
                            assert(self.score_of(input@, u) == self.scorer.score_spec(u, true));
                            assert(self.score_of(input@, escaped(input@)) == self.scorer.score_spec(
                                escaped(input@),
                                false,
                            ));
                        }
                        assert(p.0@ == escaped(input@));
                    }
                },
            }
        }
        match best {
            Some(p) => Some(p.0),
            None => None,
        }
    }
}

pub open spec fn views_of(ps: Seq<String>) -> Seq<Seq<char>> {
    ps.map_values(|s: String| s@)
}

/// The position of the first pattern that carries regex semantics but does
/// not compile, if any.
pub open spec fn first_failure(ps: Seq<Seq<char>>) -> Option<int>
    decreases ps.len(),
{
    if ps.len() == 0 {
        None
    } else if is_regex_pattern(ps[0]) && !regex_compiles(ps[0]) {
        Some(0int)
    } else {
        shift_opt(first_failure(ps.skip(1)), 1)
    }
}

/// The texts among `ps` that carry regex semantics, in order.
pub open spec fn regex_texts_of(ps: Seq<Seq<char>>) -> Seq<Seq<char>>
    decreases ps.len(),
{
    if ps.len() == 0 {
        Seq::empty()
    } else if is_regex_pattern(ps.last()) {
        regex_texts_of(ps.drop_last()).push(ps.last())
    } else {
        regex_texts_of(ps.drop_last())
    }
}

/// Whether some plain pattern among `ps` has literal prefix `q`.
pub open spec fn plain_in(ps: Seq<Seq<char>>, q: Seq<char>) -> bool {
    exists|j: int|
        0 <= j < ps.len() && !is_regex_pattern(#[trigger] ps[j]) && literal_of(ps[j]) == q
}

impl<S: Scorer> RegexTrie<S> {
    /// Creates a new trie with a custom scoring policy and inserts each
    /// pattern in order, stopping at the first compilation failure.
    pub fn from_with_scorer(patterns: &Vec<String>, scorer: S) -> (r: Result<
        RegexTrie<S>,
        RegexTrieError,
    >)
        ensures
            r is Err <==> first_failure(views_of(patterns@)) is Some,
            r matches Ok(t) ==> {
                &&& t.wf()
                &&& t.scorer == scorer
                &&& t.entry_texts() == regex_texts_of(views_of(patterns@))
                &&& forall|q: Seq<char>|
                    #[trigger] t.plain_hit(q) == plain_in(views_of(patterns@), q)
            },
    {
        let mut t = Self::new_with_custom_scorer(scorer);
        match t.insert_many(patterns) {
            Ok(()) => {
                proof {
                    let views = views_of(patterns@);
                    assert(views.take(views.len() as int) =~= views);
                    assert(Seq::<Seq<char>>::empty() + regex_texts_of(views) =~= regex_texts_of(
                        views,
                    ));
                }
                Ok(t)
            },
            Err(e) => Err(e),
        }
    }

    /// Inserts each pattern in order. The batch stops at the first pattern
    /// whose compilation fails and returns its error; the patterns inserted
    /// before it stay in place and remain queryable.
    pub fn insert_many(&mut self, patterns: &Vec<String>) -> (r: Result<(), RegexTrieError>)
        requires
            old(self).wf(),
        ensures
            final(self).wf(),
            final(self).scorer == old(self).scorer,
            r is Err <==> first_failure(views_of(patterns@)) is Some,
            ({
                let views = views_of(patterns@);
                let done = match first_failure(views) {
                    Some(f) => f,
                    None => views.len() as int,
                };
                &&& final(self).entry_texts() == old(self).entry_texts() + regex_texts_of(
                    views.take(done),
                )
                &&& forall|q: Seq<char>|
                    #[trigger] final(self).plain_hit(q) == (old(self).plain_hit(q) || plain_in(
                        views.take(done),
                        q,
                    ))
            }),
    {
        let ghost orig = *old(self);
        let ghost views = views_of(patterns@);
        let n = patterns.len();
        let mut i: usize = 0;
        proof {
            assert(views.skip(0) =~= views);
            assert(shift_opt(first_failure(views), 0) == first_failure(views));
            assert(views.take(0) =~= Seq::<Seq<char>>::empty());
            assert(orig.entry_texts() + regex_texts_of(views.take(0)) =~= orig.entry_texts());
        }
        while i < n
            invariant
                i <= n,
                n == patterns@.len(),
                views == views_of(patterns@),
                orig == *old(self),
                self.wf(),
                self.scorer == orig.scorer,
                first_failure(views) == shift_opt(first_failure(views.skip(i as int)), i as int),
                self.entry_texts() == orig.entry_texts() + regex_texts_of(views.take(i as int)),
                forall|q: Seq<char>|
                    #[trigger] self.plain_hit(q) == (orig.plain_hit(q) || plain_in(
                        views.take(i as int),
                        q,
                    )),
            decreases n - i,
        {
            let ghost pre = *self;
            let p = &patterns[i];
            let res = self.insert(p.as_str());
            let ghost pv = views[i as int];
            proof {
                assert(pv == patterns@[i as int]@);
                assert(views.skip(i as int)[0] == pv);
                assert(views.skip(i as int).skip(1) =~= views.skip(i + 1));
                assert(views.take(i + 1).drop_last() =~= views.take(i as int));
                assert(views.take(i + 1).last() == pv);
            }
            match res {
                Ok(()) => {
                    proof {
                        assert(!(is_regex_pattern(pv) && !regex_compiles(pv)));
                        assert(first_failure(views.skip(i as int)) == shift_opt(
                            first_failure(views.skip(i + 1)),
                            1,
                        ));
                        if is_regex_pattern(pv) {
                            assert(regex_texts_of(views.take(i + 1)) =~= regex_texts_of(
                                views.take(i as int),
                            ).push(pv));
                            assert(self.entry_texts() =~= orig.entry_texts() + regex_texts_of(
                                views.take(i + 1),
                            ));
                            assert forall|q: Seq<char>|
                                #[trigger] self.plain_hit(q) == (orig.plain_hit(q) || plain_in(
                                    views.take(i + 1),
                                    q,
                                )) by {
                                assert(self.plain_hit(q) == pre.plain_hit(q));
                                lemma_plain_in_step(views, i as int, q);
                            }
                        } else {
                            assert(regex_texts_of(views.take(i + 1)) =~= regex_texts_of(
                                views.take(i as int),
                            ));
                            assert(self.entry_texts() =~= orig.entry_texts() + regex_texts_of(
                                views.take(i + 1),
                            ));
                            assert forall|q: Seq<char>|
                                #[trigger] self.plain_hit(q) == (orig.plain_hit(q) || plain_in(
                                    views.take(i + 1),
                                    q,
                                )) by {
                                lemma_plain_in_step(views, i as int, q);
                                if q == literal_of(pv) {
                                    assert(views.take(i + 1)[i as int] == pv);
                                }
                            }
                        }
                    }
                },
                Err(e) => {
                    proof {
                        assert(is_regex_pattern(pv) && !regex_compiles(pv));
                        assert(first_failure(views.skip(i as int)) == Some(0int));
                        assert(first_failure(views) == Some(i as int));
                        assert(*self == pre);
                    }
                    return Err(e);
                },
            }
            i = i + 1;
        }
        proof {
            assert(views.skip(i as int).len() == 0);
            assert(first_failure(views.skip(i as int)) is None);
            assert(first_failure(views) is None);
        }
        Ok(())
    }
}

impl RegexTrie<DefaultScorer> {
    /// Creates a new, empty trie with the default scoring policy.
    pub fn new() -> (t: RegexTrie<DefaultScorer>)
        ensures
            t.wf(),
            t.entry_texts() == Seq::<Seq<char>>::empty(),
            forall|q: Seq<char>| !(#[trigger] t.plain_hit(q)),
            t.scorer == DefaultScorer,
    {
        Self::new_with_custom_scorer(DefaultScorer)
    }

    /// Creates a trie with the default scoring policy from a set of patterns,
    /// inserted in order; the first compilation failure aborts the batch.
    pub fn from(patterns: &Vec<String>) -> (r: Result<RegexTrie<DefaultScorer>, RegexTrieError>)
        ensures
            r is Err <==> first_failure(views_of(patterns@)) is Some,
            r matches Ok(t) ==> {
                &&& t.wf()
                &&& t.scorer == DefaultScorer
                &&& t.entry_texts() == regex_texts_of(views_of(patterns@))
                &&& forall|q: Seq<char>|
                    #[trigger] t.plain_hit(q) == plain_in(views_of(patterns@), q)
            },
    {
        Self::from_with_scorer(patterns, DefaultScorer)
    }
}

impl Default for RegexTrie<DefaultScorer> {
    /// An empty trie with the default scoring policy.
    fn default() -> (t: Self)
        ensures
            t.wf(),
            t.entry_texts() == Seq::<Seq<char>>::empty(),
            forall|q: Seq<char>| !(#[trigger] t.plain_hit(q)),
            t.scorer == DefaultScorer,
    {
        RegexTrie::<DefaultScorer>::new()
    }
}

/// Extending the processed prefix by one pattern extends the plain hits by
/// that pattern's literal prefix exactly when the pattern is plain.
proof fn lemma_plain_in_step(views: Seq<Seq<char>>, i: int, q: Seq<char>)
    requires
        0 <= i < views.len(),
    ensures
        plain_in(views.take(i + 1), q) == (plain_in(views.take(i), q) || (!is_regex_pattern(
            views[i],
        ) && literal_of(views[i]) == q)),
{
    let a = views.take(i);
    let b = views.take(i + 1);
    assert(b.drop_last() =~= a);
    if plain_in(b, q) {
        let j = choose|j: int|
            0 <= j < b.len() && !is_regex_pattern(#[trigger] b[j]) && literal_of(b[j]) == q;
        if j < i {
            assert(a[j] == b[j]);
            assert(plain_in(a, q));
        } else {
            assert(b[j] == views[i]);
        }
    }
    if plain_in(a, q) {
        let j = choose|j: int|
            0 <= j < a.len() && !is_regex_pattern(#[trigger] a[j]) && literal_of(a[j]) == q;
        assert(b[j] == a[j]);
        assert(plain_in(b, q));
    }
    if !is_regex_pattern(views[i]) && literal_of(views[i]) == q {
        assert(b[i] == views[i]);
        assert(plain_in(b, q));
    }
}

/// The marker step of a plain insertion: after the path exists, setting the
/// plain flag on its end node adds exactly one plain hit.
proof fn lemma_insert_plain<S: Scorer>(
    pre: RegexTrie<S>,
    mid: RegexTrie<S>,
    post: RegexTrie<S>,
    pattern: Seq<char>,
    lit: Seq<char>,
    n: int,
)
    requires
        pre.wf(),
        !is_regex_pattern(pattern),
        lit == literal_of(pattern),
        mid.compiled_patterns == pre.compiled_patterns,
        mid.scorer == pre.scorer,
        trie_wf(mid.trie.nodes@),
        node_of(mid.trie.nodes@, lit) == Some(n),
        0 <= n < mid.trie.nodes@.len(),
        forall|q: Seq<char>|
            #[trigger] plain_at(mid.trie.nodes@, q) == plain_at(pre.trie.nodes@, q),
        forall|q: Seq<char>|
            #[trigger] indices_at(mid.trie.nodes@, q) == indices_at(pre.trie.nodes@, q),
        // the marking step
        post.compiled_patterns == mid.compiled_patterns,
        post.scorer == mid.scorer,
        post.trie.nodes@.len() == mid.trie.nodes@.len(),
        forall|t: int|
            0 <= t < mid.trie.nodes@.len() && t != n ==> #[trigger] post.trie.nodes@[t]
                == mid.trie.nodes@[t],
        post.trie.nodes@[n].children == mid.trie.nodes@[n].children,
        post.trie.nodes@[n].pattern_indices == mid.trie.nodes@[n].pattern_indices,
        post.trie.nodes@[n].is_escaped == mid.trie.nodes@[n].is_escaped,
        post.trie.nodes@[n].has_plain_prefix,
    ensures
        post.wf(),
        post.entry_texts() == pre.entry_texts(),
        forall|q: Seq<char>|
            #[trigger] post.plain_hit(q) == (pre.plain_hit(q) || q == literal_of(pattern)),
{
    let mn = mid.trie.nodes@;
    let pn = post.trie.nodes@;
    assert forall|t: int| 0 <= t < mn.len() implies nodes_children(mn, t) == nodes_children(
        pn,
        t,
    ) by {}
    assert forall|q: Seq<char>| #[trigger] node_of(pn, q) == node_of(mn, q) by {
        lemma_descend_same_children(pn, mn, 0, q);
    }
    // The shape invariant survives: only a marker changed.
    assert(trie_wf(pn)) by {
        assert forall|i: int| 0 <= i < pn.len() implies #[trigger] crate::trie::node_ok(
            pn,
            i,
        ) by {
            assert(crate::trie::node_ok(mn, i));
            assert(nodes_children(pn, i) == nodes_children(mn, i));
            assert forall|k: int|
                0 <= k < pn[i].children@.len() implies pn[(#[trigger] pn[i].children@[k]).1
                as int].is_escaped == crate::pattern::is_special(pn[i].children@[k].0) by {
                let t = pn[i].children@[k].1 as int;
                assert(mn[t].is_escaped == crate::pattern::is_special(mn[i].children@[k].0));
                assert(pn[t].is_escaped == mn[t].is_escaped);
            }
        }
        assert forall|i1: int, k1: int, i2: int, k2: int|
            #![trigger pn[i1].children@[k1], pn[i2].children@[k2]]
            0 <= i1 < pn.len() && 0 <= k1 < pn[i1].children@.len() && 0 <= i2 < pn.len() && 0 <= k2
                < pn[i2].children@.len() && pn[i1].children@[k1].1 == pn[i2].children@[k2].1
            implies i1 == i2 && k1 == k2 by {
            assert(nodes_children(pn, i1) == nodes_children(mn, i1));
            assert(nodes_children(pn, i2) == nodes_children(mn, i2));
        }
    }
    assert forall|q: Seq<char>| #[trigger] indices_at(pn, q) == indices_at(mn, q) by {
        match node_of(mn, q) {
            Some(t) => {
                lemma_descend_in_bounds(mn, 0, q);
                assert(pn[t].pattern_indices == mn[t].pattern_indices);
            },
            None => {},
        }
    }
    assert forall|q: Seq<char>, k: int| 0 <= k < indices_at(pn, q).len() implies {
        let idx = (#[trigger] indices_at(pn, q)[k]) as int;
        &&& idx < post.compiled_patterns@.len()
        &&& literal_of(post.compiled_patterns@[idx].text@) == q
    } by {
        assert(indices_at(pn, q) == indices_at(mn, q));
        assert(indices_at(mn, q) == indices_at(pre.trie.nodes@, q));
        assert(indices_at(pre.trie.nodes@, q)[k] == indices_at(pn, q)[k]);
    }
    assert forall|i: int| 0 <= i < post.compiled_patterns@.len() implies indices_at(
        pn,
        literal_of((#[trigger] post.compiled_patterns@[i]).text@),
    ).contains(i as usize) by {
        assert(pre.compiled_patterns@[i] == post.compiled_patterns@[i]);
        let l = literal_of(post.compiled_patterns@[i].text@);
        assert(indices_at(pre.trie.nodes@, l).contains(i as usize));
        assert(indices_at(pn, l) == indices_at(mid.trie.nodes@, l));
    }
    assert forall|i: int| 0 <= i < post.compiled_patterns@.len() implies #[trigger] post.entry_ok(
        i,
    ) by {
        assert(pre.entry_ok(i));
        assert(pre.compiled_patterns@[i] == post.compiled_patterns@[i]);
    }
    assert(post.entry_texts() =~= pre.entry_texts());
    // The new plain hit is exactly the literal prefix of the pattern.
    assert forall|q: Seq<char>|
        #[trigger] post.plain_hit(q) == (pre.plain_hit(q) || q == literal_of(pattern)) by {
        assert(node_of(pn, q) == node_of(mn, q));
        assert(plain_at(mn, q) == plain_at(pre.trie.nodes@, q));
        match node_of(mn, q) {
            Some(t) => {
                lemma_descend_in_bounds(mn, 0, q);
                if t == n {
                    lemma_node_of_injective(mn, q, lit);
                    assert(q == literal_of(pattern));
                } else {
                    assert(pn[t].has_plain_prefix == mn[t].has_plain_prefix);
                    if q == literal_of(pattern) {
                        assert(node_of(mn, q) == Some(n));
                        assert(false);
                    }
                }
            },
            None => {
                if q == literal_of(pattern) {
                    assert(node_of(mn, q) == Some(n));
                    assert(false);
                }
            },
        }
    }
}

/// The table and index step of a regex insertion: the entry is appended and
/// its index is stored at the node of its literal prefix.
proof fn lemma_insert_regex<S: Scorer>(
    pre: RegexTrie<S>,
    mid: RegexTrie<S>,
    mid2: RegexTrie<S>,
    post: RegexTrie<S>,
    pattern: Seq<char>,
    lit: Seq<char>,
    n: int,
    idx: int,
)
    requires
        pre.wf(),
        is_regex_pattern(pattern),
        regex_compiles(pattern),
        lit == literal_of(pattern),
        // after ensure_path
        mid.compiled_patterns == pre.compiled_patterns,
        mid.scorer == pre.scorer,
        trie_wf(mid.trie.nodes@),
        node_of(mid.trie.nodes@, lit) == Some(n),
        0 <= n < mid.trie.nodes@.len(),
        forall|q: Seq<char>|
            #[trigger] plain_at(mid.trie.nodes@, q) == plain_at(pre.trie.nodes@, q),
        forall|q: Seq<char>|
            #[trigger] indices_at(mid.trie.nodes@, q) == indices_at(pre.trie.nodes@, q),
        // after the table push
        mid2.trie == mid.trie,
        mid2.scorer == mid.scorer,
        0 <= idx < usize::MAX as int,
        idx == pre.compiled_patterns@.len(),
        mid2.compiled_patterns@ == mid.compiled_patterns@.push(mid2.compiled_patterns@[idx]),
        mid2.compiled_patterns@[idx].text@ == pattern,
        regex_pattern(mid2.compiled_patterns@[idx].automaton) == pattern,
        mid2.compiled_patterns@[idx].score == mid.scorer.score_spec(pattern, true),
        // after the index push
        post.compiled_patterns == mid2.compiled_patterns,
        post.scorer == mid2.scorer,
        post.trie.nodes@.len() == mid2.trie.nodes@.len(),
        forall|t: int|
            0 <= t < mid2.trie.nodes@.len() && t != n ==> #[trigger] post.trie.nodes@[t]
                == mid2.trie.nodes@[t],
        post.trie.nodes@[n].children == mid2.trie.nodes@[n].children,
        post.trie.nodes@[n].pattern_indices@ == mid2.trie.nodes@[n].pattern_indices@.push(
            idx as usize,
        ),
        post.trie.nodes@[n].is_escaped == mid2.trie.nodes@[n].is_escaped,
        post.trie.nodes@[n].has_plain_prefix == mid2.trie.nodes@[n].has_plain_prefix,
    ensures
        post.wf(),
        post.entry_texts() == pre.entry_texts().push(pattern),
        forall|q: Seq<char>| #[trigger] post.plain_hit(q) == pre.plain_hit(q),
{
    let mn = mid.trie.nodes@;
    let pn = post.trie.nodes@;
    assert forall|t: int| 0 <= t < mn.len() implies nodes_children(mn, t) == nodes_children(
        pn,
        t,
    ) by {}
    assert forall|q: Seq<char>| #[trigger] node_of(pn, q) == node_of(mn, q) by {
        lemma_descend_same_children(pn, mn, 0, q);
    }
    assert(trie_wf(pn)) by {
        assert forall|i: int| 0 <= i < pn.len() implies #[trigger] crate::trie::node_ok(
            pn,
            i,
        ) by {
            assert(crate::trie::node_ok(mn, i));
            assert(nodes_children(pn, i) == nodes_children(mn, i));
            assert forall|k: int|
                0 <= k < pn[i].children@.len() implies pn[(#[trigger] pn[i].children@[k]).1
                as int].is_escaped == crate::pattern::is_special(pn[i].children@[k].0) by {
                let t = pn[i].children@[k].1 as int;
                assert(mn[t].is_escaped == crate::pattern::is_special(mn[i].children@[k].0));
                assert(pn[t].is_escaped == mn[t].is_escaped);
            }
        }
        assert forall|i1: int, k1: int, i2: int, k2: int|
            #![trigger pn[i1].children@[k1], pn[i2].children@[k2]]
            0 <= i1 < pn.len() && 0 <= k1 < pn[i1].children@.len() && 0 <= i2 < pn.len() && 0 <= k2
                < pn[i2].children@.len() && pn[i1].children@[k1].1 == pn[i2].children@[k2].1
            implies i1 == i2 && k1 == k2 by {
            assert(nodes_children(pn, i1) == nodes_children(mn, i1));
            assert(nodes_children(pn, i2) == nodes_children(mn, i2));
        }
    }
    // Entries are sound, including the appended one.
    assert forall|i: int| 0 <= i < post.compiled_patterns@.len() implies #[trigger] post.entry_ok(
        i,
    ) by {
        if i < idx {
            assert(pre.entry_ok(i));
            assert(pre.compiled_patterns@[i] == post.compiled_patterns@[i]);
        }
    }
    // Index placement: only the node of `lit` gained an index, and it names
    // the new entry, whose literal prefix is the unique path to that node.
    assert forall|q: Seq<char>, k: int| 0 <= k < indices_at(pn, q).len() implies {
        let x = (#[trigger] indices_at(pn, q)[k]) as int;
        &&& x < post.compiled_patterns@.len()
        &&& literal_of(post.compiled_patterns@[x].text@) == q
    } by {
        assert(node_of(pn, q) == node_of(mn, q));
        match node_of(mn, q) {
            Some(t) => {
                lemma_descend_in_bounds(mn, 0, q);
                if t == n {
                    lemma_node_of_injective(mn, q, lit);
                    assert(q == lit);
                    assert(indices_at(pn, q) == mn[n].pattern_indices@.push(idx as usize));
                    if k < mn[n].pattern_indices@.len() {
                        assert(indices_at(mn, q)[k] == indices_at(pn, q)[k]);
                        assert(indices_at(mn, q) == indices_at(pre.trie.nodes@, q));
                        assert(indices_at(pre.trie.nodes@, q)[k] == indices_at(pn, q)[k]);
                        let x = indices_at(pn, q)[k] as int;
                        assert(x < pre.compiled_patterns@.len());
                        assert(pre.compiled_patterns@[x] == post.compiled_patterns@[x]);
                    } else {
                        assert(indices_at(pn, q)[k] == idx as usize);
                        assert(literal_of(post.compiled_patterns@[idx].text@) == q);
                    }
                } else {
                    assert(pn[t].pattern_indices == mn[t].pattern_indices);
                    assert(indices_at(pn, q) == indices_at(mn, q));
                    assert(indices_at(mn, q) == indices_at(pre.trie.nodes@, q));
                    let x = indices_at(pn, q)[k] as int;
                    assert(indices_at(pre.trie.nodes@, q)[k] == indices_at(pn, q)[k]);
                    assert(x < pre.compiled_patterns@.len());
                    assert(pre.compiled_patterns@[x] == post.compiled_patterns@[x]);
                }
            },
            None => {},
        }
    }
    // Every entry is findable: old ones where they were, the new one at `n`.
    assert forall|i: int| 0 <= i < post.compiled_patterns@.len() implies indices_at(
        pn,
        literal_of((#[trigger] post.compiled_patterns@[i]).text@),
    ).contains(i as usize) by {
        if i < idx {
            assert(pre.compiled_patterns@[i] == post.compiled_patterns@[i]);
            let l = literal_of(post.compiled_patterns@[i].text@);
            assert(indices_at(pre.trie.nodes@, l).contains(i as usize));
            assert(indices_at(mn, l) == indices_at(pre.trie.nodes@, l));
            assert(node_of(pn, l) == node_of(mn, l));
            match node_of(mn, l) {
                Some(t) => {
                    lemma_descend_in_bounds(mn, 0, l);
                    if t == n {
                        assert(indices_at(pn, l) == mn[n].pattern_indices@.push(idx as usize));
                        let w = choose|w: int|
                            0 <= w < indices_at(mn, l).len() && indices_at(mn, l)[w] == i as usize;
                        assert(indices_at(pn, l)[w] == i as usize);
                    } else {
                        assert(pn[t].pattern_indices == mn[t].pattern_indices);
                    }
                },
                None => {
                    assert(indices_at(mn, l).len() == 0);
                    assert(false);
                },
            }
        } else {
            assert(post.compiled_patterns@[i].text@ == pattern);
            assert(node_of(pn, lit) == Some(n));
            assert(indices_at(pn, lit) == mn[n].pattern_indices@.push(idx as usize));
            let m = mn[n].pattern_indices@.len() as int;
            assert(indices_at(pn, lit)[m] == idx as usize);
        }
    }
    assert(post.entry_texts() =~= pre.entry_texts().push(pattern));
    assert forall|q: Seq<char>| #[trigger] post.plain_hit(q) == pre.plain_hit(q) by {
        assert(node_of(pn, q) == node_of(mn, q));
        assert(plain_at(mn, q) == plain_at(pre.trie.nodes@, q));
        match node_of(mn, q) {
            Some(t) => {
                lemma_descend_in_bounds(mn, 0, q);
                if t == n {
                    assert(pn[n].has_plain_prefix == mn[n].has_plain_prefix);
                } else {
                    assert(pn[t].has_plain_prefix == mn[t].has_plain_prefix);
                }
            },
            None => {},
        }
    }
}


/// Idempotent read: the reported match set is a function of the trie state
/// and the input alone, so two results of `find_matches` on the same trie
/// and input hold the same texts.
pub proof fn lemma_find_matches_deterministic<S: Scorer>(
    t: RegexTrie<S>,
    input: Seq<char>,
    r1: Seq<String>,
    r2: Seq<String>,
)
    requires
        forall|u: Seq<char>| #[trigger] texts_contain(r1, u) == t.pattern_matches(input, u),
        forall|u: Seq<char>| #[trigger] texts_contain(r2, u) == t.pattern_matches(input, u),
    ensures
        forall|u: Seq<char>| #[trigger] texts_contain(r1, u) == texts_contain(r2, u),
{
}

/// Idempotent read for the best match: whether a best match exists, and its
/// score, are functions of the trie state and the input alone. Which pattern
/// is reported is pinned only up to ties in score, as the candidate set
/// carries no meaningful order.
pub proof fn lemma_find_best_match_deterministic<S: Scorer>(
    t: RegexTrie<S>,
    input: Seq<char>,
    r1: Option<Seq<char>>,
    r2: Option<Seq<char>>,
)
    requires
        match r1 {
            None => forall|u: Seq<char>| !t.pattern_matches(input, u),
            Some(s) => t.pattern_matches(input, s) && (forall|u: Seq<char>|
                t.pattern_matches(input, u) ==> t.score_of(input, s) <= t.score_of(input, u)),
        },
        match r2 {
            None => forall|u: Seq<char>| !t.pattern_matches(input, u),
            Some(s) => t.pattern_matches(input, s) && (forall|u: Seq<char>|
                t.pattern_matches(input, u) ==> t.score_of(input, s) <= t.score_of(input, u)),
        },
    ensures
        r1 is Some <==> r2 is Some,
        (r1 is Some && r2 is Some) ==> t.score_of(input, r1.unwrap()) == t.score_of(
            input,
            r2.unwrap(),
        ),
{
}

/// Exact-anchor property: an inserted regex pattern whose literal prefix is
/// a prefix of the input is reported exactly when its automaton produces a
/// match spanning the whole input. (Without the prefix premise the trie walk
/// never reaches the pattern: pattern `a?` is not reported for the empty
/// input even though its automaton matches it.)
pub proof fn lemma_exact_anchor<S: Scorer>(t: RegexTrie<S>, input: Seq<char>, p: Seq<char>)
    requires
        t.wf(),
        exists|i: int|
            0 <= i < t.compiled_patterns@.len() && (#[trigger] t.compiled_patterns@[i]).text@
                == p,
        literal_of(p).is_prefix_of(input),
    ensures
        t.pattern_matches(input, p) <==> matches_exactly(p, input),
{
    let i = choose|i: int|
        0 <= i < t.compiled_patterns@.len() && (#[trigger] t.compiled_patterns@[i]).text@ == p;
    assert(t.entry_ok(i));
    if t.pattern_matches(input, p) {
        if t.plain_hit(input) && p == escaped(input) {
            crate::pattern::lemma_escaped_literal(input);
            assert(false);
        }
        assert(t.regex_match(input, p));
    }
    if matches_exactly(p, input) {
        assert(t.regex_match(input, p));
    }
}

/// Plain priority: with the default scorer a plain hit scores zero, no match
/// scores less, and the plain hit wins every tie, so whenever the input is an
/// inserted plain pattern the best match is that pattern.
pub proof fn lemma_plain_priority(
    t: RegexTrie<DefaultScorer>,
    input: Seq<char>,
    s: Seq<char>,
)
    requires
        t.wf(),
        t.plain_hit(input),
        t.pattern_matches(input, s),
        forall|u: Seq<char>|
            t.pattern_matches(input, u) ==> t.score_of(input, s) <= t.score_of(input, u),
        (t.plain_hit(input) && (forall|u: Seq<char>|
            t.pattern_matches(input, u) ==> t.score_of(input, escaped(input)) <= t.score_of(
                input,
                u,
            ))) ==> s == escaped(input),
    ensures
        s == escaped(input),
{
    assert(t.score_of(input, escaped(input)) == 0);
    assert forall|u: Seq<char>|
        t.pattern_matches(input, u) implies t.score_of(input, escaped(input)) <= t.score_of(
        input,
        u,
    ) by {}
}

/// Shortest-wins default: when exactly two regex patterns match, the default
/// scorer ranks them by text length, so the shorter pattern is the best
/// match.
pub proof fn lemma_shortest_wins(
    t: RegexTrie<DefaultScorer>,
    input: Seq<char>,
    s: Seq<char>,
    p1: Seq<char>,
    p2: Seq<char>,
)
    requires
        t.wf(),
        !t.plain_hit(input),
        t.pattern_matches(input, p1),
        t.pattern_matches(input, p2),
        forall|u: Seq<char>| t.pattern_matches(input, u) ==> (u == p1 || u == p2),
        p1.len() < p2.len(),
        p2.len() <= usize::MAX,
        t.pattern_matches(input, s),
        forall|u: Seq<char>|
            t.pattern_matches(input, u) ==> t.score_of(input, s) <= t.score_of(input, u),
    ensures
        s == p1,
{
    assert(t.score_of(input, p1) == p1.len());
    assert(t.score_of(input, p2) == p2.len());
    if s == p2 {
        assert(t.score_of(input, s) <= t.score_of(input, p1));
        assert(false);
    }
    assert(s == p1);
}

/// Failure isolation: a pattern whose compilation fails never enters the
/// table, while a valid pattern inserted right after it is indexed as if the
/// failure had never happened: present in the table when it is a regex,
/// marked as a plain hit otherwise.
pub proof fn lemma_failure_isolation<S: Scorer>(
    t0: RegexTrie<S>,
    t2: RegexTrie<S>,
    bad: Seq<char>,
    good: Seq<char>,
)
    requires
        t0.wf(),
        t2.wf(),
        is_regex_pattern(bad),
        !regex_compiles(bad),
        // `insert(bad)` returned an error and left the trie equal to `t0`;
        // `t2` then came out of a successful `insert(good)`:
        is_regex_pattern(good) ==> regex_compiles(good) && t2.entry_texts()
            == t0.entry_texts().push(good) && (forall|q: Seq<char>|
            #[trigger] t2.plain_hit(q) == t0.plain_hit(q)),
        !is_regex_pattern(good) ==> t2.entry_texts() == t0.entry_texts() && (forall|q: Seq<char>|
            #[trigger] t2.plain_hit(q) == (t0.plain_hit(q) || q == literal_of(good))),
    ensures
        !t2.entry_texts().contains(bad),
        is_regex_pattern(good) ==> t2.entry_texts().contains(good),
        !is_regex_pattern(good) ==> t2.plain_hit(literal_of(good)),
{
    if t2.entry_texts().contains(bad) {
        let w = choose|w: int| 0 <= w < t2.entry_texts().len() && t2.entry_texts()[w] == bad;
        assert(t2.entry_ok(w));
        assert(t2.compiled_patterns@[w].text@ == t2.entry_texts()[w]);
        assert(regex_compiles(bad));
        assert(false);
    }
    if is_regex_pattern(good) {
        let n = t0.entry_texts().len() as int;
        assert(t2.entry_texts()[n] == good);
    }
}

/// Escaping correctness: an escaped written form carries no regex semantics
/// and its literal prefix is the unescaped text, so once it is inserted the
/// unescaped text is reported through the plain path, with no automaton
/// involved. The reported text is the inserted pattern itself: any plain
/// pattern whose literal prefix is the input is its escaped form.
pub proof fn lemma_escaping_correctness<S: Scorer>(t: RegexTrie<S>, x: Seq<char>)
    requires
        t.wf(),
        t.plain_hit(x),
    ensures
        !is_regex_pattern(escaped(x)),
        literal_of(escaped(x)) == x,
        t.pattern_matches(x, escaped(x)),
        forall|p: Seq<char>|
            (!is_regex_pattern(p) && #[trigger] literal_of(p) == x) ==> p == escaped(x),
{
    crate::pattern::lemma_escaped_literal(x);
    assert forall|p: Seq<char>|
        !is_regex_pattern(p) && #[trigger] literal_of(p) == x implies p == escaped(x) by {
        crate::pattern::lemma_plain_roundtrip(p);
    }
}

} // verus!
