//! The literal-prefix trie proper.
//!
//! Nodes live in an arena; a parent holds its children as pairs of edge
//! character and arena index. The shape invariants — child indices grow,
//! edge characters are unique per node, every node has at most one parent —
//! make the path leading to a node unique, which is what lets an index stored
//! at a node speak for the one literal prefix that reaches it.

use vstd::prelude::*;

use crate::pattern::is_special;
use crate::pattern::is_special_char;

verus! {

/// One trie node: its outgoing edges, the compiled-pattern indices whose
/// literal prefix ends here, whether a plain pattern ends here, and whether
/// the edge leading here stands for an escaped meta-character.
pub struct TrieNode {
    pub children: Vec<(char, usize)>,
    pub pattern_indices: Vec<usize>,
    pub has_plain_prefix: bool,
    pub is_escaped: bool,
}

/// The arena of nodes; the root sits at index zero.
pub struct Trie {
    pub nodes: Vec<TrieNode>,
}

/// The arena index the edge list maps a character to, if any.
pub open spec fn find_child(cs: Seq<(char, usize)>, c: char) -> Option<int>
    decreases cs.len(),
{
    if cs.len() == 0 {
        None
    } else if cs[0].0 == c {
        Some(cs[0].1 as int)
    } else {
        find_child(cs.skip(1), c)
    }
}

/// Walks the trie from node `i` along `path`.
pub open spec fn descend(nodes: Seq<TrieNode>, i: int, path: Seq<char>) -> Option<int>
    decreases path.len(),
{
    if !(0 <= i < nodes.len()) {
        None
    } else if path.len() == 0 {
        Some(i)
    } else {
        match find_child(nodes[i].children@, path[0]) {
            Some(j) => descend(nodes, j, path.skip(1)),
            None => None,
        }
    }
}

/// The node a path from the root reaches, if any.
pub open spec fn node_of(nodes: Seq<TrieNode>, path: Seq<char>) -> Option<int> {
    descend(nodes, 0, path)
}

/// The local shape of one node: edges lead strictly forward in the arena,
/// edge characters are unique, and a child's escape flag records whether its
/// edge character is a meta-character.
pub open spec fn node_ok(nodes: Seq<TrieNode>, i: int) -> bool {
    let cs = nodes[i].children@;
    &&& (forall|k: int| 0 <= k < cs.len() ==> i < (#[trigger] cs[k]).1 < nodes.len())
    &&& (forall|k1: int, k2: int|
        0 <= k1 < k2 < cs.len() ==> (#[trigger] cs[k1]).0 != (#[trigger] cs[k2]).0)
    &&& (forall|k: int|
        0 <= k < cs.len() ==> nodes[(#[trigger] cs[k]).1 as int].is_escaped == is_special(
            cs[k].0,
        ))
}

/// The global shape: a root exists, every node is locally well formed, and no
/// node is the target of two edges.
pub open spec fn trie_wf(nodes: Seq<TrieNode>) -> bool {
    &&& nodes.len() >= 1
    &&& (forall|i: int| 0 <= i < nodes.len() ==> #[trigger] node_ok(nodes, i))
    &&& (forall|i1: int, k1: int, i2: int, k2: int|
        #![trigger nodes[i1].children@[k1], nodes[i2].children@[k2]]
        0 <= i1 < nodes.len() && 0 <= k1 < nodes[i1].children@.len() && 0 <= i2 < nodes.len() && 0
            <= k2 < nodes[i2].children@.len() && nodes[i1].children@[k1].1
            == nodes[i2].children@[k2].1 ==> i1 == i2 && k1 == k2)
}

pub proof fn lemma_descend_in_bounds(nodes: Seq<TrieNode>, i: int, path: Seq<char>)
    requires
        descend(nodes, i, path) is Some,
    ensures
        0 <= descend(nodes, i, path).unwrap() < nodes.len(),
    decreases path.len(),
{
    if path.len() != 0 {
        match find_child(nodes[i].children@, path[0]) {
            Some(j) => {
                lemma_descend_in_bounds(nodes, j, path.skip(1));
            },
            None => {},
        }
    }
}

pub proof fn lemma_find_child_some(cs: Seq<(char, usize)>, c: char)
    requires
        find_child(cs, c) is Some,
    ensures
        exists|k: int|
            0 <= k < cs.len() && (#[trigger] cs[k]).0 == c && cs[k].1 as int == find_child(
                cs,
                c,
            ).unwrap(),
    decreases cs.len(),
{
    if cs.len() > 0 && cs[0].0 != c {
        lemma_find_child_some(cs.skip(1), c);
        let k0 = choose|k: int|
            0 <= k < cs.skip(1).len() && (#[trigger] cs.skip(1)[k]).0 == c && cs.skip(1)[k].1
                as int == find_child(cs.skip(1), c).unwrap();
        assert(cs[k0 + 1] == cs.skip(1)[k0]);
    }
}

pub proof fn lemma_find_child_none(cs: Seq<(char, usize)>, c: char)
    requires
        find_child(cs, c) is None,
    ensures
        forall|k: int| 0 <= k < cs.len() ==> (#[trigger] cs[k]).0 != c,
    decreases cs.len(),
{
    if cs.len() > 0 {
        lemma_find_child_none(cs.skip(1), c);
        assert forall|k: int| 0 <= k < cs.len() implies (#[trigger] cs[k]).0 != c by {
            if k > 0 {
                assert(cs[k] == cs.skip(1)[k - 1]);
            }
        }
    }
}

pub proof fn lemma_find_child_append(cs: Seq<(char, usize)>, c: char, p: (char, usize))
    ensures
        find_child(cs.push(p), c) == (if find_child(cs, c) is Some {
            find_child(cs, c)
        } else if p.0 == c {
            Some(p.1 as int)
        } else {
            None::<int>
        }),
    decreases cs.len(),
{
    if cs.len() == 0 {
        assert(cs.push(p)[0] == p);
        assert(cs.push(p).skip(1) =~= Seq::<(char, usize)>::empty());
        if p.0 == c {
            assert(find_child(cs.push(p), c) == Some(p.1 as int));
        } else {
            assert(find_child(cs.push(p), c) == find_child(Seq::<(char, usize)>::empty(), c));
        }
    } else {
        assert(cs.push(p)[0] == cs[0]);
        assert(cs.push(p).skip(1) =~= cs.skip(1).push(p));
        lemma_find_child_append(cs.skip(1), c, p);
        if cs[0].0 == c {
            assert(find_child(cs.push(p), c) == Some(cs[0].1 as int));
            assert(find_child(cs, c) == Some(cs[0].1 as int));
        } else {
            assert(find_child(cs.push(p), c) == find_child(cs.skip(1).push(p), c));
            assert(find_child(cs, c) == find_child(cs.skip(1), c));
        }
    }
}

pub proof fn lemma_descend_compose(nodes: Seq<TrieNode>, i: int, p1: Seq<char>, p2: Seq<char>)
    ensures
        descend(nodes, i, p1 + p2) == (match descend(nodes, i, p1) {
            Some(m) => descend(nodes, m, p2),
            None => None::<int>,
        }),
    decreases p1.len(),
{
    if !(0 <= i < nodes.len()) {
        if (p1 + p2).len() == 0 {
        } else {
        }
    } else if p1.len() == 0 {
        assert(p1 + p2 =~= p2);
    } else {
        assert((p1 + p2)[0] == p1[0]);
        assert((p1 + p2).len() > 0);
        match find_child(nodes[i].children@, p1[0]) {
            Some(j) => {
                assert((p1 + p2).skip(1) =~= p1.skip(1) + p2);
                lemma_descend_compose(nodes, j, p1.skip(1), p2);
            },
            None => {},
        }
    }
}

/// A reached node remembers its last edge: the path's last character and the
/// node it leads to appear together in the parent's edge list.
pub proof fn lemma_node_of_last_edge(nodes: Seq<TrieNode>, q: Seq<char>)
    requires
        node_of(nodes, q) is Some,
        q.len() > 0,
    ensures
        exists|m: int, k: int|
            {
                &&& node_of(nodes, q.drop_last()) == Some(m)
                &&& 0 <= m < nodes.len()
                &&& 0 <= k < nodes[m].children@.len()
                &&& #[trigger] nodes[m].children@[k] == (
                    q.last(),
                    node_of(nodes, q).unwrap() as usize,
                )
            },
{
    let n = node_of(nodes, q).unwrap();
    assert(q =~= q.drop_last() + seq![q.last()]);
    lemma_descend_compose(nodes, 0, q.drop_last(), seq![q.last()]);
    let m = node_of(nodes, q.drop_last()).unwrap();
    lemma_descend_in_bounds(nodes, 0, q.drop_last());
    let tail = seq![q.last()];
    assert(tail[0] == q.last());
    assert(tail.skip(1) =~= Seq::<char>::empty());
    let cs = nodes[m].children@;
    assert(find_child(cs, q.last()) is Some);
    lemma_find_child_some(cs, q.last());
    let k = choose|k: int|
        0 <= k < cs.len() && (#[trigger] cs[k]).0 == q.last() && cs[k].1 as int == find_child(
            cs,
            q.last(),
        ).unwrap();
    assert(descend(nodes, find_child(cs, q.last()).unwrap(), tail.skip(1)) == Some(n));
    assert(cs[k].1 as int == n);
    assert(nodes[m].children@[k] == (q.last(), n as usize));
}

/// Two paths that reach the same node are the same path.
pub proof fn lemma_node_of_injective(nodes: Seq<TrieNode>, q1: Seq<char>, q2: Seq<char>)
    requires
        trie_wf(nodes),
        node_of(nodes, q1) is Some,
        node_of(nodes, q1) == node_of(nodes, q2),
    ensures
        q1 == q2,
    decreases q1.len() + q2.len(),
{
    let n = node_of(nodes, q1).unwrap();
    if q1.len() == 0 && q2.len() == 0 {
        assert(q1 =~= q2);
    } else if q1.len() == 0 {
        assert(n == 0);
        lemma_node_of_last_edge(nodes, q2);
        let (m, k): (int, int) = choose|m: int, k: int|
            {
                &&& node_of(nodes, q2.drop_last()) == Some(m)
                &&& 0 <= m < nodes.len()
                &&& 0 <= k < nodes[m].children@.len()
                &&& #[trigger] nodes[m].children@[k] == (q2.last(), n as usize)
            };
        assert(node_ok(nodes, m));
        assert(nodes[m].children@[k].1 > m >= 0);
        assert(false);
    } else if q2.len() == 0 {
        assert(n == 0);
        lemma_node_of_last_edge(nodes, q1);
        let (m, k): (int, int) = choose|m: int, k: int|
            {
                &&& node_of(nodes, q1.drop_last()) == Some(m)
                &&& 0 <= m < nodes.len()
                &&& 0 <= k < nodes[m].children@.len()
                &&& #[trigger] nodes[m].children@[k] == (q1.last(), n as usize)
            };
        assert(node_ok(nodes, m));
        assert(nodes[m].children@[k].1 > m >= 0);
        assert(false);
    } else {
        lemma_node_of_last_edge(nodes, q1);
        lemma_node_of_last_edge(nodes, q2);
        let (m1, k1): (int, int) = choose|m: int, k: int|
            {
                &&& node_of(nodes, q1.drop_last()) == Some(m)
                &&& 0 <= m < nodes.len()
                &&& 0 <= k < nodes[m].children@.len()
                &&& #[trigger] nodes[m].children@[k] == (q1.last(), n as usize)
            };
        let (m2, k2): (int, int) = choose|m: int, k: int|
            {
                &&& node_of(nodes, q2.drop_last()) == Some(m)
                &&& 0 <= m < nodes.len()
                &&& 0 <= k < nodes[m].children@.len()
                &&& #[trigger] nodes[m].children@[k] == (q2.last(), n as usize)
            };
        assert(nodes[m1].children@[k1].1 == nodes[m2].children@[k2].1);
        assert(m1 == m2 && k1 == k2);
        assert(q1.last() == q2.last());
        lemma_node_of_injective(nodes, q1.drop_last(), q2.drop_last());
        assert(q1 =~= q1.drop_last().push(q1.last()));
        assert(q2 =~= q2.drop_last().push(q2.last()));
        assert(q1 =~= q2);
    }
}

/// The structural relation between two arenas when a fresh, empty node is
/// appended and linked as a new child of `parent`.
pub open spec fn add_child_shape(
    old_nodes: Seq<TrieNode>,
    new_nodes: Seq<TrieNode>,
    parent: int,
    c: char,
) -> bool {
    &&& 0 <= parent < old_nodes.len()
    &&& old_nodes.len() < usize::MAX as int
    &&& new_nodes.len() == old_nodes.len() + 1
    &&& (forall|t: int|
        0 <= t < old_nodes.len() && t != parent ==> #[trigger] new_nodes[t] == old_nodes[t])
    &&& new_nodes[parent].children@ == old_nodes[parent].children@.push(
        (c, old_nodes.len() as usize),
    )
    &&& new_nodes[parent].pattern_indices == old_nodes[parent].pattern_indices
    &&& new_nodes[parent].has_plain_prefix == old_nodes[parent].has_plain_prefix
    &&& new_nodes[parent].is_escaped == old_nodes[parent].is_escaped
    &&& new_nodes[old_nodes.len() as int].children@ =~= Seq::<(char, usize)>::empty()
    &&& new_nodes[old_nodes.len() as int].pattern_indices@ =~= Seq::<usize>::empty()
    &&& !new_nodes[old_nodes.len() as int].has_plain_prefix
    &&& new_nodes[old_nodes.len() as int].is_escaped == is_special(c)
    &&& find_child(old_nodes[parent].children@, c) is None
}

proof fn lemma_add_child_descend(
    old_nodes: Seq<TrieNode>,
    new_nodes: Seq<TrieNode>,
    parent: int,
    c: char,
    qp: Seq<char>,
    i: int,
    qi: Seq<char>,
    rest: Seq<char>,
)
    requires
        trie_wf(old_nodes),
        add_child_shape(old_nodes, new_nodes, parent, c),
        node_of(old_nodes, qp) == Some(parent),
        node_of(old_nodes, qi) == Some(i),
    ensures
        descend(new_nodes, i, rest) == (if qi + rest == qp.push(c) {
            Some(old_nodes.len() as int)
        } else {
            descend(old_nodes, i, rest)
        }),
    decreases rest.len(),
{
    let fresh = old_nodes.len() as int;
    lemma_descend_in_bounds(old_nodes, 0, qi);
    if rest.len() == 0 {
        // The target path ends in a fresh edge, so it was not reachable before.
        if qi + rest == qp.push(c) {
            assert(qi =~= qp.push(c));
            assert(qp.push(c) =~= qp + seq![c]);
            lemma_descend_compose(old_nodes, 0, qp, seq![c]);
            assert(seq![c][0] == c);
            assert(false);
        }
    } else {
        let ch = rest[0];
        let cs_old = nodes_children(old_nodes, i);
        let cs_new = nodes_children(new_nodes, i);
        if i == parent {
            lemma_find_child_append(cs_old, ch, (c, old_nodes.len() as usize));
        } else {
            assert(cs_new == cs_old);
        }
        if i == parent && ch == c {
            assert(find_child(cs_new, ch) == Some(fresh));
            // In the new arena the walk moves onto the fresh node, which has
            // no children, so only the empty remainder survives.
            assert(qi =~= qp) by {
                lemma_node_of_injective(old_nodes, qi, qp);
            }
            if rest.len() == 1 {
                assert(rest.skip(1) =~= Seq::<char>::empty());
                assert(descend(new_nodes, fresh, rest.skip(1)) == Some(fresh));
                assert(qi + rest =~= qp.push(c));
            } else {
                assert(rest.skip(1).len() > 0);
                assert(find_child(new_nodes[fresh].children@, rest.skip(1)[0]) is None);
                assert(descend(new_nodes, fresh, rest.skip(1)) is None);
                assert((qi + rest).len() > qp.push(c).len());
                assert(qi + rest != qp.push(c));
                assert(descend(old_nodes, i, rest) is None);
            }
        } else {
            // The first step is the same in both arenas.
            assert(find_child(cs_new, ch) == find_child(cs_old, ch));
            match find_child(cs_old, ch) {
                Some(j) => {
                    assert(qi + seq![ch] =~= qi.push(ch));
                    lemma_descend_compose(old_nodes, 0, qi, seq![ch]);
                    assert(seq![ch][0] == ch);
                    assert(seq![ch].skip(1) =~= Seq::<char>::empty());
                    assert(node_ok(old_nodes, i));
                    lemma_find_child_some(cs_old, ch);
                    let kk = choose|k: int|
                        0 <= k < cs_old.len() && (#[trigger] cs_old[k]).0 == ch && cs_old[k].1
                            as int == find_child(cs_old, ch).unwrap();
                    assert(cs_old[kk].1 < old_nodes.len());
                    assert(0 <= j < old_nodes.len());
                    assert(descend(old_nodes, i, seq![ch]) == Some(j)) by {
                        assert(find_child(old_nodes[i].children@, ch) == Some(j));
                        assert(seq![ch].skip(1).len() == 0);
                        assert(descend(old_nodes, j, seq![ch].skip(1)) == Some(j));
                    }
                    assert(node_of(old_nodes, qi.push(ch)) == Some(j));
                    lemma_add_child_descend(
                        old_nodes,
                        new_nodes,
                        parent,
                        c,
                        qp,
                        j,
                        qi.push(ch),
                        rest.skip(1),
                    );
                    assert(qi.push(ch) + rest.skip(1) =~= qi + rest);
                    if qi + rest == qp.push(c) {
                        assert(descend(new_nodes, i, rest) == Some(fresh));
                    } else {
                        assert(descend(new_nodes, i, rest) == descend(old_nodes, j, rest.skip(1)));
                    }
                },
                None => {
                    assert(descend(new_nodes, i, rest) is None);
                    assert(descend(old_nodes, i, rest) is None);
                    if qi + rest == qp.push(c) {
                        // The blocked edge would have to exist on the old walk
                        // towards the parent, a contradiction.
                        assert(qi.is_prefix_of(qp.push(c)));
                        if qi.len() <= qp.len() {
                            assert(qp =~= qi + qp.skip(qi.len() as int));
                            lemma_descend_compose(old_nodes, 0, qi, qp.skip(qi.len() as int));
                            let mid = qp.skip(qi.len() as int);
                            assert(descend(old_nodes, i, mid) == Some(parent));
                            if mid.len() == 0 {
                                assert(i == parent);
                                assert((qi + rest)[qi.len() as int] == ch);
                                assert(qp.push(c)[qp.len() as int] == c);
                                assert(ch == c);
                                assert(false);
                            } else {
                                assert(mid[0] == (qi + rest)[qi.len() as int]);
                                assert(mid[0] == ch);
                                assert(find_child(cs_old, ch) is Some);
                                assert(false);
                            }
                        } else {
                            assert(qi.len() == qp.len() + 1);
                            assert(qi =~= qp.push(c));
                            assert(rest.len() == 0);
                            assert(false);
                        }
                    }
                },
            }
        }
    }
}

/// Helper naming a node's edge list.
pub open spec fn nodes_children(nodes: Seq<TrieNode>, i: int) -> Seq<(char, usize)> {
    nodes[i].children@
}

/// Whether a plain pattern ends at the node the path reaches.
pub open spec fn plain_at(nodes: Seq<TrieNode>, q: Seq<char>) -> bool {
    match node_of(nodes, q) {
        Some(n) => nodes[n].has_plain_prefix,
        None => false,
    }
}

/// The pattern indices stored at the node the path reaches.
pub open spec fn indices_at(nodes: Seq<TrieNode>, q: Seq<char>) -> Seq<usize> {
    match node_of(nodes, q) {
        Some(n) => nodes[n].pattern_indices@,
        None => Seq::empty(),
    }
}

/// After appending and linking a fresh node, exactly one new path exists: the
/// parent's path extended by the new edge, and it reaches the fresh node.
pub proof fn lemma_add_child(
    old_nodes: Seq<TrieNode>,
    new_nodes: Seq<TrieNode>,
    parent: int,
    c: char,
    qp: Seq<char>,
)
    requires
        trie_wf(old_nodes),
        add_child_shape(old_nodes, new_nodes, parent, c),
        node_of(old_nodes, qp) == Some(parent),
    ensures
        forall|q: Seq<char>|
            #[trigger] node_of(new_nodes, q) == (if q == qp.push(c) {
                Some(old_nodes.len() as int)
            } else {
                node_of(old_nodes, q)
            }),
{
    assert forall|q: Seq<char>|
        #[trigger] node_of(new_nodes, q) == (if q == qp.push(c) {
            Some(old_nodes.len() as int)
        } else {
            node_of(old_nodes, q)
        }) by {
        assert(node_of(old_nodes, Seq::<char>::empty()) == Some(0int));
        lemma_add_child_descend(old_nodes, new_nodes, parent, c, qp, 0, Seq::empty(), q);
        assert(Seq::<char>::empty() + q =~= q);
    }
}

/// Appending and linking a fresh node preserves the shape invariant.
pub proof fn lemma_add_child_wf(
    old_nodes: Seq<TrieNode>,
    new_nodes: Seq<TrieNode>,
    parent: int,
    c: char,
)
    requires
        trie_wf(old_nodes),
        add_child_shape(old_nodes, new_nodes, parent, c),
    ensures
        trie_wf(new_nodes),
{
    let fresh = old_nodes.len() as int;
    let pcs = old_nodes[parent].children@;
    lemma_find_child_none(pcs, c);
    assert forall|i: int| 0 <= i < new_nodes.len() implies #[trigger] node_ok(new_nodes, i) by {
        if i == fresh {
        } else if i == parent {
            let cs = new_nodes[parent].children@;
            assert(cs.len() == pcs.len() + 1);
            assert(forall|k: int| 0 <= k < pcs.len() ==> cs[k] == pcs[k]);
            assert(cs[pcs.len() as int] == (c, old_nodes.len() as usize));
            assert(node_ok(old_nodes, parent));
            assert forall|k: int| 0 <= k < cs.len() implies parent < (#[trigger] cs[k]).1
                < new_nodes.len() by {
                if k < pcs.len() {
                    assert(pcs[k].1 < old_nodes.len());
                }
            }
            assert forall|k1: int, k2: int| 0 <= k1 < k2 < cs.len() implies (#[trigger] cs[k1]).0
                != (#[trigger] cs[k2]).0 by {
                if k2 == pcs.len() {
                    assert(cs[k1].0 == pcs[k1].0);
                    assert(pcs[k1].0 != c);
                }
            }
            assert forall|k: int| 0 <= k < cs.len() implies new_nodes[(#[trigger] cs[k]).1
                as int].is_escaped == is_special(cs[k].0) by {
                if k < pcs.len() {
                    let t = pcs[k].1 as int;
                    assert(t < old_nodes.len());
                    assert(t != parent || new_nodes[t].is_escaped == old_nodes[t].is_escaped);
                    assert(old_nodes[t].is_escaped == is_special(pcs[k].0));
                } else {
                    assert(cs[k].1 as int == fresh);
                }
            }
        } else {
            assert(node_ok(old_nodes, i));
            let cs = new_nodes[i].children@;
            assert(cs == old_nodes[i].children@);
            assert forall|k: int| 0 <= k < cs.len() implies new_nodes[(#[trigger] cs[k]).1
                as int].is_escaped == is_special(cs[k].0) by {
                let t = cs[k].1 as int;
                assert(t < old_nodes.len());
                assert(t != parent || new_nodes[t].is_escaped == old_nodes[t].is_escaped);
            }
        }
    }
    assert forall|i1: int, k1: int, i2: int, k2: int|
        #![trigger new_nodes[i1].children@[k1], new_nodes[i2].children@[k2]]
        0 <= i1 < new_nodes.len() && 0 <= k1 < new_nodes[i1].children@.len() && 0 <= i2
            < new_nodes.len() && 0 <= k2 < new_nodes[i2].children@.len()
            && new_nodes[i1].children@[k1].1 == new_nodes[i2].children@[k2].1 implies i1 == i2 && k1
        == k2 by {
        let v = new_nodes[i1].children@[k1].1;
        let fresh_edge_1 = i1 == parent && k1 == pcs.len();
        let fresh_edge_2 = i2 == parent && k2 == pcs.len();
        if fresh_edge_1 && fresh_edge_2 {
        } else if fresh_edge_1 {
            // The only edge with the fresh target is the new one.
            assert(v == old_nodes.len() as usize);
            assert(i2 != fresh || new_nodes[i2].children@.len() == 0);
            assert(new_nodes[i2].children@[k2] == old_nodes[i2].children@[k2]);
            assert(node_ok(old_nodes, i2));
            assert(old_nodes[i2].children@[k2].1 < old_nodes.len());
            assert(false);
        } else if fresh_edge_2 {
            assert(v == old_nodes.len() as usize);
            assert(i1 != fresh || new_nodes[i1].children@.len() == 0);
            assert(new_nodes[i1].children@[k1] == old_nodes[i1].children@[k1]);
            assert(node_ok(old_nodes, i1));
            assert(old_nodes[i1].children@[k1].1 < old_nodes.len());
            assert(false);
        } else {
            assert(i1 != fresh || new_nodes[i1].children@.len() == 0);
            assert(i2 != fresh || new_nodes[i2].children@.len() == 0);
            assert(new_nodes[i1].children@[k1] == old_nodes[i1].children@[k1]);
            assert(new_nodes[i2].children@[k2] == old_nodes[i2].children@[k2]);
        }
    }
}

/// Changing only node markers (never an edge list) moves no path.
pub proof fn lemma_descend_same_children(
    nodes1: Seq<TrieNode>,
    nodes2: Seq<TrieNode>,
    i: int,
    path: Seq<char>,
)
    requires
        nodes1.len() == nodes2.len(),
        forall|t: int| 0 <= t < nodes1.len() ==> nodes_children(nodes1, t) == nodes_children(
            nodes2,
            t,
        ),
    ensures
        descend(nodes1, i, path) == descend(nodes2, i, path),
    decreases path.len(),
{
    if 0 <= i < nodes1.len() && path.len() != 0 {
        assert(nodes_children(nodes1, i) == nodes_children(nodes2, i));
        match find_child(nodes1[i].children@, path[0]) {
            Some(j) => {
                lemma_descend_same_children(nodes1, nodes2, j, path.skip(1));
            },
            None => {},
        }
    }
}

impl TrieNode {
    /// A node with no edges and no markers.
    pub fn empty(esc: bool) -> (n: TrieNode)
        ensures
            n.children@ =~= Seq::<(char, usize)>::empty(),
            n.pattern_indices@ =~= Seq::<usize>::empty(),
            !n.has_plain_prefix,
            n.is_escaped == esc,
    {
        TrieNode { children: Vec::new(), pattern_indices: Vec::new(), has_plain_prefix: false, is_escaped: esc }
    }
}

impl Trie {
    /// A trie holding only an unmarked root.
    pub fn new() -> (t: Trie)
        ensures
            trie_wf(t.nodes@),
            t.nodes@.len() == 1,
            t.nodes@[0].pattern_indices@ =~= Seq::<usize>::empty(),
            !t.nodes@[0].has_plain_prefix,
            forall|q: Seq<char>|
                #[trigger] node_of(t.nodes@, q) == (if q.len() == 0 {
                    Some(0int)
                } else {
                    None::<int>
                }),
    {
        let mut nodes: Vec<TrieNode> = Vec::new();
        nodes.push(TrieNode::empty(false));
        let t = Trie { nodes };
        proof {
            assert forall|i: int| 0 <= i < t.nodes@.len() implies #[trigger] node_ok(
                t.nodes@,
                i,
            ) by {
                assert(t.nodes@[i].children@.len() == 0);
            }
            assert forall|q: Seq<char>|
                #[trigger] node_of(t.nodes@, q) == (if q.len() == 0 {
                    Some(0int)
                } else {
                    None::<int>
                }) by {
                if q.len() != 0 {
                    assert(find_child(t.nodes@[0].children@, q[0]) is None);
                }
            }
        }
        t
    }

    /// Looks a character up in a node's edge list.
    pub fn child_get(&self, i: usize, c: char) -> (r: Option<usize>)
        requires
            i < self.nodes@.len(),
        ensures
            match r {
                Some(j) => find_child(self.nodes@[i as int].children@, c) == Some(j as int),
                None => find_child(self.nodes@[i as int].children@, c) is None,
            },
    {
        let cs = &self.nodes[i].children;
        let n = cs.len();
        let ghost full = self.nodes@[i as int].children@;
        let mut k: usize = 0;
        proof {
            assert(full.skip(0) =~= full);
        }
        while k < n
            invariant
                k <= n,
                n == full.len(),
                full == self.nodes@[i as int].children@,
                i < self.nodes@.len(),
                find_child(full, c) == find_child(full.skip(k as int), c),
            decreases n - k,
        {
            let ghost rest = full.skip(k as int);
            proof {
                assert(rest[0] == full[k as int]);
                assert(rest.skip(1) =~= full.skip(k + 1));
            }
            let (ch, j) = self.nodes[i].children[k];
            if ch == c {
                return Some(j);
            }
            k = k + 1;
        }
        proof {
            assert(full.skip(k as int) =~= Seq::<(char, usize)>::empty());
        }
        None
    }

    /// Walks the trie along `lit`, creating the missing tail, and returns the
    /// node at the end of the path. Existing paths, markers and pattern
    /// indices are untouched; created nodes carry no markers.
    pub fn ensure_path(&mut self, lit: &Vec<char>) -> (n: usize)
        requires
            trie_wf(old(self).nodes@),
        ensures
            trie_wf(final(self).nodes@),
            node_of(final(self).nodes@, lit@) == Some(n as int),
            n < final(self).nodes@.len(),
            old(self).nodes@.len() <= final(self).nodes@.len(),
            forall|t: int|
                0 <= t < old(self).nodes@.len() ==> {
                    &&& (#[trigger] final(self).nodes@[t]).pattern_indices
                        == old(self).nodes@[t].pattern_indices
                    &&& final(self).nodes@[t].has_plain_prefix
                        == old(self).nodes@[t].has_plain_prefix
                },
            forall|t: int|
                old(self).nodes@.len() <= t < final(self).nodes@.len() ==> {
                    &&& (#[trigger] final(self).nodes@[t]).pattern_indices@ =~= Seq::<
                        usize,
                    >::empty()
                    &&& !final(self).nodes@[t].has_plain_prefix
                },
            forall|q: Seq<char>|
                #[trigger] node_of(old(self).nodes@, q) is Some ==> node_of(final(self).nodes@, q)
                    == node_of(old(self).nodes@, q),
            forall|q: Seq<char>|
                #[trigger] node_of(final(self).nodes@, q) is Some && node_of(
                    old(self).nodes@,
                    q,
                ) is None ==> node_of(final(self).nodes@, q).unwrap() >= old(self).nodes@.len(),
            forall|q: Seq<char>|
                #[trigger] plain_at(final(self).nodes@, q) == plain_at(old(self).nodes@, q),
            forall|q: Seq<char>|
                #[trigger] indices_at(final(self).nodes@, q) == indices_at(old(self).nodes@, q),
    {
        let ghost orig = old(self).nodes@;
        let len = lit.len();
        let mut cur: usize = 0;
        let mut d: usize = 0;
        proof {
            assert(node_of(self.nodes@, lit@.take(0)) == Some(0int)) by {
                assert(lit@.take(0).len() == 0);
            }
        }
        while d < len
            invariant
                d <= len,
                len == lit@.len(),
                trie_wf(self.nodes@),
                orig.len() <= self.nodes@.len(),
                cur < self.nodes@.len(),
                node_of(self.nodes@, lit@.take(d as int)) == Some(cur as int),
                forall|t: int|
                    0 <= t < orig.len() ==> {
                        &&& (#[trigger] self.nodes@[t]).pattern_indices == orig[t].pattern_indices
                        &&& self.nodes@[t].has_plain_prefix == orig[t].has_plain_prefix
                    },
                forall|t: int|
                    orig.len() <= t < self.nodes@.len() ==> {
                        &&& (#[trigger] self.nodes@[t]).pattern_indices@ =~= Seq::<usize>::empty()
                        &&& !self.nodes@[t].has_plain_prefix
                    },
                forall|q: Seq<char>|
                    #[trigger] node_of(orig, q) is Some ==> node_of(self.nodes@, q) == node_of(
                        orig,
                        q,
                    ),
                forall|q: Seq<char>|
                    #[trigger] node_of(self.nodes@, q) is Some && node_of(orig, q) is None
                        ==> node_of(self.nodes@, q).unwrap() >= orig.len(),
            decreases len - d,
        {
            let ch = lit[d];
            let ghost pre = self.nodes@;
            let ghost qp = lit@.take(d as int);
            match self.child_get(cur, ch) {
                Some(j) => {
                    proof {
                        assert(qp.push(ch) =~= qp + seq![ch]);
                        lemma_descend_compose(self.nodes@, 0, qp, seq![ch]);
                        assert(seq![ch][0] == ch);
                        assert(seq![ch].skip(1) =~= Seq::<char>::empty());
                        assert(node_ok(self.nodes@, cur as int));
                        let cs = self.nodes@[cur as int].children@;
                        lemma_find_child_some(cs, ch);
                        let kk = choose|k: int|
                            0 <= k < cs.len() && (#[trigger] cs[k]).0 == ch && cs[k].1 as int
                                == find_child(cs, ch).unwrap();
                        assert(cs[kk].1 < self.nodes@.len());
                        assert(0 <= j < self.nodes@.len());
                        assert(descend(self.nodes@, cur as int, seq![ch]) == Some(j as int)) by {
                            assert(find_child(self.nodes@[cur as int].children@, ch) == Some(
                                j as int,
                            ));
                            assert(seq![ch].skip(1).len() == 0);
                            assert(descend(self.nodes@, j as int, seq![ch].skip(1)) == Some(
                                j as int,
                            ));
                        }
                        assert(node_of(self.nodes@, qp.push(ch)) == Some(j as int));
                        assert(lit@.take(d + 1) =~= qp.push(ch));
                    }
                    cur = j;
                },
                None => {
                    let fresh = self.nodes.len();
                    let esc = is_special_char(ch);
                    self.nodes.push(TrieNode::empty(esc));
                    let grown = self.nodes.len();
                    self.nodes[cur].children.push((ch, fresh));
                    proof {
                        assert(grown == pre.len() + 1);
                        assert(pre.len() < usize::MAX as int);
                        assert(add_child_shape(pre, self.nodes@, cur as int, ch));
                        lemma_add_child_wf(pre, self.nodes@, cur as int, ch);
                        lemma_add_child(pre, self.nodes@, cur as int, ch, qp);
                        assert(node_of(self.nodes@, qp.push(ch)) == Some(fresh as int));
                        assert(lit@.take(d + 1) =~= qp.push(ch));
                        // The new path was not reachable in `pre`.
                        assert(node_of(pre, qp.push(ch)) is None) by {
                            assert(qp.push(ch) =~= qp + seq![ch]);
                            lemma_descend_compose(pre, 0, qp, seq![ch]);
                            assert(seq![ch][0] == ch);
                        }
                        assert forall|q: Seq<char>|
                            #[trigger] node_of(orig, q) is Some implies node_of(self.nodes@, q)
                            == node_of(orig, q) by {
                            assert(node_of(pre, q) == node_of(orig, q));
                            assert(q != qp.push(ch));
                        }
                        assert forall|q: Seq<char>|
                            #[trigger] node_of(self.nodes@, q) is Some && node_of(orig, q) is None
                            implies node_of(self.nodes@, q).unwrap() >= orig.len() by {
                            if q == qp.push(ch) {
                                assert(node_of(self.nodes@, q).unwrap() == pre.len());
                            } else {
                                assert(node_of(self.nodes@, q) == node_of(pre, q));
                            }
                        }
                    }
                    cur = fresh;
                },
            }
            d = d + 1;
        }
        proof {
            assert(lit@.take(len as int) =~= lit@);
            assert forall|q: Seq<char>|
                #[trigger] plain_at(self.nodes@, q) == plain_at(orig, q) by {
                lemma_ensure_path_markers(orig, self.nodes@, q);
            }
            assert forall|q: Seq<char>|
                #[trigger] indices_at(self.nodes@, q) == indices_at(orig, q) by {
                lemma_ensure_path_markers(orig, self.nodes@, q);
            }
        }
        cur
    }
}

/// When an arena grows without touching old markers and without moving old
/// paths, the markers seen through any path are unchanged.
proof fn lemma_ensure_path_markers(orig: Seq<TrieNode>, new: Seq<TrieNode>, q: Seq<char>)
    requires
        orig.len() <= new.len(),
        forall|t: int|
            0 <= t < orig.len() ==> (#[trigger] new[t]).pattern_indices == orig[t].pattern_indices
                && new[t].has_plain_prefix == orig[t].has_plain_prefix,
        forall|t: int|
            orig.len() <= t < new.len() ==> (#[trigger] new[t]).pattern_indices@ =~= Seq::<
                usize,
            >::empty() && !new[t].has_plain_prefix,
        forall|p: Seq<char>|
            #[trigger] node_of(orig, p) is Some ==> node_of(new, p) == node_of(orig, p),
        forall|p: Seq<char>|
            #[trigger] node_of(new, p) is Some && node_of(orig, p) is None ==> node_of(
                new,
                p,
            ).unwrap() >= orig.len(),
    ensures
        plain_at(new, q) == plain_at(orig, q),
        indices_at(new, q) == indices_at(orig, q),
{
    if node_of(orig, q) is Some {
        lemma_descend_in_bounds(orig, 0, q);
        let t = node_of(orig, q).unwrap();
        assert(node_of(new, q) == node_of(orig, q));
        assert(new[t].has_plain_prefix == orig[t].has_plain_prefix);
        assert(new[t].pattern_indices == orig[t].pattern_indices);
    } else {
        match node_of(new, q) {
            Some(t) => {
                assert(t >= orig.len());
                lemma_descend_in_bounds(new, 0, q);
                assert(!new[t].has_plain_prefix);
                assert(new[t].pattern_indices@ =~= Seq::<usize>::empty());
                assert(indices_at(new, q) == Seq::<usize>::empty());
            },
            None => {},
        }
        assert(indices_at(orig, q) == Seq::<usize>::empty());
    }
}

} // verus!
