use vstd::prelude::*;
use crate::records::hops;
use crate::tree_node::{ids_of, names, offers, visits_id, TreeNode};

verus! {

/// Both ends of an attachment are nodes of the hierarchy.
pub proof fn lemma_attached_are_nodes(t: TreeNode, p: int, c: int)
    requires
        t.attaches(p, c),
    ensures
        t.has_id(p),
        t.has_id(c),
    decreases t,
{
    if t.id == p && exists|i: int| 0 <= i < t.children.len() && (#[trigger] t.children[i]).id == c {
        let i = choose|i: int| 0 <= i < t.children.len() && (#[trigger] t.children[i]).id == c;
        assert(t.children[i].has_id(c));
    } else {
        let i = choose|i: int|
            0 <= i < t.children.len() && (#[trigger] t.children[i]).attaches(p, c);
        lemma_attached_are_nodes(t.children[i], p, c);
    }
}

/// A node of a hierarchy other than the topmost is attached under a node of
/// that hierarchy.
pub proof fn lemma_parent_edge(t: TreeNode, c: int) -> (p: int)
    requires
        t.has_id(c),
        c != t.id,
    ensures
        t.has_id(p),
        t.attaches(p, c),
    decreases t,
{
    let i = choose|i: int| 0 <= i < t.children.len() && (#[trigger] t.children[i]).has_id(c);
    if t.children[i].id == c {
        t.id
    } else {
        let p = lemma_parent_edge(t.children[i], c);
        assert(t.children[i].attaches(p, c));
        p
    }
}

/// The topmost node of a well-formed hierarchy is attached under no node.
pub proof fn lemma_top_is_unattached(t: TreeNode, p: int)
    requires
        t.well_formed(),
    ensures
        !t.attaches(p, t.id),
{
    if t.attaches(p, t.id) {
        if t.id == p && exists|i: int|
            0 <= i < t.children.len() && (#[trigger] t.children[i]).id == t.id {
            let i = choose|i: int|
                0 <= i < t.children.len() && (#[trigger] t.children[i]).id == t.id;
            assert(t.children[i].has_id(t.id));
        } else {
            let i = choose|i: int|
                0 <= i < t.children.len() && (#[trigger] t.children[i]).attaches(p, t.id);
            lemma_attached_are_nodes(t.children[i], p, t.id);
        }
    }
}

/// In a well-formed hierarchy a node is attached under one node only.
pub proof fn lemma_one_parent(t: TreeNode, p: int, q: int, c: int)
    requires
        t.well_formed(),
        t.attaches(p, c),
        t.attaches(q, c),
    ensures
        p == q,
    decreases t,
{
    let at_top = |r: int|
        t.id == r && exists|i: int| 0 <= i < t.children.len() && (#[trigger] t.children[i]).id == c;
    if at_top(p) && at_top(q) {
    } else if at_top(p) || at_top(q) {
        let inner = if at_top(p) { q } else { p };
        let i = choose|i: int| 0 <= i < t.children.len() && (#[trigger] t.children[i]).id == c;
        let j = choose|j: int|
            0 <= j < t.children.len() && (#[trigger] t.children[j]).attaches(inner, c);
        lemma_attached_are_nodes(t.children[j], inner, c);
        assert(t.children[i].has_id(c));
        assert(i == j);
        lemma_top_is_unattached(t.children[i], inner);
    } else {
        let i = choose|i: int|
            0 <= i < t.children.len() && (#[trigger] t.children[i]).attaches(p, c);
        let j = choose|j: int|
            0 <= j < t.children.len() && (#[trigger] t.children[j]).attaches(q, c);
        lemma_attached_are_nodes(t.children[i], p, c);
        lemma_attached_are_nodes(t.children[j], q, c);
        assert(i == j);
        lemma_one_parent(t.children[i], p, q, c);
    }
}

/// Placing the leaf `c` among the children of the root, where the order of
/// the siblings wants it, attaches `c` under the root and changes nothing
/// else.
pub proof fn lemma_attach_leaf(before: TreeNode, after: TreeNode, pos: int, c: int)
    requires
        before.well_formed(),
        !before.has_id(c),
        0 <= pos <= before.children.len(),
        forall|j: int| 0 <= j < pos ==> (#[trigger] before.children[j]).id < c,
        forall|j: int| pos <= j < before.children.len() ==> c < (#[trigger] before.children[j]).id,
        after.id == before.id,
        after.children == before.children.insert(pos, TreeNode::leaf(c)),
    ensures
        after.well_formed(),
        after.grew_by(before, before.id, c),
{
    let n = before.children.len() as int;
    let leaf = TreeNode::leaf(c);
    assert(forall|x: int| leaf.has_id(x) <==> x == c);
    assert(forall|q: int, d: int| !leaf.attaches(q, d));
    assert(leaf.well_formed());
    // How the two child sequences line up.
    assert(forall|j: int| 0 <= j < pos ==> after.children[j] == before.children[j]);
    assert(after.children[pos] == leaf);
    assert(forall|j: int| pos < j <= n ==> after.children[j] == before.children[j - 1]);
    assert(forall|j: int|
        0 <= j < n ==> before.children[j] == after.children[if j < pos { j } else { j + 1 }]);

    assert forall|x: int| after.has_id(x) <==> before.has_id(x) || x == c by {
        if after.has_id(x) && after.id != x {
            let i = choose|i: int|
                0 <= i < after.children.len() && (#[trigger] after.children[i]).has_id(x);
            if i < pos {
                assert(before.children[i].has_id(x));
            } else if i > pos {
                assert(before.children[i - 1].has_id(x));
            }
        }
        if before.has_id(x) && before.id != x {
            let i = choose|i: int|
                0 <= i < before.children.len() && (#[trigger] before.children[i]).has_id(x);
            let k = if i < pos { i } else { i + 1 };
            assert(after.children[k].has_id(x));
        }
        if x == c {
            assert(after.children[pos].has_id(x));
        }
    }
    assert forall|q: int, d: int|
        after.attaches(q, d) <==> before.attaches(q, d) || (q == before.id && d == c) by {
        if after.attaches(q, d) {
            if after.id == q && exists|i: int|
                0 <= i < after.children.len() && (#[trigger] after.children[i]).id == d {
                let i = choose|i: int|
                    0 <= i < after.children.len() && (#[trigger] after.children[i]).id == d;
                if i < pos {
                    assert(before.children[i].id == d);
                } else if i > pos {
                    assert(before.children[i - 1].id == d);
                }
            } else {
                let i = choose|i: int|
                    0 <= i < after.children.len() && (#[trigger] after.children[i]).attaches(q, d);
                if i < pos {
                    assert(before.children[i].attaches(q, d));
                } else if i > pos {
                    assert(before.children[i - 1].attaches(q, d));
                }
            }
        }
        if before.attaches(q, d) {
            if before.id == q && exists|i: int|
                0 <= i < before.children.len() && (#[trigger] before.children[i]).id == d {
                let i = choose|i: int|
                    0 <= i < before.children.len() && (#[trigger] before.children[i]).id == d;
                let k = if i < pos { i } else { i + 1 };
                assert(after.children[k].id == d);
            } else {
                let i = choose|i: int|
                    0 <= i < before.children.len()
                        && (#[trigger] before.children[i]).attaches(q, d);
                let k = if i < pos { i } else { i + 1 };
                assert(after.children[k].attaches(q, d));
            }
        }
        if q == before.id && d == c {
            assert(after.children[pos].id == d);
        }
    }
    // Well-formedness of the result.
    assert forall|i: int, j: int| 0 <= i < j < after.children.len() implies
        #[trigger] after.children[i].id < #[trigger] after.children[j].id by {
        let bi = if i < pos { i } else { i - 1 };
        let bj = if j < pos { j } else { j - 1 };
        if i != pos && j != pos {
            assert(before.children[bi].id < before.children[bj].id);
        } else if i == pos {
            assert(c < before.children[bj].id);
        } else {
            assert(before.children[bi].id < c);
        }
    }
    assert forall|i: int| 0 <= i < after.children.len() implies
        !(#[trigger] after.children[i]).has_id(after.id) by {
        if i < pos {
            assert(!before.children[i].has_id(before.id));
        } else if i > pos {
            assert(!before.children[i - 1].has_id(before.id));
        }
    }
    assert forall|i: int, j: int, x: int|
        0 <= i < after.children.len() && 0 <= j < after.children.len() && i != j
            && (#[trigger] after.children[i]).has_id(x) implies
        !(#[trigger] after.children[j].has_id(x)) by {
        let bi = if i < pos { i } else { i - 1 };
        let bj = if j < pos { j } else { j - 1 };
        if i != pos && j != pos {
            assert(before.children[bi].has_id(x));
            assert(!before.children[bj].has_id(x));
        } else if i == pos {
            if before.children[bj].has_id(x) {
                assert(before.has_id(c));
            }
        } else {
            assert(before.children[bi].has_id(x));
            assert(before.has_id(x));
        }
    }
    assert forall|i: int| 0 <= i < after.children.len() implies
        (#[trigger] after.children[i]).well_formed() by {
        if i < pos {
            assert(before.children[i].well_formed());
        } else if i > pos {
            assert(before.children[i - 1].well_formed());
        }
    }
}

/// Growing the `k`-th sub-hierarchy by a new node grows the whole hierarchy
/// by that node and changes nothing else.
pub proof fn lemma_grow_child(before: TreeNode, after: TreeNode, k: int, p: int, c: int)
    requires
        before.well_formed(),
        !before.has_id(c),
        0 <= k < before.children.len(),
        after.id == before.id,
        after.children.len() == before.children.len(),
        forall|j: int|
            0 <= j < before.children.len() && j != k ==> after.children[j] == before.children[j],
        after.children[k].well_formed(),
        after.children[k].grew_by(before.children[k], p, c),
    ensures
        after.well_formed(),
        after.grew_by(before, p, c),
{
    assert forall|x: int| after.has_id(x) <==> before.has_id(x) || x == c by {
        if after.has_id(x) && after.id != x {
            let i = choose|i: int|
                0 <= i < after.children.len() && (#[trigger] after.children[i]).has_id(x);
            if i != k {
                assert(before.children[i].has_id(x));
            } else if x != c {
                assert(before.children[k].has_id(x));
            }
        }
        if before.has_id(x) && before.id != x {
            let i = choose|i: int|
                0 <= i < before.children.len() && (#[trigger] before.children[i]).has_id(x);
            assert(after.children[i].has_id(x));
        }
        if x == c {
            assert(after.children[k].has_id(x));
        }
    }
    assert forall|q: int, d: int|
        after.attaches(q, d) <==> before.attaches(q, d) || (q == p && d == c) by {
        if after.attaches(q, d) {
            if after.id == q && exists|i: int|
                0 <= i < after.children.len() && (#[trigger] after.children[i]).id == d {
                let i = choose|i: int|
                    0 <= i < after.children.len() && (#[trigger] after.children[i]).id == d;
                assert(before.children[i].id == d);
            } else {
                let i = choose|i: int|
                    0 <= i < after.children.len() && (#[trigger] after.children[i]).attaches(q, d);
                if i != k {
                    assert(before.children[i].attaches(q, d));
                } else if !(q == p && d == c) {
                    assert(before.children[k].attaches(q, d));
                }
            }
        }
        if before.attaches(q, d) {
            if before.id == q && exists|i: int|
                0 <= i < before.children.len() && (#[trigger] before.children[i]).id == d {
                let i = choose|i: int|
                    0 <= i < before.children.len() && (#[trigger] before.children[i]).id == d;
                assert(after.children[i].id == d);
            } else {
                let i = choose|i: int|
                    0 <= i < before.children.len()
                        && (#[trigger] before.children[i]).attaches(q, d);
                assert(after.children[i].attaches(q, d));
            }
        }
        if q == p && d == c {
            assert(after.children[k].attaches(q, d));
        }
    }
    assert forall|i: int, j: int| 0 <= i < j < after.children.len() implies
        #[trigger] after.children[i].id < #[trigger] after.children[j].id by {
        assert(before.children[i].id < before.children[j].id);
    }
    assert forall|i: int| 0 <= i < after.children.len() implies
        !(#[trigger] after.children[i]).has_id(after.id) by {
        assert(!before.children[i].has_id(before.id));
        assert(before.has_id(before.id));
    }
    assert forall|i: int, j: int, x: int|
        0 <= i < after.children.len() && 0 <= j < after.children.len() && i != j
            && (#[trigger] after.children[i]).has_id(x) implies
        !(#[trigger] after.children[j].has_id(x)) by {
        if i == k {
            if x == c {
                if before.children[j].has_id(x) {
                    assert(before.has_id(c));
                }
            } else {
                assert(before.children[i].has_id(x));
                assert(!before.children[j].has_id(x));
            }
        } else {
            assert(before.children[i].has_id(x));
            assert(before.has_id(x));
            assert(!before.children[j].has_id(x));
        }
    }
    assert forall|i: int| 0 <= i < after.children.len() implies
        (#[trigger] after.children[i]).well_formed() by {
        if i != k {
            assert(before.children[i].well_formed());
        }
    }
}

/// Growing a hierarchy by some of `entries`, and then again by some of
/// `later`, whose entries are all among `entries`, is growing it by some of
/// `entries`.
pub proof fn lemma_grown_twice(
    start: TreeNode,
    mid: TreeNode,
    end: TreeNode,
    entries: Seq<(i32, i32)>,
    later: Seq<(i32, i32)>,
)
    requires
        start.admits(entries),
        mid.grown_from(start, entries),
        end.grown_from(mid, later),
        forall|a: int| 0 <= a < later.len() ==> entries.contains(#[trigger] later[a]),
    ensures
        end.grown_from(start, entries),
{
    assert forall|x: int| #![trigger end.has_id(x)]
        end.has_id(x) && !start.has_id(x) implies offers(entries, x) by {
        if !mid.has_id(x) {
            assert(offers(later, x));
            let a = choose|a: int| 0 <= a < later.len() && (#[trigger] later[a]).0 == x;
            assert(entries.contains(later[a]));
            let k = choose|k: int| 0 <= k < entries.len() && entries[k] == later[a];
            assert(entries[k].0 == x);
        }
    }
    assert forall|k: int|
        0 <= k < entries.len() && end.has_id((#[trigger] entries[k]).0 as int) implies
        end.has_id(entries[k].1 as int) by {
        let x = entries[k].0 as int;
        if mid.has_id(x) {
            assert(mid.has_id(entries[k].1 as int));
        } else {
            assert(offers(later, x));
            let a = choose|a: int| 0 <= a < later.len() && (#[trigger] later[a]).0 == x;
            assert(entries.contains(later[a]));
            let k2 = choose|k2: int| 0 <= k2 < entries.len() && entries[k2] == later[a];
            assert(k2 == k) by {
                if k2 < k {
                    assert(entries[k2].0 != entries[k].0);
                } else if k < k2 {
                    assert(entries[k].0 != entries[k2].0);
                }
            }
            assert(end.has_id(later[a].0 as int));
            assert(end.has_id(later[a].1 as int));
        }
    }
    assert forall|p: int, c: int| #![trigger end.attaches(p, c)]
        end.attaches(p, c) <==> start.attaches(p, c) || (names(entries, c, p) && end.has_id(c)) by {
        assert(mid.attaches(p, c) <==> start.attaches(p, c) || (names(entries, c, p)
            && mid.has_id(c)));
        if names(later, c, p) {
            let a = choose|a: int|
                0 <= a < later.len() && (#[trigger] later[a]).0 == c && later[a].1 == p;
            assert(entries.contains(later[a]));
            let k = choose|k: int| 0 <= k < entries.len() && entries[k] == later[a];
            assert(entries[k].0 == c && entries[k].1 == p);
            assert(names(entries, c, p));
        }
        if names(entries, c, p) && end.has_id(c) && !mid.has_id(c) {
            let k = choose|k: int|
                0 <= k < entries.len() && (#[trigger] entries[k]).0 == c && entries[k].1 == p;
            assert(offers(later, c));
            let a = choose|a: int| 0 <= a < later.len() && (#[trigger] later[a]).0 == c;
            assert(entries.contains(later[a]));
            let k2 = choose|k2: int| 0 <= k2 < entries.len() && entries[k2] == later[a];
            assert(k2 == k) by {
                if k2 < k {
                    assert(entries[k2].0 != entries[k].0);
                } else if k < k2 {
                    assert(entries[k].0 != entries[k2].0);
                }
            }
            assert(later[a].0 == c && later[a].1 == p);
            assert(names(later, c, p));
        }
    }
}

/// A well-formed hierarchy that is closed under `links` has, at every node,
/// exactly the children that `links` gives the node.
pub proof fn lemma_closed_mirrors(t: TreeNode, links: Map<int, int>)
    requires
        t.well_formed(),
        t.closed_under(links),
    ensures
        t.mirrors(links),
    decreases t,
{
    assert forall|i: int| 0 <= i < t.children.len() implies
        links.contains_pair((#[trigger] t.children[i]).id, t.id) by {
        assert(t.attaches(t.id, t.children[i].id));
    }
    assert forall|c: int| #[trigger] links.contains_pair(c, t.id) implies exists|i: int|
        0 <= i < t.children.len() && (#[trigger] t.children[i]).id == c by {
        assert(t.has_id(t.id));
        assert(t.has_id(c));
        assert(c != t.id);
        let i = choose|i: int| 0 <= i < t.children.len() && (#[trigger] t.children[i]).has_id(c);
        if t.children[i].id != c {
            let p = lemma_parent_edge(t.children[i], c);
            assert(t.attaches(p, c));
            assert(links.contains_pair(c, p));
            assert(p == t.id);
            assert(!t.children[i].has_id(t.id));
        }
    }
    assert forall|k: int| 0 <= k < t.children.len() implies
        (#[trigger] t.children[k]).mirrors(links) by {
        let sub = t.children[k];
        assert(t.attaches(t.id, sub.id));
        assert(links.contains_pair(sub.id, t.id));
        assert(sub.well_formed());
        assert forall|p: int, c: int| #![trigger sub.attaches(p, c)]
            sub.attaches(p, c) implies links.contains_pair(c, p) by {
            assert(t.attaches(p, c));
        }
        assert(!sub.has_id(t.id));
        assert forall|p: int, c: int|
            #[trigger] links.contains_pair(c, p) && sub.has_id(p) implies sub.has_id(c) by {
            assert(t.has_id(p));
            assert(t.has_id(c));
            assert(c != t.id);
            let j = choose|j: int|
                0 <= j < t.children.len() && (#[trigger] t.children[j]).has_id(c);
            if t.children[j].id == c {
                assert(t.attaches(t.id, c));
                assert(links.contains_pair(c, t.id));
                assert(p == t.id);
            } else {
                let q = lemma_parent_edge(t.children[j], c);
                assert(t.attaches(q, c));
                assert(links.contains_pair(c, q));
                assert(q == p);
                assert(j == k);
            }
        }
        lemma_closed_mirrors(sub, links);
    }
}

/// The map from child to parent of a well-formed hierarchy holds exactly its
/// attachments.
pub proof fn lemma_own_links(t: TreeNode, p: int, c: int)
    requires
        t.well_formed(),
    ensures
        t.own_links().contains_pair(c, p) <==> t.attaches(p, c),
{
    if t.attaches(p, c) {
        let q = choose|q: int| t.attaches(q, c);
        lemma_one_parent(t, p, q, c);
    }
}

/// A well-formed hierarchy is its own map from child to parent, turned
/// over.
pub proof fn lemma_mirrors_own_links(t: TreeNode)
    requires
        t.well_formed(),
    ensures
        t.mirrors(t.own_links()),
{
    let links = t.own_links();
    assert forall|p: int, c: int| #![trigger t.attaches(p, c)]
        t.attaches(p, c) implies links.contains_pair(c, p) by {
        lemma_own_links(t, p, c);
    }
    assert forall|p: int, c: int|
        #[trigger] links.contains_pair(c, p) && t.has_id(p) implies t.has_id(c) by {
        lemma_own_links(t, p, c);
        lemma_attached_are_nodes(t, p, c);
    }
    assert forall|p: int| #[trigger] links.contains_pair(t.id, p) implies !t.has_id(p) by {
        lemma_own_links(t, p, t.id);
        lemma_top_is_unattached(t, p);
    }
    lemma_closed_mirrors(t, links);
}

/// Two strictly ascending sequences with the same members are the same
/// sequence.
pub proof fn lemma_ascending_same_members(s: Seq<int>, t: Seq<int>)
    requires
        forall|i: int, j: int| 0 <= i < j < s.len() ==> s[i] < s[j],
        forall|i: int, j: int| 0 <= i < j < t.len() ==> t[i] < t[j],
        forall|x: int| s.contains(x) <==> t.contains(x),
    ensures
        s == t,
    decreases s.len(),
{
    let n = s.len() as int;
    let m = t.len() as int;
    if n == 0 {
        if m > 0 {
            assert(t.contains(t[0]));
        }
        assert(s =~= t);
    } else if m == 0 {
        assert(s.contains(s[0]));
    } else {
        // The greatest member stands last in both.
        assert(s.contains(s[n - 1]));
        assert(t.contains(t[m - 1]));
        let j = choose|j: int| 0 <= j < m && t[j] == s[n - 1];
        let i = choose|i: int| 0 <= i < n && s[i] == t[m - 1];
        if j < m - 1 {
            assert(t[j] < t[m - 1]);
        }
        if i < n - 1 {
            assert(s[i] < s[n - 1]);
        }
        assert(s[n - 1] == t[m - 1]);
        let s2 = s.drop_last();
        let t2 = t.drop_last();
        assert forall|x: int| s2.contains(x) <==> t2.contains(x) by {
            if s2.contains(x) {
                let k = choose|k: int| 0 <= k < s2.len() && s2[k] == x;
                assert(s[k] == x);
                assert(s[k] < s[n - 1]);
                assert(s.contains(x));
                let l = choose|l: int| 0 <= l < m && t[l] == x;
                assert(l != m - 1);
                assert(t2[l] == x);
            }
            if t2.contains(x) {
                let k = choose|k: int| 0 <= k < t2.len() && t2[k] == x;
                assert(t[k] == x);
                assert(t[k] < t[m - 1]);
                assert(t.contains(x));
                let l = choose|l: int| 0 <= l < n && s[l] == x;
                assert(l != n - 1);
                assert(s2[l] == x);
            }
        }
        assert forall|i: int, j: int| 0 <= i < j < s2.len() implies s2[i] < s2[j] by {
            assert(s[i] < s[j]);
        }
        assert forall|i: int, j: int| 0 <= i < j < t2.len() implies t2[i] < t2[j] by {
            assert(t[i] < t[j]);
        }
        lemma_ascending_same_members(s2, t2);
        assert(s =~= s2.push(s[n - 1]));
        assert(t =~= t2.push(t[m - 1]));
    }
}

/// Two hierarchies with the same topmost node that turn over the same map
/// from child to parent are the same hierarchy.
pub proof fn lemma_mirror_is_unique(a: TreeNode, b: TreeNode, links: Map<int, int>)
    requires
        a.id == b.id,
        a.mirrors(links),
        b.mirrors(links),
    ensures
        a == b,
    decreases a,
{
    let sa = a.child_ids();
    let sb = b.child_ids();
    assert forall|i: int, j: int| 0 <= i < j < sa.len() implies sa[i] < sa[j] by {
        assert(a.children[i].id < a.children[j].id);
    }
    assert forall|i: int, j: int| 0 <= i < j < sb.len() implies sb[i] < sb[j] by {
        assert(b.children[i].id < b.children[j].id);
    }
    assert forall|x: int| sa.contains(x) <==> sb.contains(x) by {
        if sa.contains(x) {
            let i = choose|i: int| 0 <= i < sa.len() && sa[i] == x;
            assert(links.contains_pair(a.children[i].id, a.id));
            assert(links.contains_pair(x, b.id));
            let j = choose|j: int| 0 <= j < b.children.len() && (#[trigger] b.children[j]).id == x;
            assert(sb[j] == x);
        }
        if sb.contains(x) {
            let j = choose|j: int| 0 <= j < sb.len() && sb[j] == x;
            assert(links.contains_pair(b.children[j].id, b.id));
            assert(links.contains_pair(x, a.id));
            let i = choose|i: int| 0 <= i < a.children.len() && (#[trigger] a.children[i]).id == x;
            assert(sa[i] == x);
        }
    }
    lemma_ascending_same_members(sa, sb);
    assert(sa.len() == a.children.len());
    assert(sb.len() == b.children.len());
    assert(a.children.len() == b.children.len());
    assert forall|i: int| 0 <= i < a.children.len() implies a.children[i] == b.children[i] by {
        assert(sa[i] == sb[i]);
        assert(a.children[i].mirrors(links));
        assert(b.children[i].mirrors(links));
        lemma_mirror_is_unique(a.children[i], b.children[i], links);
    }
    assert(a.children =~= b.children);
}

/// In a hierarchy that turns `links` over, every attachment is a link.
pub proof fn lemma_mirror_attaches_links(t: TreeNode, links: Map<int, int>, p: int, c: int)
    requires
        t.mirrors(links),
        t.attaches(p, c),
    ensures
        links.contains_pair(c, p),
    decreases t,
{
    if t.id == p && exists|i: int| 0 <= i < t.children.len() && (#[trigger] t.children[i]).id == c {
        let i = choose|i: int| 0 <= i < t.children.len() && (#[trigger] t.children[i]).id == c;
        assert(links.contains_pair(t.children[i].id, t.id));
    } else {
        let i = choose|i: int|
            0 <= i < t.children.len() && (#[trigger] t.children[i]).attaches(p, c);
        lemma_mirror_attaches_links(t.children[i], links, p, c);
    }
}

/// In a hierarchy that turns `links` over, every node but the topmost has a
/// link.
pub proof fn lemma_mirror_nodes_are_linked(t: TreeNode, links: Map<int, int>, x: int)
    requires
        t.mirrors(links),
        t.has_id(x),
        x != t.id,
    ensures
        links.dom().contains(x),
{
    let p = lemma_parent_edge(t, x);
    lemma_mirror_attaches_links(t, links, p, x);
}

/// In a hierarchy that turns `links` over, the id that a link sends to a
/// node of the hierarchy is a node of it too.
pub proof fn lemma_mirror_holds_child(t: TreeNode, links: Map<int, int>, p: int, c: int)
    requires
        t.mirrors(links),
        t.has_id(p),
        links.contains_pair(c, p),
    ensures
        t.has_id(c),
    decreases t,
{
    if t.id == p {
        let i = choose|i: int| 0 <= i < t.children.len() && (#[trigger] t.children[i]).id == c;
        assert(t.children[i].has_id(c));
    } else {
        let i = choose|i: int| 0 <= i < t.children.len() && (#[trigger] t.children[i]).has_id(p);
        lemma_mirror_holds_child(t.children[i], links, p, c);
    }
}

/// In a hierarchy that turns `links` over, whatever arrives at the topmost
/// node by following the links is a node of the hierarchy.
pub proof fn lemma_mirror_holds_reaching(t: TreeNode, links: Map<int, int>, x: int, k: nat)
    requires
        t.mirrors(links),
        hops(links, t.id, x, k),
    ensures
        t.has_id(x),
    decreases k,
{
    if k > 0 {
        lemma_mirror_holds_reaching(t, links, links[x], (k - 1) as nat);
        lemma_mirror_holds_child(t, links, links[x], x);
    }
}

/// A walk made of two parts visits what either part visits.
pub proof fn lemma_visits_of_parts(a: Seq<(nat, int)>, b: Seq<(nat, int)>, x: int)
    ensures
        visits_id(a + b, x) <==> visits_id(a, x) || visits_id(b, x),
{
    let whole = a + b;
    if visits_id(whole, x) {
        let k = choose|k: int| 0 <= k < whole.len() && (#[trigger] whole[k]).1 == x;
        if k < a.len() {
            assert(a[k].1 == x);
        } else {
            assert(b[k - a.len()].1 == x);
        }
    }
    if visits_id(a, x) {
        let k = choose|k: int| 0 <= k < a.len() && (#[trigger] a[k]).1 == x;
        assert(whole[k].1 == x);
    }
    if visits_id(b, x) {
        let k = choose|k: int| 0 <= k < b.len() && (#[trigger] b[k]).1 == x;
        assert(whole[a.len() + k].1 == x);
    }
}

/// A walk visits exactly the nodes of the hierarchy.
pub proof fn lemma_walk_visits_nodes(t: TreeNode, depth: nat, x: int)
    ensures
        visits_id(t.walk(depth), x) <==> t.has_id(x),
    decreases t, t.children.len() + 1,
{
    let head = seq![(depth, t.id)];
    lemma_visits_of_parts(head, t.walk_below(0, depth + 1), x);
    lemma_walk_below_visits_nodes(t, 0, depth + 1, x);
    if visits_id(head, x) {
        let k = choose|k: int| 0 <= k < head.len() && (#[trigger] head[k]).1 == x;
    }
    if t.id == x {
        assert(head[0].1 == x);
    }
}

/// The walks of the children from the `from`-th on visit exactly the nodes
/// of those children.
pub proof fn lemma_walk_below_visits_nodes(t: TreeNode, from: nat, depth: nat, x: int)
    ensures
        visits_id(t.walk_below(from, depth), x) <==> exists|i: int|
            from <= i < t.children.len() && (#[trigger] t.children[i]).has_id(x),
    decreases t, t.children.len() - from,
{
    if from < t.children.len() {
        let first = t.children[from as int].walk(depth);
        let rest = t.walk_below(from + 1, depth);
        lemma_visits_of_parts(first, rest, x);
        lemma_walk_visits_nodes(t.children[from as int], depth, x);
        lemma_walk_below_visits_nodes(t, from + 1, depth, x);
        if exists|i: int| from <= i < t.children.len() && (#[trigger] t.children[i]).has_id(x) {
            let i = choose|i: int|
                from <= i < t.children.len() && (#[trigger] t.children[i]).has_id(x);
            if i != from {
                assert(from + 1 <= i);
            }
        }
        if visits_id(rest, x) {
            let i = choose|i: int|
                from + 1 <= i < t.children.len() && (#[trigger] t.children[i]).has_id(x);
        }
    } else {
        if visits_id(t.walk_below(from, depth), x) {
            let k = choose|k: int|
                0 <= k < t.walk_below(from, depth).len()
                    && (#[trigger] t.walk_below(from, depth)[k]).1 == x;
        }
    }
}

/// One more link at the far end: what arrives at `c` in `k` steps, where a
/// link sends `c` to `top` and nothing on the way is `top`, arrives at
/// `top` in `k + 1` steps.
proof fn lemma_hops_one_more(links: Map<int, int>, top: int, c: int, x: int, k: nat)
    requires
        hops(links, c, x, k),
        links.contains_pair(c, top),
        forall|y: int, j: nat| hops(links, c, y, j) ==> y != top,
    ensures
        hops(links, top, x, k + 1),
    decreases k,
{
    assert(x != top);
    if k == 0 {
        assert(hops(links, top, links[x], 0));
    } else {
        lemma_hops_one_more(links, top, c, links[x], (k - 1) as nat);
    }
}

/// The depth of a visit is the number of links from the visited node to
/// the topmost node.
pub proof fn lemma_walk_depth_is_hops(t: TreeNode, links: Map<int, int>, depth: nat, j: int)
    requires
        t.well_formed(),
        t.mirrors(links),
        0 <= j < t.walk(depth).len(),
    ensures
        t.walk(depth)[j].0 >= depth,
        hops(links, t.id, t.walk(depth)[j].1, (t.walk(depth)[j].0 - depth) as nat),
    decreases t, t.children.len() + 1,
{
    if j > 0 {
        lemma_walk_below_depth_is_hops(t, links, 0, depth + 1, j - 1);
    }
}

/// The same of the walks of the children from the `from`-th on.
pub proof fn lemma_walk_below_depth_is_hops(
    t: TreeNode,
    links: Map<int, int>,
    from: nat,
    depth: nat,
    j: int,
)
    requires
        t.well_formed(),
        t.mirrors(links),
        depth >= 1,
        0 <= j < t.walk_below(from, depth).len(),
    ensures
        t.walk_below(from, depth)[j].0 >= depth,
        hops(
            links,
            t.id,
            t.walk_below(from, depth)[j].1,
            (t.walk_below(from, depth)[j].0 - depth + 1) as nat,
        ),
    decreases t, t.children.len() - from,
{
    let sub = t.children[from as int];
    let first = sub.walk(depth);
    if j < first.len() {
        lemma_walk_depth_is_hops(sub, links, depth, j);
        let x = first[j].1;
        let k = (first[j].0 - depth) as nat;
        assert forall|y: int, i: nat| hops(links, sub.id, y, i) implies y != t.id by {
            lemma_mirror_holds_reaching(sub, links, y, i);
            assert(!sub.has_id(t.id));
        }
        assert(links.contains_pair(sub.id, t.id));
        lemma_hops_one_more(links, t.id, sub.id, x, k);
    } else {
        lemma_walk_below_depth_is_hops(t, links, from + 1, depth, j - first.len());
    }
}

/// A walk of a well-formed hierarchy visits no node twice.
pub proof fn lemma_walk_visits_once(t: TreeNode, depth: nat)
    requires
        t.well_formed(),
    ensures
        ids_of(t.walk(depth)).no_duplicates(),
    decreases t, t.children.len() + 1,
{
    let below = t.walk_below(0, depth + 1);
    let whole = t.walk(depth);
    lemma_walk_below_visits_once(t, 0, depth + 1);
    assert forall|a: int, b: int|
        0 <= a < whole.len() && 0 <= b < whole.len() && a != b implies
        ids_of(whole)[a] != ids_of(whole)[b] by {
        if a > 0 && b > 0 {
            assert(ids_of(below)[a - 1] != ids_of(below)[b - 1]);
        } else {
            let other = if a == 0 { b } else { a };
            let x = below[other - 1].1;
            assert(visits_id(below, x));
            lemma_walk_below_visits_nodes(t, 0, depth + 1, x);
            let i = choose|i: int|
                0 <= i < t.children.len() && (#[trigger] t.children[i]).has_id(x);
            assert(!t.children[i].has_id(t.id));
        }
    }
}

/// The same of the walks of the children from the `from`-th on.
pub proof fn lemma_walk_below_visits_once(t: TreeNode, from: nat, depth: nat)
    requires
        t.well_formed(),
    ensures
        ids_of(t.walk_below(from, depth)).no_duplicates(),
    decreases t, t.children.len() - from,
{
    if from < t.children.len() {
        let sub = t.children[from as int];
        let first = sub.walk(depth);
        let rest = t.walk_below(from + 1, depth);
        let whole = t.walk_below(from, depth);
        lemma_walk_visits_once(sub, depth);
        lemma_walk_below_visits_once(t, from + 1, depth);
        assert forall|a: int, b: int| 0 <= a < b < whole.len() implies
            ids_of(whole)[a] != ids_of(whole)[b] by {
            if b < first.len() {
                assert(ids_of(first)[a] != ids_of(first)[b]);
            } else if a >= first.len() {
                assert(ids_of(rest)[a - first.len()] != ids_of(rest)[b - first.len()]);
            } else {
                let x = first[a].1;
                let y = rest[b - first.len()].1;
                assert(visits_id(first, x));
                assert(visits_id(rest, y));
                lemma_walk_visits_nodes(sub, depth, x);
                lemma_walk_below_visits_nodes(t, from + 1, depth, y);
                let i = choose|i: int|
                    from + 1 <= i < t.children.len() && (#[trigger] t.children[i]).has_id(y);
                if x == y {
                    assert(t.children[from as int].has_id(x));
                    assert(!t.children[i].has_id(x));
                }
            }
        }
    } else {
        assert(ids_of(t.walk_below(from, depth)) =~= Seq::empty());
    }
}

} // verus!
