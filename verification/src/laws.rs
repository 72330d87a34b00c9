use vstd::prelude::*;
use vstd::set_lib::{lemma_int_range, set_int_range};
use crate::record_facts::lemma_valid_reaches_root;
use crate::records::{hops, links_of, reaches, valid_records, BoneRecord};
use crate::tree_facts::{
    lemma_attached_are_nodes, lemma_mirror_attaches_links, lemma_mirror_holds_reaching,
    lemma_mirror_is_unique, lemma_mirrors_own_links, lemma_one_parent, lemma_parent_edge,
    lemma_walk_depth_is_hops, lemma_walk_visits_nodes, lemma_walk_visits_once,
};
use crate::tree_node::{as_visits, built_from, ids_of, names, visits_id, TreeNode};

verus! {

/// A hierarchy built from records holds exactly the records from which
/// following the parents arrives at its topmost node.
pub proof fn law_built_holds_what_reaches_top(records: Seq<BoneRecord>, tree: TreeNode, x: int)
    requires
        built_from(tree, records),
    ensures
        tree.has_id(x) <==> reaches(links_of(records), tree.id, x),
{
    let links = links_of(records);
    if tree.has_id(x) {
        lemma_walk_visits_nodes(tree, 0, x);
        let walk = tree.walk(0);
        let j = choose|j: int| 0 <= j < walk.len() && (#[trigger] walk[j]).1 == x;
        lemma_walk_depth_is_hops(tree, links, 0, j);
        assert(hops(links, tree.id, x, walk[j].0));
    }
    if reaches(links, tree.id, x) {
        let k = choose|k: nat| hops(links, tree.id, x, k);
        lemma_mirror_holds_reaching(tree, links, x, k);
    }
}

/// A hierarchy built from valid records leaves no record out, and its walk
/// visits every record, and each once.
pub proof fn law_build_visits_every_record_once(records: Seq<BoneRecord>, tree: TreeNode)
    requires
        valid_records(records),
        built_from(tree, records),
    ensures
        forall|i: int| 0 <= i < records.len() ==> tree.has_id(i),
        forall|i: int| 0 <= i < records.len() ==> visits_id(tree.walk(0), i),
        ids_of(tree.walk(0)).no_duplicates(),
        tree.walk(0).len() == records.len(),
{
    let links = links_of(records);
    let walk = tree.walk(0);
    let ids = ids_of(walk);
    let n = records.len();
    assert forall|i: int| 0 <= i < n implies tree.has_id(i) && visits_id(walk, i) by {
        let k = lemma_valid_reaches_root(records, tree.id, i);
        lemma_mirror_holds_reaching(tree, links, i, k);
        lemma_walk_visits_nodes(tree, 0, i);
    }
    lemma_walk_visits_once(tree, 0);
    ids.unique_seq_to_set();
    lemma_int_range(0, n as int);
    assert forall|x: int| ids.to_set().contains(x) <==> set_int_range(0, n as int).contains(x) by {
        if ids.to_set().contains(x) {
            let j = choose|j: int| 0 <= j < ids.len() && ids[j] == x;
            assert(walk[j].1 == x);
            assert(visits_id(walk, x));
            lemma_walk_visits_nodes(tree, 0, x);
            if x != tree.id {
                let p = lemma_parent_edge(tree, x);
                lemma_mirror_attaches_links(tree, links, p, x);
            }
            assert(links.dom().contains(x));
        }
        if 0 <= x < n {
            assert(visits_id(walk, x));
            let j = choose|j: int| 0 <= j < walk.len() && (#[trigger] walk[j]).1 == x;
            assert(ids[j] == x);
        }
    }
    assert(ids.to_set() =~= set_int_range(0, n as int));
}

/// A well-formed hierarchy is known by its topmost node and its
/// attachments: two that agree in both are the same. So a contract that says
/// which node is topmost and which node is attached under which says
/// everything, the order of siblings included.
pub proof fn law_attachments_fix_the_hierarchy(a: TreeNode, b: TreeNode)
    requires
        a.well_formed(),
        b.well_formed(),
        a.id == b.id,
        forall|p: int, c: int| a.attaches(p, c) <==> b.attaches(p, c),
    ensures
        a == b,
{
    let la = a.own_links();
    let lb = b.own_links();
    assert forall|c: int| la.dom().contains(c) <==> lb.dom().contains(c) by {
        if la.dom().contains(c) {
            let p = choose|p: int| a.attaches(p, c);
            assert(b.attaches(p, c));
        }
        if lb.dom().contains(c) {
            let p = choose|p: int| b.attaches(p, c);
            assert(a.attaches(p, c));
        }
    }
    assert forall|c: int| la.dom().contains(c) implies la[c] == lb[c] by {
        let p = choose|p: int| a.attaches(p, c);
        let q = choose|q: int| b.attaches(q, c);
        assert(a.attaches(q, c));
        lemma_one_parent(a, p, q, c);
    }
    assert(la =~= lb);
    lemma_mirrors_own_links(a);
    lemma_mirrors_own_links(b);
    lemma_mirror_is_unique(a, b, la);
}

/// The nodes of `inner` are nodes of `b`, where `inner` is a part of `a`
/// and `a` and `b` grew from the same hierarchy by the same entries.
proof fn lemma_part_is_held(
    start: TreeNode,
    first: Seq<(i32, i32)>,
    second: Seq<(i32, i32)>,
    a: TreeNode,
    b: TreeNode,
    inner: TreeNode,
    x: int,
)
    requires
        forall|e: (i32, i32)| first.contains(e) ==> second.contains(e),
        a.grown_from(start, first),
        b.grown_from(start, second),
        b.saturated(second),
        forall|p: int, c: int| inner.attaches(p, c) ==> a.attaches(p, c),
        b.has_id(inner.id),
        inner.has_id(x),
    ensures
        b.has_id(x),
    decreases inner,
{
    if inner.id != x {
        let i = choose|i: int|
            0 <= i < inner.children.len() && (#[trigger] inner.children[i]).has_id(x);
        let sub = inner.children[i];
        assert(inner.attaches(inner.id, sub.id));
        assert(a.attaches(inner.id, sub.id));
        if start.attaches(inner.id, sub.id) {
            assert(b.attaches(inner.id, sub.id));
            lemma_attached_are_nodes(b, inner.id, sub.id);
        } else {
            assert(names(first, sub.id, inner.id));
            let k = choose|k: int|
                0 <= k < first.len() && (#[trigger] first[k]).0 == sub.id && first[k].1 == inner.id;
            assert(first.contains(first[k]));
            assert(second.contains(first[k]));
            let l = choose|l: int| 0 <= l < second.len() && second[l] == first[k];
            assert(b.has_id(second[l].1 as int));
        }
        assert forall|p: int, c: int| sub.attaches(p, c) implies a.attaches(p, c) by {
            assert(inner.attaches(p, c));
        }
        lemma_part_is_held(start, first, second, a, b, sub, x);
    }
}

/// The entries of two sequences with the same members name the same.
proof fn lemma_same_members_name_alike(
    first: Seq<(i32, i32)>,
    second: Seq<(i32, i32)>,
    c: int,
    p: int,
)
    requires
        forall|e: (i32, i32)| first.contains(e) ==> second.contains(e),
        names(first, c, p),
    ensures
        names(second, c, p),
{
    let k = choose|k: int| 0 <= k < first.len() && (#[trigger] first[k]).0 == c && first[k].1 == p;
    assert(first.contains(first[k]));
    let l = choose|l: int| 0 <= l < second.len() && second[l] == first[k];
    assert(second[l].0 == c && second[l].1 == p);
}

/// The hierarchy that comes of attaching all entries that can be attached
/// does not depend on the order in which the entries are offered: no order
/// loses a node or holds one twice.
pub proof fn law_order_of_entries_is_immaterial(
    start: TreeNode,
    first: Seq<(i32, i32)>,
    second: Seq<(i32, i32)>,
    a: TreeNode,
    b: TreeNode,
)
    requires
        first.to_multiset() == second.to_multiset(),
        a.well_formed(),
        a.grown_from(start, first),
        a.saturated(first),
        b.well_formed(),
        b.grown_from(start, second),
        b.saturated(second),
    ensures
        a == b,
{
    broadcast use vstd::seq_lib::group_to_multiset_ensures;

    assert forall|e: (i32, i32)| first.contains(e) <==> second.contains(e) by {
        assert(first.contains(e) <==> first.to_multiset().count(e) > 0);
        assert(second.contains(e) <==> second.to_multiset().count(e) > 0);
    }
    assert forall|x: int| a.has_id(x) <==> b.has_id(x) by {
        if a.has_id(x) {
            lemma_part_is_held(start, first, second, a, b, a, x);
        }
        if b.has_id(x) {
            lemma_part_is_held(start, second, first, b, a, b, x);
        }
    }
    assert forall|p: int, c: int| a.attaches(p, c) <==> b.attaches(p, c) by {
        if names(first, c, p) {
            lemma_same_members_name_alike(first, second, c, p);
        }
        if names(second, c, p) {
            lemma_same_members_name_alike(second, first, c, p);
        }
        assert(a.has_id(c) <==> b.has_id(c));
    }
    law_attachments_fix_the_hierarchy(a, b);
}

/// Two walks of one hierarchy are the same sequence.
pub proof fn law_walks_of_one_hierarchy_agree(
    tree: TreeNode,
    first: Seq<(usize, i32)>,
    second: Seq<(usize, i32)>,
)
    requires
        as_visits(first) == tree.walk(0),
        as_visits(second) == tree.walk(0),
    ensures
        first == second,
{
    assert(first.len() == as_visits(first).len());
    assert(second.len() == as_visits(second).len());
    assert forall|k: int| 0 <= k < first.len() implies first[k] == second[k] by {
        assert(as_visits(first)[k] == as_visits(second)[k]);
    }
    assert(first =~= second);
}

/// At every node of a well-formed hierarchy the children stand in ascending
/// order of id.
pub proof fn law_siblings_ascend(tree: TreeNode, part: TreeNode, i: int, j: int)
    requires
        tree.well_formed(),
        tree.holds(part),
        0 <= i < j < part.children.len(),
    ensures
        part.children[i].id < part.children[j].id,
    decreases tree,
{
    if tree != part {
        let k = choose|k: int|
            0 <= k < tree.children.len() && (#[trigger] tree.children[k]).holds(part);
        law_siblings_ascend(tree.children[k], part, i, j);
    }
}

/// In the walk of a hierarchy built from records, the depth of a visit is
/// the number of steps that following the parents takes from the visited
/// record to the topmost node.
pub proof fn law_depth_is_number_of_hops(records: Seq<BoneRecord>, tree: TreeNode, j: int)
    requires
        built_from(tree, records),
        0 <= j < tree.walk(0).len(),
    ensures
        hops(links_of(records), tree.id, tree.walk(0)[j].1, tree.walk(0)[j].0),
{
    lemma_walk_depth_is_hops(tree, links_of(records), 0, j);
}

/// Two hierarchies built from the same records are the same hierarchy, and
/// so are walked and dumped alike.
pub proof fn law_rebuild_is_the_same(records: Seq<BoneRecord>, first: TreeNode, second: TreeNode)
    requires
        built_from(first, records),
        built_from(second, records),
    ensures
        first == second,
{
    lemma_mirror_is_unique(first, second, links_of(records));
}

} // verus!
