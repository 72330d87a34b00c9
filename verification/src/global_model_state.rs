use vstd::prelude::*;
use vstd::string::StringExecFns;
use crate::records::{
    has_sole_root, is_root, links_of, name_of, nameable, named, shown, sole_root, BoneRecord,
    ModelInfo,
};
use crate::placing::{
    in_turn, lemma_build_ends, lemma_build_starts, lemma_child_placed, lemma_not_yet_placed,
    lemma_placed_are_few, lemma_turn_over,
};
use crate::seq_facts::{lemma_filter_agree, lemma_filter_narrow, lemma_filter_push};
use crate::text::{dump_text, entry_text, push_decimal, push_line, push_tabs};
use crate::tree_facts::{
    lemma_attach_leaf, lemma_grow_child, lemma_grown_twice, lemma_walk_visits_nodes,
};
use crate::tree_node::{
    as_visits, built_from, is_absent, is_missing, left_out, names, offers, positions, TreeNode,
};

verus! {

/// Why a hierarchy could not be built, extended or read.
#[derive(Clone, Copy, Debug, PartialEq, Eq, Structural)]
pub enum HierarchyError {
    /// The records do not hold exactly one record without a parent.
    MissingRoot,
    /// The parent that a record names is not in the hierarchy.
    DanglingParent,
    /// A node of the hierarchy has no record to take its name from.
    IndexOutOfRange,
}

/// A bone hierarchy: a node and, in ascending id order, the hierarchies of
/// the bones attached to it.
#[derive(Debug)]
pub struct BoneTree {
    pub id: i32,
    pub child: Vec<BoneTree>,
}

impl View for BoneTree {
    type V = TreeNode;

    open spec fn view(&self) -> TreeNode
        decreases self,
    {
        TreeNode {
            id: self.id as int,
            children: Seq::new(
                self.child@.len(),
                |i: int|
                    if 0 <= i < self.child@.len() {
                        self.child@[i]@
                    } else {
                        TreeNode { id: 0, children: Seq::empty() }
                    },
            ),
        }
    }
}

impl BoneTree {
    /// A hierarchy that holds the single node `id`.
    pub fn new(id: i32) -> (tree: BoneTree)
        ensures
            tree@ == (TreeNode { id: id as int, children: Seq::empty() }),
            tree@.well_formed(),
    {
        let tree = BoneTree { id, child: Vec::new() };
        assert(tree@.children =~= Seq::empty());
        tree
    }

    /// Whether `id` names a node of this hierarchy.
    pub fn contains(&self, id: i32) -> (found: bool)
        ensures
            found == self@.has_id(id as int),
        decreases self,
    {
        if self.id == id {
            return true;
        }
        let mut i: usize = 0;
        while i < self.child.len()
            invariant
                0 <= i <= self.child@.len(),
                self.id != id,
                forall|j: int| 0 <= j < i ==> !(#[trigger] self@.children[j]).has_id(id as int),
            decreases self.child@.len() - i,
        {
            assert(self@.children[i as int] == self.child@[i as int]@);
            if self.child[i].contains(id) {
                return true;
            }
            i += 1;
        }
        false
    }

    /// Attaches the new node `child_index` under the node `child_parent`,
    /// wherever in the hierarchy that node stands, in the place that the
    /// ascending order of its siblings gives it. Where no node has the id
    /// `child_parent`, nothing changes and the error says so.
    pub fn append(&mut self, child_index: i32, child_parent: i32) -> (res: Result<
        (),
        HierarchyError,
    >)
        requires
            old(self)@.well_formed(),
            !old(self)@.has_id(child_index as int),
        ensures
            final(self)@.well_formed(),
            res is Ok <==> old(self)@.has_id(child_parent as int),
            res is Ok ==> final(self)@.grew_by(
                old(self)@,
                child_parent as int,
                child_index as int,
            ),
            res is Err ==> res == Err::<(), HierarchyError>(HierarchyError::DanglingParent)
                && final(self)@ == old(self)@,
        decreases old(self)@,
    {
        let ghost before = self@;
        if self.id == child_parent {
            let mut pos: usize = 0;
            while pos < self.child.len() && self.child[pos].id < child_index
                invariant
                    0 <= pos <= self.child@.len(),
                    self@ == before,
                    forall|j: int|
                        0 <= j < pos ==> (#[trigger] before.children[j]).id < child_index,
                decreases self.child@.len() - pos,
            {
                assert(before.children[pos as int] == self.child@[pos as int]@);
                pos += 1;
            }
            proof {
                assert forall|j: int| pos <= j < before.children.len() implies
                    child_index < (#[trigger] before.children[j]).id by {
                    assert(before.children[pos as int] == self.child@[pos as int]@);
                    assert(before.children[j].has_id(before.children[j].id));
                    assert(before.children[j].id != child_index);
                    if j > pos {
                        assert(before.children[pos as int].id < before.children[j].id);
                    }
                }
            }
            self.child.insert(pos, BoneTree::new(child_index));
            proof {
                assert(self@.children =~= before.children.insert(
                    pos as int,
                    TreeNode::leaf(child_index as int),
                ));
                lemma_attach_leaf(before, self@, pos as int, child_index as int);
            }
            return Ok(());
        }
        let mut i: usize = 0;
        while i < self.child.len()
            invariant
                0 <= i <= self.child@.len(),
                self@ == before,
                before == old(self)@,
                before.well_formed(),
                !before.has_id(child_index as int),
                before.id != child_parent,
                forall|j: int|
                    0 <= j < i ==> !(#[trigger] before.children[j]).has_id(child_parent as int),
            decreases self.child@.len() - i,
        {
            let ghost small = self.child@[i as int]@;
            assert(before.children[i as int] == small);
            assert(!small.has_id(child_index as int));
            let sub = &mut self.child[i];
            let res = sub.append(child_index, child_parent);
            proof {
                assert(self@.children.len() == before.children.len());
                assert forall|j: int| 0 <= j < before.children.len() && j != i implies
                    self@.children[j] == before.children[j] by {}
                assert(self@.children[i as int] == self.child@[i as int]@);
            }
            if res.is_ok() {
                proof {
                    lemma_grow_child(
                        before,
                        self@,
                        i as int,
                        child_parent as int,
                        child_index as int,
                    );
                    assert(before.has_id(child_parent as int));
                }
                return Ok(());
            }
            proof {
                assert(self@.children =~= before.children);
            }
            i += 1;
        }
        Err(HierarchyError::DanglingParent)
    }

    /// Offers each entry of `pending` once, in order: the id with the
    /// parent that it names. Returns, in order, the entries whose parent
    /// was not in the hierarchy when their turn came.
    fn offer_each(&mut self, pending: &[(i32, i32)]) -> (left: Vec<(i32, i32)>)
        requires
            old(self)@.well_formed(),
            old(self)@.admits(pending@),
        ensures
            final(self)@.well_formed(),
            final(self)@.grown_from(old(self)@, pending@),
            final(self)@.admits(left@),
            left@ == pending@.filter(is_absent(final(self)@)),
            left@.len() == pending@.len() ==> final(self)@ == old(self)@
                && final(self)@.none_fits(pending@),
    {
        let ghost start = self@;
        let mut left: Vec<(i32, i32)> = Vec::new();
        let mut i: usize = 0;
        proof {
            assert(pending@.take(0) =~= Seq::empty());
            reveal(Seq::filter);
            assert(pending@.take(0).filter(is_absent(self@)) =~= Seq::empty());
        }
        while i < pending.len()
            invariant
                0 <= i <= pending@.len(),
                start == old(self)@,
                start.well_formed(),
                start.admits(pending@),
                self@.well_formed(),
                self@.grown_from(start, pending@),
                forall|k: int|
                    i <= k < pending@.len() ==> !self@.has_id((#[trigger] pending@[k]).0 as int),
                left@ == pending@.take(i as int).filter(is_absent(self@)),
                left@.len() <= i,
                forall|a: int|
                    0 <= a < left@.len() ==> exists|k: int|
                        0 <= k < i && #[trigger] pending@[k] == #[trigger] left@[a],
                forall|a: int, b: int|
                    0 <= a < b < left@.len() ==> (#[trigger] left@[a]).0 != (#[trigger] left@[b]).0,
                left@.len() == i ==> self@ == start && forall|k: int|
                    0 <= k < i ==> !self@.has_id((#[trigger] pending@[k]).1 as int),
            decreases pending@.len() - i,
        {
            let entry = pending[i];
            let ghost before = self@;
            let ghost seen = pending@.take(i as int);
            proof {
                assert(pending@.take(i + 1) =~= seen.push(entry));
            }
            match self.append(entry.0, entry.1) {
                Ok(()) => {
                    proof {
                        let now = self@;
                        let c = entry.0 as int;
                        let p = entry.1 as int;
                        assert(now.grew_by(before, p, c));
                        assert(before.has_id(p));
                        // The entries seen so far are filtered as before.
                        assert forall|k: int| 0 <= k < seen.len() implies
                            is_absent(before)(#[trigger] seen[k]) == is_absent(now)(seen[k]) by {
                            assert(seen[k] == pending@[k]);
                            assert(pending@[k].0 != pending@[i as int].0);
                        }
                        lemma_filter_agree(seen, is_absent(before), is_absent(now));
                        lemma_filter_push(seen, entry, is_absent(now));
                        assert(now.has_id(c));
                        // What the hierarchy has become, from where it started.
                        assert forall|x: int|
                            now.has_id(x) && !start.has_id(x) implies offers(pending@, x) by {
                            if x == c {
                                assert(pending@[i as int].0 == c);
                            } else {
                                assert(before.has_id(x));
                            }
                        }
                        assert forall|k: int|
                            0 <= k < pending@.len()
                                && now.has_id((#[trigger] pending@[k]).0 as int) implies
                            now.has_id(pending@[k].1 as int) by {
                            if pending@[k].0 as int == c {
                                assert(k == i) by {
                                    if k < i {
                                        assert(pending@[k].0 != pending@[i as int].0);
                                    } else if k > i {
                                        assert(pending@[i as int].0 != pending@[k].0);
                                    }
                                }
                                assert(now.has_id(p));
                            } else {
                                assert(before.has_id(pending@[k].0 as int));
                                assert(before.has_id(pending@[k].1 as int));
                            }
                        }
                        assert forall|q: int, d: int| #![trigger now.attaches(q, d)]
                            now.attaches(q, d) <==> start.attaches(q, d) || (names(pending@, d, q)
                                && now.has_id(d)) by {
                            if q == p && d == c {
                                assert(pending@[i as int].0 == d && pending@[i as int].1 == q);
                            }
                            if names(pending@, d, q) && now.has_id(d) && !before.has_id(d) {
                                let k = choose|k: int|
                                    0 <= k < pending@.len() && (#[trigger] pending@[k]).0 == d
                                        && pending@[k].1 == q;
                                assert(d == c);
                                if k < i {
                                    assert(pending@[k].0 != pending@[i as int].0);
                                } else if k > i {
                                    assert(pending@[i as int].0 != pending@[k].0);
                                }
                            }
                            assert(before.attaches(q, d) <==> start.attaches(q, d) || (names(
                                pending@,
                                d,
                                q,
                            ) && before.has_id(d)));
                        }
                        assert forall|k: int| i + 1 <= k < pending@.len() implies
                            !now.has_id((#[trigger] pending@[k]).0 as int) by {
                            assert(pending@[i as int].0 != pending@[k].0);
                        }
                    }
                },
                Err(_) => {
                    proof {
                        lemma_filter_push(seen, entry, is_absent(self@));
                    }
                    left.push(entry);
                    proof {
                        assert(pending@[i as int] == left@[left@.len() - 1]);
                    }
                },
            }
            i += 1;
        }
        proof {
            assert(pending@.take(pending@.len() as int) =~= pending@);
            assert forall|a: int|
                0 <= a < left@.len() implies !self@.has_id((#[trigger] left@[a]).0 as int) by {
                pending@.lemma_filter_pred(is_absent(self@), a);
            }
        }
        left
    }

    /// Attaches every entry of `entries` that can be attached, whatever the
    /// order they come in: each entry is an id with the parent that it
    /// names, and an entry whose parent is not yet in the hierarchy is
    /// offered again after the others, until none of those left finds its
    /// parent. Returns the ids that were left out, in the order of
    /// `entries`.
    pub fn append_all(&mut self, entries: &[(i32, i32)]) -> (skipped: Vec<i32>)
        requires
            old(self)@.well_formed(),
            old(self)@.admits(entries@),
        ensures
            final(self)@.well_formed(),
            final(self)@.grown_from(old(self)@, entries@),
            final(self)@.saturated(entries@),
            skipped@ == left_out(entries@, final(self)@),
    {
        let ghost start = self@;
        let mut pending = self.offer_each(entries);
        let mut offered: usize = entries.len();
        while pending.len() < offered
            invariant
                start == old(self)@,
                start.admits(entries@),
                self@.well_formed(),
                self@.grown_from(start, entries@),
                self@.admits(pending@),
                pending@ == entries@.filter(is_absent(self@)),
                pending@.len() <= offered,
                pending@.len() == offered ==> self@.saturated(entries@),
            decreases offered,
        {
            let ghost mid = self@;
            let ghost prev = pending@;
            offered = pending.len();
            let next = self.offer_each(pending.as_slice());
            proof {
                let end = self@;
                assert forall|a: int|
                    0 <= a < prev.len() implies entries@.contains(#[trigger] prev[a]) by {
                    assert(prev.contains(prev[a]));
                    entries@.lemma_filter_contains_rev(is_absent(mid), prev[a]);
                }
                lemma_grown_twice(start, mid, end, entries@, prev);
                assert forall|k: int|
                    0 <= k < entries@.len() && is_absent(end)(#[trigger] entries@[k]) implies
                    is_absent(mid)(entries@[k]) by {}
                lemma_filter_narrow(entries@, is_absent(mid), is_absent(end));
                if next@.len() == offered {
                    assert forall|k: int|
                        0 <= k < entries@.len()
                            && end.has_id((#[trigger] entries@[k]).1 as int) implies
                        end.has_id(entries@[k].0 as int) by {
                        if !end.has_id(entries@[k].0 as int) {
                            entries@.lemma_filter_contains(is_absent(mid), k);
                            let a = choose|a: int| 0 <= a < prev.len() && prev[a] == entries@[k];
                            assert(!end.has_id(prev[a].1 as int));
                        }
                    }
                }
            }
            pending = next;
        }
        let mut skipped: Vec<i32> = Vec::new();
        let mut j: usize = 0;
        while j < pending.len()
            invariant
                0 <= j <= pending@.len(),
                skipped@ == pending@.take(j as int).map_values(|e: (i32, i32)| e.0),
            decreases pending@.len() - j,
        {
            skipped.push(pending[j].0);
            proof {
                assert(pending@.take(j + 1) =~= pending@.take(j as int).push(pending@[j as int]));
                assert(skipped@ =~= pending@.take(j + 1).map_values(|e: (i32, i32)| e.0));
            }
            j += 1;
        }
        proof {
            assert(pending@.take(pending@.len() as int) =~= pending@);
        }
        skipped
    }

    /// The position of the only record without a parent, or `None` where
    /// there is no such record or more than one.
    fn find_sole_root(records: &[BoneRecord]) -> (found: Option<usize>)
        ensures
            match found {
                Some(r) => sole_root(links_of(records@), r as int),
                None => !has_sole_root(links_of(records@)),
            },
    {
        let ghost links = links_of(records@);
        let mut first: Option<usize> = None;
        let mut second = false;
        let mut i: usize = 0;
        while i < records.len()
            invariant
                0 <= i <= records@.len(),
                links == links_of(records@),
                first is None ==> !second && forall|j: int| 0 <= j < i ==> !is_root(links, j),
                first matches Some(r) ==> r < i && is_root(links, r as int),
                first matches Some(r) ==> (second <==> exists|j: int|
                    0 <= j < i && j != r && is_root(links, j)),
            decreases records@.len() - i,
        {
            if records[i].parent == -1 {
                assert(is_root(links, i as int));
                if first.is_some() {
                    second = true;
                } else {
                    first = Some(i);
                }
            }
            i += 1;
        }
        match first {
            Some(r) if !second => {
                assert(sole_root(links, r as int));
                Some(r)
            },
            Some(r) => {
                proof {
                    let j = choose|j: int| 0 <= j < i && j != r && is_root(links, j);
                    assert forall|q: int| !sole_root(links, q) by {
                        if sole_root(links, q) {
                            assert(q == r);
                            assert(q == j);
                        }
                    }
                }
                None
            },
            None => {
                assert forall|q: int| !sole_root(links, q) by {}
                None
            },
        }
    }

    /// Builds the hierarchy of `records`: its topmost node is the only
    /// record without a parent, and every record that leads to it through
    /// the parents stands directly under its parent, siblings in ascending
    /// order of position, in whatever order the records come. A record that
    /// does not lead to it (its parent is no position, or it lies on a
    /// cycle) is left out; `unattached` lists those. Fails where no record
    /// is without a parent, and where more than one is.
    ///
    /// The nodes are placed from the top down: each node that is placed has
    /// its turn, in which the records are searched for its children. So the
    /// records are read once for each node, whatever their order.
    pub fn from_iter(records: &[BoneRecord]) -> (res: Result<BoneTree, HierarchyError>)
        requires
            records@.len() <= i32::MAX,
        ensures
            match res {
                Ok(tree) => built_from(tree@, records@),
                Err(e) => e == HierarchyError::MissingRoot && !has_sole_root(links_of(records@)),
            },
    {
        let ghost links = links_of(records@);
        let root = match Self::find_sole_root(records) {
            Some(r) => r,
            None => {
                return Err(HierarchyError::MissingRoot);
            },
        };
        let mut tree = BoneTree::new(root as i32);
        let mut placed: Vec<i32> = Vec::new();
        placed.push(root as i32);
        let mut next: usize = 0;
        proof {
            assert(is_root(links, root as int));
            assert(placed@ =~= seq![root as i32]);
            lemma_build_starts(tree@, links, records@.len(), root as i32);
        }
        while next < placed.len()
            invariant
                records@.len() <= i32::MAX,
                links == links_of(records@),
                is_root(links, root as int),
                tree@.well_formed(),
                tree@.id == root,
                in_turn(tree@, placed@, links, records@.len(), next as int, 0),
            decreases records@.len() - next,
        {
            proof {
                lemma_placed_are_few(placed@, tree@, records@.len());
            }
            let parent = placed[next];
            let mut at: usize = 0;
            while at < records.len()
                invariant
                    0 <= at <= records@.len() <= i32::MAX,
                    links == links_of(records@),
                    is_root(links, root as int),
                    tree@.well_formed(),
                    tree@.id == root,
                    next < placed@.len(),
                    placed@[next as int] == parent,
                    in_turn(tree@, placed@, links, records@.len(), next as int, at as int),
                decreases records@.len() - at,
            {
                if records[at].parent == parent {
                    let ghost before = tree@;
                    let ghost so_far = placed@;
                    proof {
                        lemma_not_yet_placed(
                            before,
                            so_far,
                            links,
                            records@.len(),
                            next as int,
                            at as int,
                        );
                    }
                    let res = tree.append(at as i32, parent);
                    placed.push(at as i32);
                    proof {
                        assert(res is Ok);
                        lemma_child_placed(
                            before,
                            tree@,
                            so_far,
                            links,
                            records@.len(),
                            next as int,
                            at as int,
                        );
                    }
                }
                at += 1;
            }
            proof {
                lemma_turn_over(tree@, placed@, links, records@.len(), next as int);
            }
            next += 1;
        }
        proof {
            lemma_build_ends(tree@, placed@, links, records@.len());
        }
        Ok(tree)
    }

    /// Writes the walk of this hierarchy at the end of `out`, this node at
    /// the depth `depth`.
    fn walk_into(&self, depth: usize, out: &mut Vec<(usize, i32)>)
        requires
            depth <= old(out)@.len(),
        ensures
            as_visits(final(out)@) == as_visits(old(out)@) + self@.walk(depth as nat),
        decreases self,
    {
        let ghost whole = as_visits(old(out)@) + self@.walk(depth as nat);
        out.push((depth, self.id));
        proof {
            assert(as_visits(out@) =~= as_visits(old(out)@) + seq![(depth as nat, self@.id)]);
            assert(as_visits(out@) + self@.walk_below(0, (depth + 1) as nat) =~= whole);
        }
        let mut i: usize = 0;
        while i < self.child.len()
            invariant
                0 <= i <= self.child@.len(),
                depth < out.len(),
                as_visits(out@) + self@.walk_below(i as nat, (depth + 1) as nat) == whole,
            decreases self.child@.len() - i,
        {
            let ghost so_far = as_visits(out@);
            assert(self@.children[i as int] == self.child@[i as int]@);
            self.child[i].walk_into(depth + 1, out);
            proof {
                let sub = self@.children[i as int].walk((depth + 1) as nat);
                assert(self@.walk_below(i as nat, (depth + 1) as nat) == sub + self@.walk_below(
                    (i + 1) as nat,
                    (depth + 1) as nat,
                ));
                assert(as_visits(out@) == so_far + sub);
                let rest = self@.walk_below((i + 1) as nat, (depth + 1) as nat);
                assert(as_visits(out@) + rest =~= so_far + (sub + rest));
                assert(out@.len() == as_visits(out@).len());
                assert(so_far.len() <= as_visits(out@).len());
            }
            i += 1;
        }
        proof {
            assert(self@.walk_below(i as nat, (depth + 1) as nat) =~= Seq::empty());
            assert(as_visits(out@) =~= whole);
        }
    }

    /// The nodes of this hierarchy in depth-first order, a node before its
    /// children and the children in ascending order of id, each with its
    /// depth below this node.
    pub fn walk(&self) -> (visits: Vec<(usize, i32)>)
        ensures
            as_visits(visits@) == self@.walk(0),
    {
        let mut visits: Vec<(usize, i32)> = Vec::new();
        self.walk_into(0, &mut visits);
        proof {
            assert(as_visits(Seq::<(usize, i32)>::empty()) =~= Seq::empty());
            assert(as_visits(visits@) =~= self@.walk(0));
        }
        visits
    }

    /// The walk of this hierarchy with the name of each node: "Root" for
    /// the node -1, which stands above all records, and for every other
    /// node the name of the record at its id. Fails where a node has no
    /// record.
    pub fn render(&self, data_source: &[BoneRecord]) -> (res: Result<
        Vec<(usize, i32, String)>,
        HierarchyError,
    >)
        ensures
            res is Ok <==> forall|x: int| self@.has_id(x) ==> nameable(data_source@, x),
            res matches Ok(rows) ==> shown(rows@) == named(self@.walk(0), data_source@),
            res matches Err(e) ==> e == HierarchyError::IndexOutOfRange,
    {
        let visits = self.walk();
        let ghost walk = self@.walk(0);
        let mut rows: Vec<(usize, i32, String)> = Vec::new();
        let mut k: usize = 0;
        proof {
            assert(walk.len() == visits@.len());
            assert(shown(rows@) =~= named(walk.take(0), data_source@));
        }
        while k < visits.len()
            invariant
                0 <= k <= visits@.len(),
                walk == self@.walk(0),
                as_visits(visits@) == walk,
                shown(rows@) == named(walk.take(k as int), data_source@),
                forall|j: int| 0 <= j < k ==> nameable(data_source@, (#[trigger] walk[j]).1),
            decreases visits@.len() - k,
        {
            let (depth, id) = visits[k];
            assert(walk[k as int] == (depth as nat, id as int));
            let name = if id == -1 {
                "Root".to_owned()
            } else if id >= 0 && (id as usize) < data_source.len() {
                data_source[id as usize].name.clone()
            } else {
                proof {
                    lemma_walk_visits_nodes(self@, 0, id as int);
                    assert(self@.has_id(id as int));
                }
                return Err(HierarchyError::IndexOutOfRange);
            };
            assert(name@ == name_of(data_source@, id as int));
            let ghost before = rows@;
            rows.push((depth, id, name));
            proof {
                assert(walk.take(k + 1) =~= walk.take(k as int).push(walk[k as int]));
                assert(shown(rows@) =~= shown(before).push((depth as nat, id as int, name@)));
                assert(shown(rows@) =~= named(walk.take(k + 1), data_source@));
            }
            k += 1;
        }
        proof {
            assert(walk.take(walk.len() as int) =~= walk);
            assert forall|x: int| self@.has_id(x) implies nameable(data_source@, x) by {
                lemma_walk_visits_nodes(self@, 0, x);
                let j = choose|j: int| 0 <= j < walk.len() && (#[trigger] walk[j]).1 == x;
            }
        }
        Ok(rows)
    }

    /// The hierarchy as text, one line for each node in the order of the
    /// walk: the id, a colon, the name and a line feed. The line of this
    /// node starts at the margin; the line of a node `d` levels below it
    /// starts with `indent_level + d - 1` tabs. Fails where a node has no
    /// record.
    pub fn dump_tree(&self, indent_level: usize, data_source: &[BoneRecord]) -> (res: Result<
        String,
        HierarchyError,
    >)
        ensures
            res is Ok <==> forall|x: int| self@.has_id(x) ==> nameable(data_source@, x),
            res matches Ok(text) ==> text@ == dump_text(
                named(self@.walk(0), data_source@),
                indent_level as nat,
            ),
            res matches Err(e) ==> e == HierarchyError::IndexOutOfRange,
    {
        let rows = match self.render(data_source) {
            Ok(rows) => rows,
            Err(e) => {
                return Err(e);
            },
        };
        let ghost all = shown(rows@);
        let mut text = String::new();
        let mut k: usize = 0;
        proof {
            assert(all.take(0) =~= Seq::empty());
        }
        while k < rows.len()
            invariant
                0 <= k <= rows@.len(),
                all == shown(rows@),
                text@ == dump_text(all.take(k as int), indent_level as nat),
            decreases rows@.len() - k,
        {
            proof {
                let upto = all.take(k + 1);
                assert(upto.drop_last() =~= all.take(k as int));
                assert(upto.last() == all[k as int]);
            }
            push_line(&mut text, indent_level, rows[k].0, rows[k].1, rows[k].2.as_str());
            k += 1;
        }
        proof {
            assert(all.take(all.len() as int) =~= all);
        }
        Ok(text)
    }

    /// The text with which the topmost node of this hierarchy stands in a
    /// list of nodes, behind `indent_level` tabs: its id, a colon and its
    /// name; "-1:Root", without tabs, for the node above all records. Fails
    /// where the node has no record.
    pub fn label(&self, indent_level: usize, data_source: &[BoneRecord]) -> (res: Result<
        String,
        HierarchyError,
    >)
        ensures
            res is Ok <==> nameable(data_source@, self@.id),
            res matches Ok(text) ==> text@ == entry_text(
                indent_level as nat,
                self@.id,
                name_of(data_source@, self@.id),
            ),
            res matches Err(e) ==> e == HierarchyError::IndexOutOfRange,
    {
        if self.id == -1 {
            return Ok("-1:Root".to_owned());
        }
        if self.id < 0 || self.id as usize >= data_source.len() {
            return Err(HierarchyError::IndexOutOfRange);
        }
        let mut text = String::new();
        push_tabs(&mut text, indent_level);
        push_decimal(&mut text, self.id);
        proof {
            reveal_strlit(":");
            assert(":"@ =~= seq![':']);
        }
        text.append(":");
        text.append(data_source[self.id as usize].name.as_str());
        proof {
            assert(text@ =~= entry_text(
                indent_level as nat,
                self@.id,
                name_of(data_source@, self@.id),
            ));
        }
        Ok(text)
    }

    /// The positions among the first `record_count` that are no node of
    /// this hierarchy, in ascending order: the records that a build has
    /// left out.
    pub fn unattached(&self, record_count: usize) -> (missing: Vec<i32>)
        requires
            record_count <= i32::MAX,
        ensures
            missing@ == positions(record_count as nat).filter(is_missing(self@)),
    {
        let ghost all = positions(record_count as nat);
        let mut missing: Vec<i32> = Vec::new();
        let mut i: usize = 0;
        proof {
            reveal(Seq::filter);
            assert(all.take(0).filter(is_missing(self@)) =~= Seq::empty());
        }
        while i < record_count
            invariant
                0 <= i <= record_count <= i32::MAX,
                all == positions(record_count as nat),
                missing@ == all.take(i as int).filter(is_missing(self@)),
            decreases record_count - i,
        {
            proof {
                assert(all.take(i + 1) =~= all.take(i as int).push(i as i32));
                lemma_filter_push(all.take(i as int), i as i32, is_missing(self@));
            }
            if !self.contains(i as i32) {
                missing.push(i as i32);
            }
            i += 1;
        }
        proof {
            assert(all.take(record_count as int) =~= all);
        }
        missing
    }
}

/// What the editor knows of an opened model.
#[derive(Debug)]
pub struct Model {
    pub name: String,
    pub bone_tree: Option<BoneTree>,
}

impl Model {
    /// A model with the name that `model_info` gives it, and no bones yet.
    pub fn new(model_info: ModelInfo) -> (model: Model)
        ensures
            model.name@ == model_info.name@,
            model.bone_tree is None,
    {
        Model { name: model_info.name, bone_tree: None }
    }

    /// Builds the hierarchy of `bones` and keeps it. Where `bones` do not
    /// hold exactly one bone without a parent, the model is left without a
    /// hierarchy.
    pub fn load_bones(&mut self, bones: &[BoneRecord]) -> (res: Result<(), HierarchyError>)
        requires
            bones@.len() <= i32::MAX,
        ensures
            final(self).name == old(self).name,
            match res {
                Ok(()) => final(self).bone_tree matches Some(tree) && built_from(tree@, bones@),
                Err(e) => e == HierarchyError::MissingRoot && !has_sole_root(links_of(bones@))
                    && final(self).bone_tree is None,
            },
    {
        match BoneTree::from_iter(bones) {
            Ok(tree) => {
                self.bone_tree = Some(tree);
                Ok(())
            },
            Err(e) => {
                self.bone_tree = None;
                Err(e)
            },
        }
    }
}

} // verus!
