use vstd::prelude::*;
use crate::records::{links_of, sole_root, BoneRecord};

verus! {

/// The mathematical shape of a bone hierarchy: a node id and the ordered
/// sequence of its sub-hierarchies.
pub struct TreeNode {
    pub id: int,
    pub children: Seq<TreeNode>,
}

impl TreeNode {
    /// `x` is the id of this node or of one of its descendants.
    pub open spec fn has_id(self, x: int) -> bool
        decreases self,
    {
        self.id == x || exists|i: int|
            0 <= i < self.children.len() && (#[trigger] self.children[i]).has_id(x)
    }

    /// Some node with id `p` in this hierarchy has a direct child with id `c`.
    pub open spec fn attaches(self, p: int, c: int) -> bool
        decreases self,
    {
        ||| (self.id == p && exists|i: int|
            0 <= i < self.children.len() && (#[trigger] self.children[i]).id == c)
        ||| exists|i: int|
            0 <= i < self.children.len() && (#[trigger] self.children[i]).attaches(p, c)
    }

    /// Siblings ascend strictly by id at every node, and no id occurs twice.
    pub open spec fn well_formed(self) -> bool
        decreases self,
    {
        &&& forall|i: int, j: int|
            0 <= i < j < self.children.len() ==> #[trigger] self.children[i].id
                < #[trigger] self.children[j].id
        &&& forall|i: int|
            0 <= i < self.children.len() ==> !(#[trigger] self.children[i]).has_id(self.id)
        &&& forall|i: int, j: int, x: int|
            0 <= i < self.children.len() && 0 <= j < self.children.len() && i != j
                && #[trigger] self.children[i].has_id(x) ==> !(#[trigger] self.children[j].has_id(
                x,
            ))
        &&& forall|i: int|
            0 <= i < self.children.len() ==> (#[trigger] self.children[i]).well_formed()
    }

    /// Every node's children are, in ascending order, exactly the ids that
    /// `links` sends to the node: the hierarchy is `links`, a map from
    /// child to parent, turned over.
    pub open spec fn mirrors(self, links: Map<int, int>) -> bool
        decreases self,
    {
        &&& forall|i: int, j: int|
            0 <= i < j < self.children.len() ==> #[trigger] self.children[i].id
                < #[trigger] self.children[j].id
        &&& forall|i: int|
            0 <= i < self.children.len() ==> links.contains_pair(
                (#[trigger] self.children[i]).id,
                self.id,
            )
        &&& forall|c: int| #[trigger]
            links.contains_pair(c, self.id) ==> exists|i: int|
                0 <= i < self.children.len() && (#[trigger] self.children[i]).id == c
        &&& forall|i: int|
            0 <= i < self.children.len() ==> (#[trigger] self.children[i]).mirrors(links)
    }

    /// Every attachment of this hierarchy is a link, every id that a link
    /// sends to a node of the hierarchy is in it too, and no link sends the
    /// topmost node to a node below it.
    pub open spec fn closed_under(self, links: Map<int, int>) -> bool {
        &&& forall|p: int, c: int|
            #![trigger self.attaches(p, c)]
            self.attaches(p, c) ==> links.contains_pair(c, p)
        &&& forall|p: int, c: int| #[trigger]
            links.contains_pair(c, p) && self.has_id(p) ==> self.has_id(c)
        &&& forall|p: int| #[trigger] links.contains_pair(self.id, p) ==> !self.has_id(p)
    }

    /// The nodes in depth-first order, a node before its children and the
    /// children in their order, each with its depth, which is `depth` for
    /// this node.
    pub open spec fn walk(self, depth: nat) -> Seq<(nat, int)>
        decreases self, self.children.len() + 1,
    {
        seq![(depth, self.id)] + self.walk_below(0, depth + 1)
    }

    /// The walks of the children from the `from`-th on, one after the
    /// other, each child at the depth `depth`.
    pub open spec fn walk_below(self, from: nat, depth: nat) -> Seq<(nat, int)>
        decreases self, self.children.len() - from,
    {
        if from >= self.children.len() {
            Seq::empty()
        } else {
            self.children[from as int].walk(depth) + self.walk_below(from + 1, depth)
        }
    }

    /// The attachments of this hierarchy as a map from child to parent.
    pub open spec fn own_links(self) -> Map<int, int> {
        Map::new(
            |c: int| exists|p: int| self.attaches(p, c),
            |c: int| choose|p: int| self.attaches(p, c),
        )
    }

    /// The ids of the children, in their order.
    pub open spec fn child_ids(self) -> Seq<int> {
        Seq::new(self.children.len(), |i: int| self.children[i].id)
    }

    /// `part` is this hierarchy or the hierarchy below one of its nodes.
    pub open spec fn holds(self, part: TreeNode) -> bool
        decreases self,
    {
        self == part || exists|i: int|
            0 <= i < self.children.len() && (#[trigger] self.children[i]).holds(part)
    }

    /// The node `id` without children.
    pub open spec fn leaf(id: int) -> TreeNode {
        TreeNode { id, children: Seq::empty() }
    }

    /// This hierarchy is `before` with the one new node `c`, attached
    /// directly under the node `p`.
    pub open spec fn grew_by(self, before: TreeNode, p: int, c: int) -> bool {
        &&& self.id == before.id
        &&& forall|x: int| self.has_id(x) <==> before.has_id(x) || x == c
        &&& forall|q: int, d: int|
            self.attaches(q, d) <==> before.attaches(q, d) || (q == p && d == c)
    }
}

/// What a hierarchy built from `records` is: its topmost node is the only
/// record without a parent, it is well formed, and it turns the parents of
/// the records over.
pub open spec fn built_from(tree: TreeNode, records: Seq<BoneRecord>) -> bool {
    &&& sole_root(links_of(records), tree.id)
    &&& tree.well_formed()
    &&& tree.mirrors(links_of(records))
}

/// What a walk holds, as depths and ids.
pub open spec fn as_visits(rows: Seq<(usize, i32)>) -> Seq<(nat, int)> {
    rows.map_values(|row: (usize, i32)| (row.0 as nat, row.1 as int))
}

/// The ids of a walk, without the depths.
pub open spec fn ids_of(walk: Seq<(nat, int)>) -> Seq<int> {
    walk.map_values(|visit: (nat, int)| visit.1)
}

/// Some visit of `walk` is to the node `x`.
pub open spec fn visits_id(walk: Seq<(nat, int)>, x: int) -> bool {
    exists|k: int| 0 <= k < walk.len() && (#[trigger] walk[k]).1 == x
}

/// Some entry of `entries`, each an id with the parent that it names, has
/// the id `c`.
pub open spec fn offers(entries: Seq<(i32, i32)>, c: int) -> bool {
    exists|k: int| 0 <= k < entries.len() && (#[trigger] entries[k]).0 == c
}

/// Some entry of `entries` has the id `c` and names the parent `p`.
pub open spec fn names(entries: Seq<(i32, i32)>, c: int, p: int) -> bool {
    exists|k: int| 0 <= k < entries.len() && (#[trigger] entries[k]).0 == c && entries[k].1 == p
}

/// The entries whose id is not in `tree`.
pub open spec fn is_absent(tree: TreeNode) -> spec_fn((i32, i32)) -> bool {
    |e: (i32, i32)| !tree.has_id(e.0 as int)
}

/// The positions of `n` records, in order.
pub open spec fn positions(n: nat) -> Seq<i32> {
    Seq::new(n, |i: int| i as i32)
}

/// The positions that are not in `tree`.
pub open spec fn is_missing(tree: TreeNode) -> spec_fn(i32) -> bool {
    |i: i32| !tree.has_id(i as int)
}

/// The ids of `entries` that are not in `tree`, in the order of `entries`.
pub open spec fn left_out(entries: Seq<(i32, i32)>, tree: TreeNode) -> Seq<i32> {
    entries.filter(is_absent(tree)).map_values(|e: (i32, i32)| e.0)
}

impl TreeNode {
    /// No two of `entries` have the same id, and none has the id of a node
    /// of this hierarchy.
    pub open spec fn admits(self, entries: Seq<(i32, i32)>) -> bool {
        &&& forall|i: int, j: int|
            0 <= i < j < entries.len() ==> (#[trigger] entries[i]).0 != (#[trigger] entries[j]).0
        &&& forall|i: int| 0 <= i < entries.len() ==> !self.has_id((#[trigger] entries[i]).0 as int)
    }

    /// This hierarchy is `before` grown by some of `entries`: it keeps the
    /// nodes and attachments of `before`, every other node is the id of an
    /// entry and sits directly under the parent that its entry names, and
    /// that parent is in the hierarchy.
    pub open spec fn grown_from(self, before: TreeNode, entries: Seq<(i32, i32)>) -> bool {
        &&& self.id == before.id
        &&& forall|x: int|
            #![trigger self.has_id(x)]
            #![trigger before.has_id(x)]
            before.has_id(x) ==> self.has_id(x)
        &&& forall|x: int|
            #![trigger self.has_id(x)]
            self.has_id(x) && !before.has_id(x) ==> offers(entries, x)
        &&& forall|k: int|
            0 <= k < entries.len() && self.has_id((#[trigger] entries[k]).0 as int)
                ==> self.has_id(entries[k].1 as int)
        &&& forall|p: int, c: int|
            #![trigger self.attaches(p, c)]
            self.attaches(p, c) <==> before.attaches(p, c) || (names(entries, c, p)
                && self.has_id(c))
    }

    /// Every entry whose parent is in this hierarchy is in it too.
    pub open spec fn saturated(self, entries: Seq<(i32, i32)>) -> bool {
        forall|k: int|
            0 <= k < entries.len() && self.has_id((#[trigger] entries[k]).1 as int)
                ==> self.has_id(entries[k].0 as int)
    }

    /// No entry names a parent that is in this hierarchy.
    pub open spec fn none_fits(self, entries: Seq<(i32, i32)>) -> bool {
        forall|k: int| 0 <= k < entries.len() ==> !self.has_id((#[trigger] entries[k]).1 as int)
    }
}

} // verus!
