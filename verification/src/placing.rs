use vstd::prelude::*;
use crate::seq_facts::lemma_distinct_are_few;
use crate::tree_facts::lemma_closed_mirrors;
use crate::tree_node::TreeNode;

verus! {

/// `x` is among the first `upto` of `placed`.
pub open spec fn placed_before(placed: Seq<i32>, upto: int, x: int) -> bool {
    exists|k: int| 0 <= k < upto && k < placed.len() && (#[trigger] placed[k]) == x
}

/// `placed` lists the nodes of `tree`, each once, and each a position among
/// `n` records.
pub open spec fn lists(placed: Seq<i32>, tree: TreeNode, n: nat) -> bool {
    &&& forall|k: int|
        0 <= k < placed.len() ==> 0 <= (#[trigger] placed[k]) < n && tree.has_id(placed[k] as int)
    &&& forall|x: int|
        #![trigger tree.has_id(x)]
        tree.has_id(x) ==> placed_before(placed, placed.len() as int, x)
    &&& forall|a: int, b: int|
        0 <= a < b < placed.len() ==> (#[trigger] placed[a]) != (#[trigger] placed[b])
}

/// How far a build from the top down has come. The nodes of `tree` are
/// `placed`, in the order in which they came in, and each is attached as
/// `links` wants it. The first `next` of them have had their turn: all that
/// `links` sends to them is placed. The node `placed[next]`, if there is
/// one, is in its turn: of what `links` sends to it, all below `at` is
/// placed. Nothing else is placed.
pub open spec fn in_turn(
    tree: TreeNode,
    placed: Seq<i32>,
    links: Map<int, int>,
    n: nat,
    next: int,
    at: int,
) -> bool {
    &&& lists(placed, tree, n)
    &&& 0 <= next <= placed.len()
    &&& at > 0 ==> next < placed.len()
    &&& forall|p: int, c: int|
        #![trigger tree.attaches(p, c)]
        tree.attaches(p, c) ==> links.contains_pair(c, p)
    &&& forall|p: int, c: int| #[trigger]
        links.contains_pair(c, p) && placed_before(placed, next, p) ==> tree.has_id(c)
    &&& forall|x: int|
        0 <= x < at && #[trigger] links.contains_pair(x, placed[next] as int) ==> tree.has_id(x)
    &&& forall|x: int|
        #![trigger tree.has_id(x)]
        tree.has_id(x) && x != tree.id ==> placed_before(placed, next, links[x]) || (0 <= x < at
            && links[x] == placed[next])
}

/// A list of the nodes of a hierarchy among `n` records is no longer than
/// `n`.
pub proof fn lemma_placed_are_few(placed: Seq<i32>, tree: TreeNode, n: nat)
    requires
        lists(placed, tree, n),
    ensures
        placed.len() <= n,
{
    let ids = placed.map_values(|id: i32| id as int);
    assert forall|i: int, j: int| 0 <= i < j < ids.len() implies ids[i] != ids[j] by {
        assert(placed[i] != placed[j]);
    }
    lemma_distinct_are_few(ids, n);
}

/// A build starts with the topmost node placed and no turn taken.
pub proof fn lemma_build_starts(tree: TreeNode, links: Map<int, int>, n: nat, root: i32)
    requires
        tree == TreeNode::leaf(root as int),
        0 <= root < n,
    ensures
        in_turn(tree, seq![root], links, n, 0, 0),
{
    let placed = seq![root];
    assert(placed[0] == root);
    assert forall|x: int| tree.has_id(x) <==> x == root by {}
    assert forall|p: int, c: int| !tree.attaches(p, c) by {}
}

/// What a link sends to the node in its turn, and was not yet searched, is
/// no node yet: a node comes in with the turn of its parent, and a node has
/// one turn only.
pub proof fn lemma_not_yet_placed(
    tree: TreeNode,
    placed: Seq<i32>,
    links: Map<int, int>,
    n: nat,
    next: int,
    at: int,
)
    requires
        in_turn(tree, placed, links, n, next, at),
        next < placed.len(),
        links.contains_pair(at, placed[next] as int),
        !links.dom().contains(tree.id) || links[tree.id] != placed[next],
    ensures
        !tree.has_id(at),
        tree.has_id(placed[next] as int),
{
    if tree.has_id(at) {
        assert(placed_before(placed, next, placed[next] as int));
        let k = choose|k: int|
            0 <= k < next && k < placed.len() && (#[trigger] placed[k]) == placed[next];
        assert(placed[k] != placed[next]);
    }
}

/// Attaching the record `at` under the node in its turn, and listing it,
/// is a step of the turn.
pub proof fn lemma_child_placed(
    before: TreeNode,
    now: TreeNode,
    placed: Seq<i32>,
    links: Map<int, int>,
    n: nat,
    next: int,
    at: int,
)
    requires
        in_turn(before, placed, links, n, next, at),
        next < placed.len(),
        0 <= at < n,
        at <= i32::MAX,
        links.contains_pair(at, placed[next] as int),
        !before.has_id(at),
        now.grew_by(before, placed[next] as int, at),
    ensures
        in_turn(now, placed.push(at as i32), links, n, next, at + 1),
{
    let longer = placed.push(at as i32);
    assert forall|k: int| 0 <= k < placed.len() implies #[trigger] longer[k] == placed[k] by {}
    assert(longer[placed.len() as int] == at);
    assert forall|upto: int, p: int| upto <= placed.len() implies
        (placed_before(placed, upto, p) <==> placed_before(longer, upto, p)) by {
        if placed_before(placed, upto, p) {
            let k = choose|k: int| 0 <= k < upto && k < placed.len() && (#[trigger] placed[k]) == p;
            assert(longer[k] == p);
        }
        if placed_before(longer, upto, p) {
            let k = choose|k: int| 0 <= k < upto && k < longer.len() && (#[trigger] longer[k]) == p;
            assert(placed[k] == p);
        }
    }
    assert forall|x: int| #![trigger now.has_id(x)]
        now.has_id(x) implies placed_before(longer, longer.len() as int, x) by {
        if x != at {
            assert(before.has_id(x));
            assert(placed_before(placed, placed.len() as int, x));
            let k = choose|k: int| 0 <= k < placed.len() && (#[trigger] placed[k]) == x;
            assert(longer[k] == x);
        }
    }
    assert forall|a: int, b: int| 0 <= a < b < longer.len() implies
        (#[trigger] longer[a]) != (#[trigger] longer[b]) by {
        if b == placed.len() {
            assert(before.has_id(placed[a] as int));
        } else {
            assert(placed[a] != placed[b]);
        }
    }
    assert forall|p: int, c: int| #[trigger]
        links.contains_pair(c, p) && placed_before(longer, next, p) implies now.has_id(c) by {
        assert(placed_before(placed, next, p));
        assert(before.has_id(c));
    }
    assert forall|x: int| #![trigger now.has_id(x)]
        now.has_id(x) && x != now.id implies
        placed_before(longer, next, links[x]) || (0 <= x < at + 1 && links[x] == longer[next]) by {
        if x != at {
            assert(before.has_id(x));
        }
    }
}

/// When all records were searched for the children of the node in its turn,
/// the turn is over, and the next node has its turn.
pub proof fn lemma_turn_over(
    tree: TreeNode,
    placed: Seq<i32>,
    links: Map<int, int>,
    n: nat,
    next: int,
)
    requires
        in_turn(tree, placed, links, n, next, n as int),
        next < placed.len(),
        links.dom() =~= Set::new(|i: int| 0 <= i < n),
    ensures
        in_turn(tree, placed, links, n, next + 1, 0),
{
    let parent = placed[next] as int;
    assert forall|p: int|
        placed_before(placed, next + 1, p) <==> placed_before(placed, next, p) || p == parent by {
        if placed_before(placed, next + 1, p) {
            let k = choose|k: int|
                0 <= k < next + 1 && k < placed.len() && (#[trigger] placed[k]) == p;
            if k < next {
                assert(placed_before(placed, next, p));
            }
        }
        if placed_before(placed, next, p) {
            let k = choose|k: int| 0 <= k < next && k < placed.len() && (#[trigger] placed[k]) == p;
            assert(placed_before(placed, next + 1, p));
        }
        if p == parent {
            assert(placed[next] == p);
            assert(placed_before(placed, next + 1, p));
        }
    }
    assert forall|p: int, c: int| #[trigger]
        links.contains_pair(c, p) && placed_before(placed, next + 1, p) implies tree.has_id(c) by {
        assert(placed_before(placed, next, p) || p == parent);
        if p == parent {
            assert(0 <= c < n);
        }
    }
    assert forall|x: int| #![trigger tree.has_id(x)]
        tree.has_id(x) && x != tree.id implies placed_before(placed, next + 1, links[x]) by {
        let above = links[x];
        assert(placed_before(placed, next + 1, above) <==> placed_before(placed, next, above)
            || above == parent);
    }
}

/// When every node has had its turn, the hierarchy turns `links` over.
pub proof fn lemma_build_ends(tree: TreeNode, placed: Seq<i32>, links: Map<int, int>, n: nat)
    requires
        tree.well_formed(),
        in_turn(tree, placed, links, n, placed.len() as int, 0),
        links.contains_pair(tree.id, -1),
    ensures
        tree.mirrors(links),
{
    assert forall|p: int, c: int| #[trigger]
        links.contains_pair(c, p) && tree.has_id(p) implies tree.has_id(c) by {
        assert(placed_before(placed, placed.len() as int, p));
    }
    assert forall|p: int| #[trigger] links.contains_pair(tree.id, p) implies !tree.has_id(p) by {
        if tree.has_id(p) {
            assert(placed_before(placed, placed.len() as int, p));
        }
    }
    lemma_closed_mirrors(tree, links);
}

} // verus!
