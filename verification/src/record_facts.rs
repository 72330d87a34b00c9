use vstd::prelude::*;
use crate::records::{climb, hops, is_root, links_of, sole_root, valid_records, BoneRecord};
use crate::seq_facts::lemma_distinct_are_few;

verus! {

/// Steps add up: `a + b` steps are `a` steps and then `b` more.
proof fn lemma_climb_adds(links: Map<int, int>, x: int, a: nat, b: nat)
    ensures
        climb(links, x, a + b) == climb(links, climb(links, x, a), b),
    decreases a,
{
    if a == 0 {
    } else if !links.dom().contains(x) {
        lemma_climb_stays(links, x, b);
    } else {
        lemma_climb_adds(links, links[x], (a - 1) as nat, b);
        assert(climb(links, x, a + b) == climb(links, links[x], (a + b - 1) as nat));
    }
}

/// From an id without a link no number of steps leads away.
proof fn lemma_climb_stays(links: Map<int, int>, x: int, k: nat)
    requires
        !links.dom().contains(x),
    ensures
        climb(links, x, k) == x,
{
}

/// Among records that name positions or -1, following the parents from a
/// position stands at a position or at -1.
proof fn lemma_climb_in_range(records: Seq<BoneRecord>, x: int, k: nat)
    requires
        forall|i: int|
            0 <= i < records.len() ==> -1 <= (#[trigger] records[i]).parent < records.len(),
        -1 <= x < records.len(),
    ensures
        -1 <= climb(links_of(records), x, k) < records.len(),
    decreases k,
{
    let links = links_of(records);
    if k > 0 && links.dom().contains(x) {
        assert(links[x] == records[x].parent);
        lemma_climb_in_range(records, links[x], (k - 1) as nat);
    }
}

/// More values than there are places for them: of `n + 1` numbers below
/// `n`, none negative, two are the same.
proof fn lemma_two_alike(s: Seq<int>, n: nat) -> (pair: (int, int))
    requires
        s.len() == n + 1,
        forall|i: int| 0 <= i < s.len() ==> 0 <= #[trigger] s[i] < n,
    ensures
        0 <= pair.0 < pair.1 < s.len(),
        s[pair.0] == s[pair.1],
{
    if forall|i: int, j: int| 0 <= i < j < s.len() ==> s[i] != s[j] {
        lemma_distinct_are_few(s, n);
    }
    choose|i: int, j: int| 0 <= i < j < s.len() && s[i] == s[j]
}

/// What has left the positions after `k` steps has passed the record
/// without a parent on its way.
proof fn lemma_exit_passes_root(records: Seq<BoneRecord>, root: int, x: int, k: nat) -> (steps: nat)
    requires
        sole_root(links_of(records), root),
        forall|i: int|
            0 <= i < records.len() ==> -1 <= (#[trigger] records[i]).parent < records.len(),
        0 <= x < records.len(),
        climb(links_of(records), x, k) == -1,
    ensures
        hops(links_of(records), root, x, steps),
    decreases k,
{
    let links = links_of(records);
    assert(links.dom().contains(x));
    assert(links[x] == records[x].parent);
    assert(k > 0);
    if links[x] == -1 {
        assert(is_root(links, x));
        assert(x == root);
        0
    } else {
        let above = lemma_exit_passes_root(records, root, links[x], (k - 1) as nat);
        assert(x != root) by {
            assert(is_root(links, root));
        }
        above + 1
    }
}

/// Among valid records, following the parents from any record arrives at
/// the record without a parent.
pub proof fn lemma_valid_reaches_root(records: Seq<BoneRecord>, root: int, x: int) -> (steps: nat)
    requires
        valid_records(records),
        sole_root(links_of(records), root),
        0 <= x < records.len(),
    ensures
        hops(links_of(records), root, x, steps),
{
    let links = links_of(records);
    let n = records.len();
    if forall|k: nat| k <= n ==> #[trigger] climb(links, x, k) != -1 {
        let path = Seq::new(n + 1, |j: int| climb(links, x, j as nat));
        assert forall|j: int| 0 <= j < path.len() implies 0 <= #[trigger] path[j] < n by {
            lemma_climb_in_range(records, x, j as nat);
        }
        let (a, b) = lemma_two_alike(path, n);
        let y = climb(links, x, a as nat);
        lemma_climb_adds(links, x, a as nat, (b - a) as nat);
        assert(climb(links, y, (b - a) as nat) == y);
        assert(links.dom().contains(y));
        assert(false);
    }
    let k = choose|k: nat| k <= n && #[trigger] climb(links, x, k) == -1;
    lemma_exit_passes_root(records, root, x, k)
}

} // verus!
