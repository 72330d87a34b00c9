use vstd::prelude::*;

verus! {

/// One bone as the hierarchy reads it: its two names and the position of
/// its parent in the sequence of records, -1 where it has none. A record is
/// known by its own position in that sequence.
#[derive(Clone, Debug)]
pub struct BoneRecord {
    pub name: String,
    pub english_name: String,
    pub parent: i32,
}

/// What a model file says of the model: its name and a comment, each in two
/// languages.
#[derive(Clone, Debug)]
pub struct ModelInfo {
    pub name: String,
    pub name_en: String,
    pub comment: String,
    pub comment_en: String,
}

/// The parent that each record names: a map from the position of a record
/// to the position that it names, which is -1 where it names none.
pub open spec fn links_of(records: Seq<BoneRecord>) -> Map<int, int> {
    Map::new(|i: int| 0 <= i < records.len(), |i: int| records[i].parent as int)
}

/// A node with the id `id` has a name to show: it is the node above all
/// records, -1, or the position of a record.
pub open spec fn nameable(records: Seq<BoneRecord>, id: int) -> bool {
    id == -1 || 0 <= id < records.len()
}

/// The name that a node shows: "Root" for the node above all records, else
/// the name of its record.
pub open spec fn name_of(records: Seq<BoneRecord>, id: int) -> Seq<char> {
    if id == -1 {
        "Root"@
    } else {
        records[id].name@
    }
}

/// A walk with the name of each node beside its depth and id.
pub open spec fn named(walk: Seq<(nat, int)>, records: Seq<BoneRecord>) -> Seq<
    (nat, int, Seq<char>),
> {
    walk.map_values(|visit: (nat, int)| (visit.0, visit.1, name_of(records, visit.1)))
}

/// What rendered rows hold: depth, id and the characters of the name.
pub open spec fn shown(rows: Seq<(usize, i32, String)>) -> Seq<(nat, int, Seq<char>)> {
    rows.map_values(|row: (usize, i32, String)| (row.0 as nat, row.1 as int, row.2@))
}

/// The record at `r` has no parent.
pub open spec fn is_root(links: Map<int, int>, r: int) -> bool {
    links.contains_pair(r, -1)
}

/// The record at `r` is the only one without a parent.
pub open spec fn sole_root(links: Map<int, int>, r: int) -> bool {
    is_root(links, r) && forall|j: int| is_root(links, j) ==> j == r
}

/// Exactly one record has no parent.
pub open spec fn has_sole_root(links: Map<int, int>) -> bool {
    exists|r: int| sole_root(links, r)
}

/// Following the links from `x` for `k` steps arrives at `root`, and not
/// before.
pub open spec fn hops(links: Map<int, int>, root: int, x: int, k: nat) -> bool
    decreases k,
{
    if k == 0 {
        x == root
    } else {
        x != root && links.dom().contains(x) && hops(links, root, links[x], (k - 1) as nat)
    }
}

/// Following the links from `x` arrives at `root`.
pub open spec fn reaches(links: Map<int, int>, root: int, x: int) -> bool {
    exists|k: nat| hops(links, root, x, k)
}

/// Where following the links from `x` stands after `k` steps. From an id
/// that has no link there is no step.
pub open spec fn climb(links: Map<int, int>, x: int, k: nat) -> int
    decreases k,
{
    if k == 0 || !links.dom().contains(x) {
        x
    } else {
        climb(links, links[x], (k - 1) as nat)
    }
}

/// Following the links from an id never comes back to it.
pub open spec fn acyclic(links: Map<int, int>) -> bool {
    forall|x: int, k: nat| links.dom().contains(x) && k >= 1 ==> climb(links, x, k) != x
}

/// Records that a hierarchy can hold whole: one record alone has no parent,
/// every other record names a position as its parent, and following the
/// parents from a record never comes back to it.
pub open spec fn valid_records(records: Seq<BoneRecord>) -> bool {
    &&& has_sole_root(links_of(records))
    &&& forall|i: int|
        0 <= i < records.len() ==> -1 <= (#[trigger] records[i]).parent < records.len()
    &&& acyclic(links_of(records))
}

} // verus!
