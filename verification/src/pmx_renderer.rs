use vstd::prelude::*;
use std::ops::Range;

verus! {

/// The part of the shared index buffer that one material draws.
#[derive(Debug)]
pub struct Material {
    pub index_buffer_range: Range<u32>,
}

/// The sum of the first `upto` counts.
pub open spec fn counted(counts: Seq<u32>, upto: int) -> int
    decreases upto,
{
    if upto <= 0 {
        0
    } else {
        counted(counts, upto - 1) + counts[upto - 1]
    }
}

/// The sums grow with the number of counts that they take in.
pub proof fn lemma_counted_grows(counts: Seq<u32>, a: int, b: int)
    requires
        0 <= a <= b,
    ensures
        counted(counts, a) <= counted(counts, b),
    decreases b - a,
{
    if a < b {
        lemma_counted_grows(counts, a, b - 1);
    }
}

/// One material for each count of indices: its range starts where the
/// counts of the materials before it add up to, and ends at its own count.
pub fn material_ranges(counts: &[u32]) -> (materials: Vec<Material>)
    requires
        counted(counts@, counts@.len() as int) <= u32::MAX,
    ensures
        materials@.len() == counts@.len(),
        forall|i: int|
            0 <= i < counts@.len() ==> (#[trigger] materials@[i]).index_buffer_range.start
                == counted(counts@, i) && materials@[i].index_buffer_range.end == counts@[i],
{
    let mut materials: Vec<Material> = Vec::new();
    let mut from: u32 = 0;
    let mut i: usize = 0;
    while i < counts.len()
        invariant
            0 <= i <= counts@.len(),
            counted(counts@, counts@.len() as int) <= u32::MAX,
            from == counted(counts@, i as int),
            materials@.len() == i,
            forall|k: int|
                0 <= k < i ==> (#[trigger] materials@[k]).index_buffer_range.start == counted(
                    counts@,
                    k,
                ) && materials@[k].index_buffer_range.end == counts@[k],
        decreases counts@.len() - i,
    {
        proof {
            lemma_counted_grows(counts@, i + 1, counts@.len() as int);
        }
        materials.push(Material { index_buffer_range: from..counts[i] });
        from = from + counts[i];
        i += 1;
    }
    materials
}

} // verus!
