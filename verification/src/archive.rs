use vstd::prelude::*;

verus! {

/// `needle` stands somewhere in `text`, letter for letter.
pub open spec fn occurs_in(needle: Seq<char>, text: Seq<char>) -> bool {
    exists|from: int, to: int|
        0 <= from && to == from + needle.len() && to <= text.len() && #[trigger] text.subrange(
            from,
            to,
        ) == needle
}

/// `str::contains` of std, with a string as its pattern: whether the
/// pattern stands somewhere in the text.
#[verifier::external_body]
fn text_contains(text: &str, needle: &str) -> (found: bool)
    ensures
        found == occurs_in(needle@, text@),
{
    text.contains(needle)
}

/// Which entry of an archive to open as the model: the last of `names`
/// that has "pmx" in it.
pub fn find_pmx_entry(names: &[String]) -> (entry: Option<usize>)
    ensures
        match entry {
            Some(at) => {
                &&& at < names@.len()
                &&& occurs_in("pmx"@, names@[at as int]@)
                &&& forall|later: int|
                    at < later < names@.len() ==> !occurs_in("pmx"@, (#[trigger] names@[later])@)
            },
            None => forall|any: int|
                0 <= any < names@.len() ==> !occurs_in("pmx"@, (#[trigger] names@[any])@),
        },
{
    let mut entry: Option<usize> = None;
    let mut i: usize = 0;
    while i < names.len()
        invariant
            0 <= i <= names@.len(),
            match entry {
                Some(at) => {
                    &&& at < i
                    &&& occurs_in("pmx"@, names@[at as int]@)
                    &&& forall|later: int|
                        at < later < i ==> !occurs_in("pmx"@, (#[trigger] names@[later])@)
                },
                None => forall|any: int|
                    0 <= any < i ==> !occurs_in("pmx"@, (#[trigger] names@[any])@),
            },
        decreases names@.len() - i,
    {
        if text_contains(names[i].as_str(), "pmx") {
            entry = Some(i);
        }
        i += 1;
    }
    entry
}

} // verus!
