use vstd::prelude::*;
use vstd::set_lib::{lemma_int_range, lemma_len_subset, set_int_range};

verus! {

/// Filtering a sequence with one more element at its end keeps that element
/// exactly when the predicate holds of it.
pub proof fn lemma_filter_push<A>(s: Seq<A>, e: A, pred: spec_fn(A) -> bool)
    ensures
        s.push(e).filter(pred) == if pred(e) {
            s.filter(pred).push(e)
        } else {
            s.filter(pred)
        },
{
    reveal(Seq::filter);
    assert(s.push(e).drop_last() =~= s);
}

/// Two predicates that agree on every element of a sequence filter it alike.
pub proof fn lemma_filter_agree<A>(s: Seq<A>, p: spec_fn(A) -> bool, q: spec_fn(A) -> bool)
    requires
        forall|i: int| 0 <= i < s.len() ==> p(#[trigger] s[i]) == q(s[i]),
    ensures
        s.filter(p) == s.filter(q),
    decreases s.len(),
{
    reveal(Seq::filter);
    if s.len() > 0 {
        let front = s.drop_last();
        assert forall|i: int|
            0 <= i < front.len() implies p(#[trigger] front[i]) == q(front[i]) by {
            assert(front[i] == s[i]);
        }
        lemma_filter_agree(front, p, q);
    }
}

/// Filtering by `p` and then by a predicate `q` that asks for more than `p`
/// is filtering by `q` alone.
pub proof fn lemma_filter_narrow<A>(s: Seq<A>, p: spec_fn(A) -> bool, q: spec_fn(A) -> bool)
    requires
        forall|i: int| 0 <= i < s.len() && q(#[trigger] s[i]) ==> p(s[i]),
    ensures
        s.filter(p).filter(q) == s.filter(q),
    decreases s.len(),
{
    if s.len() == 0 {
        reveal(Seq::filter);
    } else {
        let front = s.drop_last();
        let e = s.last();
        assert(front.push(e) =~= s);
        assert forall|i: int|
            0 <= i < front.len() && q(#[trigger] front[i]) implies p(front[i]) by {
            assert(front[i] == s[i]);
        }
        lemma_filter_narrow(front, p, q);
        lemma_filter_push(front, e, p);
        lemma_filter_push(front, e, q);
        if p(e) {
            lemma_filter_push(front.filter(p), e, q);
        }
    }
}

/// There are no more different numbers than places for them: a sequence of
/// numbers below `n`, none negative and no two the same, is no longer than
/// `n`.
pub proof fn lemma_distinct_are_few(s: Seq<int>, n: nat)
    requires
        forall|i: int| 0 <= i < s.len() ==> 0 <= #[trigger] s[i] < n,
        forall|i: int, j: int| 0 <= i < j < s.len() ==> s[i] != s[j],
    ensures
        s.len() <= n,
{
    assert(s.no_duplicates()) by {
        assert forall|i: int, j: int| 0 <= i < s.len() && 0 <= j < s.len() && i != j implies
            s[i] != s[j] by {
            if i < j {
                assert(s[i] != s[j]);
            } else {
                assert(s[j] != s[i]);
            }
        }
    }
    s.unique_seq_to_set();
    lemma_int_range(0, n as int);
    assert forall|v: int| s.to_set().contains(v) implies set_int_range(0, n as int).contains(v) by {
        let i = choose|i: int| 0 <= i < s.len() && s[i] == v;
    }
    lemma_len_subset(s.to_set(), set_int_range(0, n as int));
}

} // verus!
