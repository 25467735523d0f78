//! Sums of integer sequences: the accumulator facts every solver loop relies
//! on.

use vstd::prelude::*;

verus! {

/// The sum of a sequence of integers.
pub open spec fn int_sum(s: Seq<int>) -> int
    decreases s.len(),
{
    if s.len() == 0 {
        0
    } else {
        int_sum(s.drop_last()) + s.last()
    }
}

/// One more element extends the sum of a prefix by that element.
pub proof fn lemma_int_sum_step(s: Seq<int>, i: int)
    requires
        0 <= i < s.len(),
    ensures
        int_sum(s.take(i + 1)) == int_sum(s.take(i)) + s[i],
{
    assert(s.take(i + 1).drop_last() =~= s.take(i));
    assert(s.take(i + 1).last() == s[i]);
}

/// A sequence of non-negative integers has a non-negative sum.
pub proof fn lemma_int_sum_nonneg(s: Seq<int>)
    requires
        forall|j: int| 0 <= j < s.len() ==> s[j] >= 0,
    ensures
        int_sum(s) >= 0,
    decreases s.len(),
{
    if s.len() > 0 {
        lemma_int_sum_nonneg(s.drop_last());
    }
}

/// A sequence whose entries are all at least one sums to at least its length.
pub proof fn lemma_int_sum_ge_len(s: Seq<int>)
    requires
        forall|j: int| 0 <= j < s.len() ==> s[j] >= 1,
    ensures
        int_sum(s) >= s.len(),
    decreases s.len(),
{
    if s.len() > 0 {
        lemma_int_sum_ge_len(s.drop_last());
    }
}

/// For non-negative entries, the sum of a prefix is at most the whole sum.
pub proof fn lemma_int_sum_prefix_le(s: Seq<int>, i: int)
    requires
        0 <= i <= s.len(),
        forall|j: int| 0 <= j < s.len() ==> s[j] >= 0,
    ensures
        int_sum(s.take(i)) <= int_sum(s),
    decreases s.len() - i,
{
    if i < s.len() {
        lemma_int_sum_step(s, i);
        lemma_int_sum_prefix_le(s, i + 1);
    } else {
        assert(s.take(i) =~= s);
    }
}

/// For non-negative entries, the sum dominates every single entry.
pub proof fn lemma_int_sum_ge_elem(s: Seq<int>, j: int)
    requires
        0 <= j < s.len(),
        forall|k: int| 0 <= k < s.len() ==> s[k] >= 0,
    ensures
        int_sum(s) >= s[j],
{
    lemma_int_sum_step(s, j);
    assert(forall|k: int| 0 <= k < s.take(j).len() ==> s.take(j)[k] >= 0);
    lemma_int_sum_nonneg(s.take(j));
    lemma_int_sum_prefix_le(s, j + 1);
}

} // verus!
