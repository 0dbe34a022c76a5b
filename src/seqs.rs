use vstd::prelude::*;

verus! {

/// Sum of a sequence, as a mathematical integer.
pub open spec fn sum(s: Seq<u64>) -> int
    decreases s.len(),
{
    if s.len() == 0 {
        0
    } else {
        s[0] + sum(s.skip(1))
    }
}

/// Every element of `s` is at least 1.
pub open spec fn all_positive(s: Seq<u64>) -> bool {
    forall|i: int| 0 <= i < s.len() ==> #[trigger] s[i] >= 1
}

/// The elements of `s` never increase from left to right.
pub open spec fn non_increasing(s: Seq<u64>) -> bool {
    forall|i: int, j: int| 0 <= i < j < s.len() ==> s[i] >= s[j]
}

/// No two positions of `s` hold the same value.
pub open spec fn distinct(s: Seq<u64>) -> bool {
    forall|i: int, j: int| 0 <= i < j < s.len() ==> s[i] != s[j]
}

/// Largest element of a non-empty sequence.
pub open spec fn seq_max(s: Seq<u64>) -> int
    decreases s.len(),
{
    if s.len() <= 1 {
        if s.len() == 0 { 0 } else { s[0] as int }
    } else {
        let m = seq_max(s.skip(1));
        if s[0] >= m { s[0] as int } else { m }
    }
}

/// A sum of unsigned values is never negative.
pub proof fn lemma_sum_nonneg(s: Seq<u64>)
    ensures
        sum(s) >= 0,
    decreases s.len(),
{
    if s.len() > 0 {
        lemma_sum_nonneg(s.skip(1));
    }
}

/// The sum of a concatenation is the sum of the parts.
pub proof fn lemma_sum_append(a: Seq<u64>, b: Seq<u64>)
    ensures
        sum(a + b) == sum(a) + sum(b),
    decreases a.len(),
{
    if a.len() == 0 {
        assert(a + b =~= b);
    } else {
        assert((a + b).skip(1) =~= a.skip(1) + b);
        lemma_sum_append(a.skip(1), b);
    }
}

/// Splitting a sequence at `k` splits its sum.
pub proof fn lemma_sum_split(s: Seq<u64>, k: int)
    requires
        0 <= k <= s.len(),
    ensures
        sum(s) == sum(s.take(k)) + sum(s.skip(k)),
{
    assert(s =~= s.take(k) + s.skip(k));
    lemma_sum_append(s.take(k), s.skip(k));
}

/// The sum is the sum without the last element, plus the last element.
pub proof fn lemma_sum_drop_last(s: Seq<u64>)
    requires
        s.len() > 0,
    ensures
        sum(s) == sum(s.drop_last()) + s.last(),
{
    let t = seq![s.last()];
    assert(s =~= s.drop_last() + t);
    lemma_sum_append(s.drop_last(), t);
    assert(t.skip(1) =~= Seq::<u64>::empty());
    assert(sum(t.skip(1)) == 0);
    assert(sum(t) == s.last());
}

/// No element exceeds the sum.
pub proof fn lemma_elem_le_sum(s: Seq<u64>, i: int)
    requires
        0 <= i < s.len(),
    ensures
        s[i] <= sum(s),
    decreases s.len(),
{
    lemma_sum_nonneg(s.skip(1));
    if i > 0 {
        lemma_elem_le_sum(s.skip(1), i - 1);
    }
}

/// With every element at least 1, the length is at most the sum.
pub proof fn lemma_len_le_sum(s: Seq<u64>)
    requires
        all_positive(s),
    ensures
        s.len() <= sum(s),
    decreases s.len(),
{
    if s.len() > 0 {
        lemma_len_le_sum(s.skip(1));
    }
}

} // verus!
