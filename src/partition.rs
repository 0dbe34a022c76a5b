use vstd::prelude::*;
use crate::seqs::{sum, all_positive, non_increasing, distinct, lemma_sum_nonneg, lemma_sum_split,
    lemma_sum_drop_last, lemma_elem_le_sum, lemma_len_le_sum, lemma_sum_append};
use crate::order::{lex_gt, bounded_by, digits_value, lemma_lex_irreflexive, lemma_lex_transitive,
    lemma_lex_total, lemma_lex_first_difference, lemma_digits_value_monotone,
    lemma_digits_value_bound};

verus! {

/// `s` is a partition of `n`: positive parts, largest first, summing to `n`.
pub open spec fn is_partition(n: int, s: Seq<u64>) -> bool {
    &&& all_positive(s)
    &&& non_increasing(s)
    &&& sum(s) == n
}

/// `s` has `count` parts, none above `max`, and pairwise distinct parts when
/// `uniquify` is set.
pub open spec fn passes_filter(count: u64, max: u64, s: Seq<u64>, uniquify: bool) -> bool {
    &&& s.len() == count
    &&& bounded_by(s, max as int)
    &&& (uniquify ==> distinct(s))
}

/// Fills `r` greedily with parts of size `x`, then one smaller remainder part
/// if anything is left.
pub open spec fn greedy_fill(x: int, r: int) -> Seq<u64>
    decreases r,
{
    if r <= 0 || x <= 0 {
        Seq::empty()
    } else if r <= x {
        seq![r as u64]
    } else {
        seq![x as u64] + greedy_fill(x, r - x)
    }
}

/// The partition that follows `v` in generation order, where `k` is the
/// position of its last part above 1: the parts before `k` are kept, and
/// everything from `k` on is refilled greedily with parts one smaller than
/// `v[k]`.
pub open spec fn successor_at(v: Seq<u64>, k: int) -> Seq<u64> {
    v.take(k) + greedy_fill(v[k] - 1, sum(v.skip(k)))
}

/// `k` is the position of the last part of `v` above 1.
pub open spec fn last_big_part(v: Seq<u64>, k: int) -> bool {
    &&& 0 <= k < v.len()
    &&& v[k] >= 2
    &&& forall|i: int| k < i < v.len() ==> #[trigger] v[i] == 1
}

proof fn lemma_greedy_fill_shape(x: int, r: int)
    requires
        1 <= x <= u64::MAX,
        r >= 0,
    ensures
        sum(greedy_fill(x, r)) == r,
        all_positive(greedy_fill(x, r)),
        bounded_by(greedy_fill(x, r), x),
        non_increasing(greedy_fill(x, r)),
        r > 0 ==> greedy_fill(x, r).len() > 0 && greedy_fill(x, r)[0] == if r <= x { r } else { x },
    decreases r,
{
    let g = greedy_fill(x, r);
    if r == 0 {
    } else if r <= x {
        assert(g.skip(1) =~= Seq::<u64>::empty());
        assert(sum(g.skip(1)) == 0);
    } else {
        let t = greedy_fill(x, r - x);
        lemma_greedy_fill_shape(x, r - x);
        assert(g.skip(1) =~= t);
        assert forall|i: int, j: int| 0 <= i < j < g.len() implies g[i] >= g[j] by {
            if i > 0 {
                assert(g[i] == t[i - 1]);
            }
            assert(g[j] == t[j - 1]);
        }
        assert forall|i: int| 0 <= i < g.len() implies #[trigger] g[i] >= 1 && g[i] <= x by {
            if i > 0 {
                assert(g[i] == t[i - 1]);
            }
        }
    }
}

/// Among sequences of positive parts no larger than `x` that sum to `r`, the
/// greedy fill comes last in lexicographic order.
proof fn lemma_greedy_fill_is_largest(x: int, r: int, u: Seq<u64>)
    requires
        1 <= x <= u64::MAX,
        all_positive(u),
        bounded_by(u, x),
        sum(u) == r,
    ensures
        u == greedy_fill(x, r) || lex_gt(greedy_fill(x, r), u),
    decreases u.len(),
{
    let g = greedy_fill(x, r);
    lemma_sum_nonneg(u);
    if u.len() == 0 {
        assert(g =~= u);
    } else {
        let t = u.skip(1);
        lemma_sum_nonneg(t);
        lemma_greedy_fill_shape(x, r);
        if u[0] == g[0] {
            if r <= x {
                if t.len() > 0 {
                    lemma_len_le_sum(t);
                }
                assert(u =~= g);
            } else {
                lemma_greedy_fill_is_largest(x, r - x, t);
                assert(g.skip(1) =~= greedy_fill(x, r - x));
                if t == g.skip(1) {
                    assert(u =~= g);
                }
            }
        }
    }
}

/// A sequence of ones comes first among sequences of positive parts with the
/// same sum.
proof fn lemma_ones_are_smallest(s: Seq<u64>, u: Seq<u64>)
    requires
        forall|i: int| 0 <= i < s.len() ==> #[trigger] s[i] == 1,
        all_positive(u),
        sum(u) == sum(s),
    ensures
        !lex_gt(s, u),
    decreases s.len(),
{
    if s.len() > 0 {
        lemma_sum_nonneg(s.skip(1));
        if u.len() > 0 && u[0] == 1 {
            lemma_ones_are_smallest(s.skip(1), u.skip(1));
        }
    }
}

/// The successor is the largest partition below `v`.
proof fn lemma_successor_is_next(v: Seq<u64>, k: int, u: Seq<u64>)
    requires
        last_big_part(v, k),
        all_positive(v),
        non_increasing(v),
        all_positive(u),
        non_increasing(u),
        sum(u) == sum(v),
        lex_gt(v, u),
    ensures
        u == successor_at(v, k) || lex_gt(successor_at(v, k), u),
    decreases k,
{
    let w = successor_at(v, k);
    lemma_elem_le_sum(v, 0);
    if u.len() > 0 {
        lemma_sum_nonneg(u.skip(1));
        lemma_sum_nonneg(v.skip(1));
        if k == 0 {
            assert(v.take(0) + greedy_fill(v[0] - 1, sum(v.skip(0))) =~= greedy_fill(v[0] - 1, sum(v)))
                by {
                assert(v.skip(0) =~= v);
            }
            if v[0] > u[0] {
                assert(bounded_by(u, v[0] - 1));
                lemma_greedy_fill_is_largest(v[0] - 1, sum(v), u);
            } else {
                lemma_ones_are_smallest(v.skip(1), u.skip(1));
            }
        } else {
            let v1 = v.skip(1);
            assert(v1.take(k - 1) =~= v.take(k).skip(1));
            assert(v1.skip(k - 1) =~= v.skip(k));
            assert(w.skip(1) =~= successor_at(v1, k - 1));
            assert(w[0] == v[0]);
            if v[0] == u[0] {
                lemma_successor_is_next(v1, k - 1, u.skip(1));
                if u.skip(1) == w.skip(1) {
                    assert(u.len() == w.len()) by {
                        assert(u.skip(1).len() == w.skip(1).len());
                    }
                    assert forall|i: int| 0 <= i < u.len() implies u[i] == w[i] by {
                        if i > 0 {
                            assert(u[i] == u.skip(1)[i - 1]);
                            assert(w[i] == w.skip(1)[i - 1]);
                        }
                    }
                    assert(u =~= w);
                }
            }
        }
    }
}

/// The successor is a partition of the same sum that comes before `v`.
proof fn lemma_successor_shape(v: Seq<u64>, k: int)
    requires
        last_big_part(v, k),
        all_positive(v),
        non_increasing(v),
    ensures
        is_partition(sum(v), successor_at(v, k)),
        lex_gt(v, successor_at(v, k)),
{
    let x = v[k] - 1;
    let r = sum(v.skip(k));
    let p = v.take(k);
    let g = greedy_fill(x, r);
    let w = successor_at(v, k);
    lemma_sum_split(v, k);
    lemma_elem_le_sum(v.skip(k), 0);
    lemma_greedy_fill_shape(x, r);
    lemma_sum_append(p, g);
    assert forall|i: int| 0 <= i < w.len() implies #[trigger] w[i] >= 1 by {
        if i >= k {
            assert(w[i] == g[i - k]);
        }
    }
    assert forall|i: int, j: int| 0 <= i < j < w.len() implies w[i] >= w[j] by {
        if j >= k {
            assert(w[j] == g[j - k]);
            if i >= k {
                assert(w[i] == g[i - k]);
            } else {
                assert(v[i] >= v[k]);
            }
        }
    }
    assert(w[k] == g[0]);
    lemma_lex_first_difference(v, w, k);
}


/// Whether no two elements of `xs` are equal, whatever their order.
pub fn is_unique(xs: &Vec<u64>) -> (r: bool)
    ensures
        r == distinct(xs@),
{
    let len = xs.len();
    let mut i: usize = 0;
    while i < len
        invariant
            len == xs.len(),
            i <= len,
            forall|a: int, b: int| 0 <= a < i && a < b < len ==> xs@[a] != xs@[b],
        decreases len - i,
    {
        let mut j: usize = i + 1;
        while j < len
            invariant
                len == xs.len(),
                i < len,
                i + 1 <= j <= len,
                forall|a: int, b: int| 0 <= a < i && a < b < len ==> xs@[a] != xs@[b],
                forall|b: int| i < b < j ==> xs@[i as int] != xs@[b],
            decreases len - j,
        {
            if xs[i] == xs[j] {
                return false;
            }
            j = j + 1;
        }
        i = i + 1;
    }
    true
}

/// Whether `xs` has exactly `count` parts, none above `max`, and (when
/// `uniquify` is set) no repeated part.
pub fn check_showvec(count: u64, max: u64, xs: &Vec<u64>, uniquify: bool) -> (r: bool)
    ensures
        r == passes_filter(count, max, xs@, uniquify),
{
    if xs.len() as u64 != count {
        return false;
    }
    let mut i: usize = 0;
    while i < xs.len()
        invariant
            i <= xs.len(),
            forall|a: int| 0 <= a < i ==> #[trigger] xs@[a] <= max,
        decreases xs.len() - i,
    {
        if xs[i] > max {
            return false;
        }
        i = i + 1;
    }
    !uniquify || is_unique(xs)
}

/// Replaces the partition `v` of `n` with the next one in generation order:
/// trailing ones and the last part above 1 are taken off, that part less one
/// is repeated while it fits, and the remainder closes the sum. The result is
/// the largest partition of `n` that comes before `v` lexicographically.
pub fn next_partition(v: &mut Vec<u64>, n: u64)
    requires
        is_partition(n as int, old(v)@),
        old(v)@.len() > 0,
        old(v)@[0] > 1,
    ensures
        is_partition(n as int, final(v)@),
        lex_gt(old(v)@, final(v)@),
        forall|u: Seq<u64>| #[trigger] is_partition(n as int, u) && lex_gt(old(v)@, u)
            ==> u == final(v)@ || lex_gt(final(v)@, u),
{
    let ghost orig: Seq<u64> = v@;
    let mut tot: u64 = n;
    proof {
        lemma_sum_drop_last(v@);
        lemma_sum_nonneg(v@.drop_last());
    }
    let mut x: u64 = v.pop().unwrap();
    tot = tot - x;
    while x == 1
        invariant
            is_partition(n as int, orig),
            orig[0] > 1,
            v@.len() < orig.len(),
            v@ =~= orig.take(v@.len() as int),
            x == orig[v@.len() as int],
            forall|i: int| v@.len() < i < orig.len() ==> #[trigger] orig[i] == 1,
            tot == sum(v@),
        decreases v@.len(),
    {
        proof {
            lemma_sum_drop_last(v@);
            lemma_sum_nonneg(v@.drop_last());
        }
        x = v.pop().unwrap();
        tot = tot - x;
    }
    let ghost k: int = v@.len() as int;
    proof {
        lemma_sum_split(orig, k);
        lemma_elem_le_sum(orig, k);
        assert(last_big_part(orig, k));
        lemma_successor_shape(orig, k);
        assert forall|u: Seq<u64>| #[trigger] is_partition(n as int, u) && lex_gt(orig, u)
            implies u == successor_at(orig, k) || lex_gt(successor_at(orig, k), u) by {
            lemma_successor_is_next(orig, k, u);
        }
    }
    x = x - 1;
    while x < n - tot
        invariant
            1 <= x < n,
            tot <= n,
            v@ + greedy_fill(x as int, n - tot) =~= successor_at(orig, k),
        decreases n - tot,
    {
        let ghost before: Seq<u64> = v@;
        let ghost t0: int = tot as int;
        proof {
            assert(greedy_fill(x as int, n - tot) =~= seq![x] + greedy_fill(x as int, n - tot - x));
        }
        v.push(x);
        tot = tot + x;
        proof {
            assert(v@ + greedy_fill(x as int, n - tot) =~= before + greedy_fill(x as int, n - t0));
        }
    }
    let ghost before: Seq<u64> = v@;
    if tot < n {
        v.push(n - tot);
        assert(v@ =~= before + greedy_fill(x as int, n - tot));
    } else {
        assert(v@ =~= before + greedy_fill(x as int, n - tot));
    }
}

/// The single-part partition `[n]` comes last among all partitions of `n`.
proof fn lemma_whole_is_largest(n: u64, u: Seq<u64>)
    requires
        n >= 1,
        is_partition(n as int, u),
    ensures
        u == seq![n] || lex_gt(seq![n], u),
{
    assert forall|i: int| 0 <= i < u.len() implies #[trigger] u[i] <= n as int by {
        lemma_elem_le_sum(u, i);
    }
    lemma_greedy_fill_is_largest(n as int, n as int, u);
    assert(greedy_fill(n as int, n as int) =~= seq![n]);
}

/// The measure that falls at each step of generation: the partition read as
/// the digits of a number in base `n + 1`.
pub open spec fn generation_rank(n: u64, v: Seq<u64>) -> int {
    digits_value(v, n as nat, n + 1)
}

proof fn lemma_rank_falls(n: u64, v: Seq<u64>, w: Seq<u64>)
    requires
        n >= 1,
        is_partition(n as int, v),
        is_partition(n as int, w),
        lex_gt(v, w),
    ensures
        0 <= generation_rank(n, w) < generation_rank(n, v),
{
    lemma_len_le_sum(v);
    lemma_len_le_sum(w);
    assert forall|i: int| 0 <= i < v.len() implies #[trigger] v[i] <= n as int by {
        lemma_elem_le_sum(v, i);
    }
    assert forall|i: int| 0 <= i < w.len() implies #[trigger] w[i] <= n as int by {
        lemma_elem_le_sum(w, i);
    }
    lemma_digits_value_monotone(v, w, n as nat, n + 1);
    lemma_digits_value_bound(w, n as nat, n + 1);
}

/// Every partition of `n` with `count` parts, none above `max`, and (when
/// `uniquify` is set) no repeated part, each exactly once, in generation
/// order: from `[n]` down to all ones, lexicographically decreasing.
pub fn partition(count: u64, max: u64, n: u64, uniquify: bool) -> (r: Vec<Vec<u64>>)
    requires
        n >= 1,
    ensures
        forall|i: int| 0 <= i < r@.len() ==> is_partition(n as int, #[trigger] r@[i]@)
            && passes_filter(count, max, r@[i]@, uniquify),
        forall|u: Seq<u64>| is_partition(n as int, u) && #[trigger] passes_filter(count, max, u, uniquify)
            ==> exists|i: int| 0 <= i < r@.len() && #[trigger] r@[i]@ == u,
        forall|i: int, j: int| 0 <= i < j < r@.len() ==> lex_gt(r@[i]@, r@[j]@),
        forall|i: int, j: int| 0 <= i < j < r@.len() ==> r@[i]@ != r@[j]@,
{
    let mut out: Vec<Vec<u64>> = Vec::new();
    let mut v: Vec<u64> = vec![n];
    proof {
        assert(v@ =~= seq![n]);
        assert(seq![n].skip(1) =~= Seq::<u64>::empty());
        assert(sum(Seq::<u64>::empty()) == 0);
        assert forall|u: Seq<u64>| is_partition(n as int, u) && passes_filter(count, max, u, uniquify)
            && lex_gt(u, v@) implies exists|i: int| 0 <= i < out@.len() && #[trigger] out@[i]@ == u by {
            lemma_whole_is_largest(n, u);
            if u != v@ {
                lemma_lex_transitive(u, v@, u);
            }
            lemma_lex_irreflexive(u);
        }
    }
    while v[0] != 1
        invariant
            n >= 1,
            is_partition(n as int, v@),
            v@.len() > 0,
            forall|i: int| 0 <= i < out@.len() ==> is_partition(n as int, #[trigger] out@[i]@)
                && passes_filter(count, max, out@[i]@, uniquify) && lex_gt(out@[i]@, v@),
            forall|u: Seq<u64>| is_partition(n as int, u) && passes_filter(count, max, u, uniquify)
                && lex_gt(u, v@) ==> exists|i: int| 0 <= i < out@.len() && #[trigger] out@[i]@ == u,
            forall|i: int, j: int| 0 <= i < j < out@.len() ==> lex_gt(out@[i]@, out@[j]@),
        decreases generation_rank(n, v@),
    {
        let ghost cur: Seq<u64> = v@;
        let ghost out0: Seq<Vec<u64>> = out@;
        if check_showvec(count, max, &v, uniquify) {
            let c = v.clone();
            assert(c@ =~= v@);
            out.push(c);
        }
        next_partition(&mut v, n);
        proof {
            lemma_rank_falls(n, cur, v@);
            assert forall|i: int| 0 <= i < out@.len() implies is_partition(n as int, #[trigger] out@[i]@)
                && passes_filter(count, max, out@[i]@, uniquify) && lex_gt(out@[i]@, v@) by {
                if i < out0.len() {
                    assert(out@[i] == out0[i]);
                    lemma_lex_transitive(out@[i]@, cur, v@);
                }
            }
            assert forall|i: int, j: int| 0 <= i < j < out@.len() implies lex_gt(out@[i]@, out@[j]@) by {
                assert(out@[i] == out0[i]);
                if j < out0.len() {
                    assert(out@[j] == out0[j]);
                }
            }
            assert forall|u: Seq<u64>| is_partition(n as int, u) && passes_filter(count, max, u, uniquify)
                && lex_gt(u, v@) implies exists|i: int| 0 <= i < out@.len() && #[trigger] out@[i]@ == u by {
                if u == cur {
                    assert(out@[out@.len() - 1]@ == u);
                } else {
                    lemma_lex_total(u, cur);
                    if lex_gt(u, cur) {
                        let i = choose|i: int| 0 <= i < out0.len() && #[trigger] out0[i]@ == u;
                        assert(out@[i] == out0[i]);
                    } else {
                        lemma_lex_irreflexive(u);
                        if u != v@ {
                            lemma_lex_transitive(u, v@, u);
                        }
                    }
                }
            }
        }
    }
    let ghost cur: Seq<u64> = v@;
    let ghost out0: Seq<Vec<u64>> = out@;
    proof {
        assert forall|i: int| 0 <= i < cur.len() implies #[trigger] cur[i] == 1 by {
            assert(cur[0] >= cur[i]);
        }
    }
    if check_showvec(count, max, &v, uniquify) {
        let c = v.clone();
        assert(c@ =~= v@);
        out.push(c);
    }
    proof {
        assert forall|i: int, j: int| 0 <= i < j < out@.len() implies lex_gt(out@[i]@, out@[j]@) by {
            assert(out@[i] == out0[i]);
            if j < out0.len() {
                assert(out@[j] == out0[j]);
            }
        }
        assert forall|i: int| 0 <= i < out@.len() implies is_partition(n as int, #[trigger] out@[i]@)
            && passes_filter(count, max, out@[i]@, uniquify) by {
            if i < out0.len() {
                assert(out@[i] == out0[i]);
            }
        }
        assert forall|u: Seq<u64>| is_partition(n as int, u) && #[trigger] passes_filter(count, max, u, uniquify)
            implies exists|i: int| 0 <= i < out@.len() && #[trigger] out@[i]@ == u by {
            if u == cur {
                assert(out@[out@.len() - 1]@ == u);
            } else {
                lemma_ones_are_smallest(cur, u);
                lemma_lex_total(u, cur);
                let i = choose|i: int| 0 <= i < out0.len() && #[trigger] out0[i]@ == u;
                assert(out@[i] == out0[i]);
            }
        }
        assert forall|i: int, j: int| 0 <= i < j < out@.len() implies out@[i]@ != out@[j]@ by {
            lemma_lex_irreflexive(out@[i]@);
        }
    }
    out
}

} // verus!
