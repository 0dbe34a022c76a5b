use vstd::prelude::*;
use crate::seqs::{sum, seq_max, lemma_sum_drop_last, lemma_sum_nonneg, lemma_sum_split};
use crate::factor::prod;

verus! {

/// Why an arithmetic command has no result in `u64`.
#[derive(Debug, Clone, Copy, PartialEq, Eq, Structural)]
pub enum ArithError {
    /// The exact result is larger than `u64::MAX`.
    Overflow,
    /// The exact result is negative.
    Underflow,
    /// The command needs at least one operand.
    NoOperands,
}

/// The largest element is an element, and no element exceeds it.
pub proof fn lemma_seq_max(s: Seq<u64>)
    requires
        s.len() > 0,
    ensures
        forall|i: int| 0 <= i < s.len() ==> #[trigger] s[i] <= seq_max(s),
        exists|k: int| 0 <= k < s.len() && #[trigger] s[k] == seq_max(s),
    decreases s.len(),
{
    if s.len() > 1 {
        let t = s.skip(1);
        lemma_seq_max(t);
        assert forall|i: int| 0 <= i < s.len() implies #[trigger] s[i] <= seq_max(s) by {
            if i > 0 {
                assert(s[i] == t[i - 1]);
            }
        }
        if s[0] < seq_max(t) {
            let k = choose|k: int| 0 <= k < t.len() && #[trigger] t[k] == seq_max(t);
            assert(s[k + 1] == t[k]);
        } else {
            assert(s[0] == seq_max(s));
        }
    } else {
        assert(s[0] == seq_max(s));
    }
}

proof fn lemma_sum_take_next(s: Seq<u64>, i: int)
    requires
        0 <= i < s.len(),
    ensures
        sum(s.take(i + 1)) == sum(s.take(i)) + s[i],
{
    lemma_sum_drop_last(s.take(i + 1));
    assert(s.take(i + 1).drop_last() =~= s.take(i));
}

/// Sum of all elements, in a type wide enough that it cannot overflow.
fn wide_sum(xs: &Vec<u64>) -> (r: u128)
    ensures
        r == sum(xs@),
{
    let mut acc: u128 = 0;
    let mut i: usize = 0;
    assert(xs@.take(0) =~= Seq::<u64>::empty());
    while i < xs.len()
        invariant
            i <= xs.len(),
            acc == sum(xs@.take(i as int)),
            acc <= i * 0xffff_ffff_ffff_ffffu128,
        decreases xs.len() - i,
    {
        proof {
            lemma_sum_take_next(xs@, i as int);
            assert((i + 1) * 0xffff_ffff_ffff_ffffu128 <= u128::MAX) by (nonlinear_arith)
                requires
                    i < 0x1_0000_0000_0000_0000int,
            ;
        }
        acc = acc + xs[i] as u128;
        i = i + 1;
    }
    assert(xs@.take(i as int) =~= xs@);
    acc
}

/// The sum of the operands, or `Overflow` when it does not fit in `u64`.
pub fn add(xs: Vec<u64>) -> (r: Result<u64, ArithError>)
    ensures
        r == (if sum(xs@) <= u64::MAX {
            Ok::<u64, ArithError>(sum(xs@) as u64)
        } else {
            Err::<u64, ArithError>(ArithError::Overflow)
        }),
{
    let s = wide_sum(&xs);
    if s <= u64::MAX as u128 {
        Ok(s as u64)
    } else {
        Err(ArithError::Overflow)
    }
}

proof fn lemma_prod_has_zero(s: Seq<u64>, k: int)
    requires
        0 <= k < s.len(),
        s[k] == 0,
    ensures
        prod(s) == 0,
    decreases s.len(),
{
    if k < s.len() - 1 {
        lemma_prod_has_zero(s.drop_last(), k);
    }
}

/// With no zero among the elements, a prefix's product is at least 1 and at
/// most the whole product.
proof fn lemma_prod_prefix_le(s: Seq<u64>, j: int)
    requires
        0 <= j <= s.len(),
        forall|i: int| 0 <= i < s.len() ==> #[trigger] s[i] >= 1,
    ensures
        1 <= prod(s.take(j)) <= prod(s),
    decreases s.len(),
{
    if j == s.len() {
        assert(s.take(j) =~= s);
        if s.len() > 0 {
            lemma_prod_prefix_le(s.drop_last(), j - 1);
            assert(s.drop_last().take(j - 1) =~= s.drop_last());
            let p = prod(s.drop_last());
            assert(p * s.last() >= 1) by (nonlinear_arith)
                requires
                    p >= 1,
                    s.last() >= 1,
            ;
        }
    } else {
        lemma_prod_prefix_le(s.drop_last(), j);
        assert(s.drop_last().take(j) =~= s.take(j));
        lemma_prod_prefix_le(s.drop_last(), s.len() - 1);
        assert(s.drop_last().take(s.len() - 1) =~= s.drop_last());
        let p = prod(s.drop_last());
        assert(p <= p * s.last()) by (nonlinear_arith)
            requires
                p >= 1,
                s.last() >= 1,
        ;
    }
}

/// The product of the operands (1 for none), or `Overflow` when it does not
/// fit in `u64`.
pub fn mul(xs: Vec<u64>) -> (r: Result<u64, ArithError>)
    ensures
        r == (if prod(xs@) <= u64::MAX {
            Ok::<u64, ArithError>(prod(xs@) as u64)
        } else {
            Err::<u64, ArithError>(ArithError::Overflow)
        }),
{
    let mut z: usize = 0;
    while z < xs.len()
        invariant
            z <= xs.len(),
            forall|i: int| 0 <= i < z ==> #[trigger] xs@[i] >= 1,
        decreases xs.len() - z,
    {
        if xs[z] == 0 {
            proof {
                lemma_prod_has_zero(xs@, z as int);
            }
            return Ok(0);
        }
        z = z + 1;
    }
    let mut acc: u64 = 1;
    let mut i: usize = 0;
    assert(prod(xs@.take(0)) == 1) by {
        assert(xs@.take(0) =~= Seq::<u64>::empty());
    }
    while i < xs.len()
        invariant
            i <= xs.len(),
            forall|k: int| 0 <= k < xs@.len() ==> #[trigger] xs@[k] >= 1,
            acc == prod(xs@.take(i as int)),
        decreases xs.len() - i,
    {
        assert(xs@.take(i + 1).drop_last() =~= xs@.take(i as int));
        match acc.checked_mul(xs[i]) {
            Some(p) => {
                acc = p;
            },
            None => {
                proof {
                    lemma_prod_prefix_le(xs@, i + 1);
                }
                return Err(ArithError::Overflow);
            },
        }
        i = i + 1;
    }
    assert(xs@.take(i as int) =~= xs@);
    Ok(acc)
}

/// The largest operand less the sum of all the others; `Underflow` when the
/// others add up to more than the largest, `NoOperands` for an empty list.
pub fn subtract(xs: Vec<u64>) -> (r: Result<u64, ArithError>)
    ensures
        xs@.len() == 0 ==> r == Err::<u64, ArithError>(ArithError::NoOperands),
        xs@.len() > 0 ==> r == (if sum(xs@) - seq_max(xs@) <= seq_max(xs@) {
            Ok::<u64, ArithError>((2 * seq_max(xs@) - sum(xs@)) as u64)
        } else {
            Err::<u64, ArithError>(ArithError::Underflow)
        }),
{
    if xs.len() == 0 {
        return Err(ArithError::NoOperands);
    }
    let mut k: usize = 0;
    let mut i: usize = 1;
    while i < xs.len()
        invariant
            0 < i <= xs.len(),
            k < i,
            forall|a: int| 0 <= a < i ==> #[trigger] xs@[a] <= xs@[k as int],
        decreases xs.len() - i,
    {
        if xs[i] > xs[k] {
            k = i;
        }
        i = i + 1;
    }
    proof {
        lemma_seq_max(xs@);
        let j = choose|j: int| 0 <= j < xs@.len() && #[trigger] xs@[j] == seq_max(xs@);
        assert(xs@[j] <= xs@[k as int]);
    }
    let m: u128 = xs[k] as u128;
    let s: u128 = wide_sum(&xs);
    proof {
        lemma_sum_split(xs@, k as int);
        lemma_sum_nonneg(xs@.take(k as int));
        assert(xs@.skip(k as int)[0] == xs@[k as int]);
        assert(xs@.skip(k as int).skip(1) =~= xs@.skip(k + 1));
        lemma_sum_nonneg(xs@.skip(k + 1));
    }
    let rest: u128 = s - m;
    if rest <= m {
        Ok((m - rest) as u64)
    } else {
        Err(ArithError::Underflow)
    }
}

} // verus!
