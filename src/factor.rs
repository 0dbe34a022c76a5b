use vstd::prelude::*;
use vstd::arithmetic::div_mod::{lemma_fundamental_div_mod, lemma_mod_multiples_basic};

verus! {

/// Product of a sequence of factors, as a mathematical integer.
pub open spec fn prod(s: Seq<u64>) -> int
    decreases s.len(),
{
    if s.len() == 0 {
        1
    } else {
        prod(s.drop_last()) * s.last()
    }
}

/// `p` is a prime number.
pub open spec fn is_prime(p: int) -> bool {
    &&& p >= 2
    &&& forall|d: int| 2 <= d < p ==> #[trigger] (p % d) != 0
}

/// The elements of `s` never decrease from left to right.
pub open spec fn non_decreasing(s: Seq<u64>) -> bool {
    forall|i: int, j: int| 0 <= i < j < s.len() ==> s[i] <= s[j]
}

/// No integer in `[2, p)` divides `m`.
pub open spec fn no_divisor_below(m: int, p: int) -> bool {
    forall|d: int| 2 <= d < p ==> #[trigger] (m % d) != 0
}

/// If `d` divides `a` and `a` divides `b`, then `d` divides `b`.
proof fn lemma_divides_trans(d: int, a: int, b: int)
    requires
        d > 0,
        a > 0,
        a % d == 0,
        b % a == 0,
    ensures
        b % d == 0,
{
    lemma_fundamental_div_mod(a, d);
    lemma_fundamental_div_mod(b, a);
    let k = (a / d) * (b / a);
    assert(b == k * d) by (nonlinear_arith)
        requires
            a == d * (a / d),
            b == a * (b / a),
            k == (a / d) * (b / a),
    ;
    lemma_mod_multiples_basic(k, d);
}

/// A number at least 2 with no divisor in `[2, p)`, where `p * p > m`, is prime.
proof fn lemma_prime_by_bound(m: int, p: int)
    requires
        m >= 2,
        p >= 2,
        no_divisor_below(m, p),
        p * p > m,
    ensures
        is_prime(m),
{
    assert forall|d: int| 2 <= d < m implies #[trigger] (m % d) != 0 by {
        if m % d == 0 {
            lemma_fundamental_div_mod(m, d);
            let q = m / d;
            assert(m == d * q);
            assert(q >= 2) by (nonlinear_arith)
                requires
                    m == d * q,
                    2 <= d < m,
            ;
            lemma_mod_multiples_basic(d, q);
            assert(m % q == 0) by {
                assert(m == d * q);
            }
            if d < p {
                assert(m % d != 0);
            } else if q < p {
                assert(m % q != 0);
            } else {
                assert(d * q >= p * p) by (nonlinear_arith)
                    requires
                        d >= p,
                        q >= p,
                        p >= 2,
                ;
            }
        }
    }
}

/// Divides `p` out of `*x` as often as it goes evenly, pushing one `p` onto
/// `out` for each division.
pub fn trydiv(p: u64, x: &mut u64, out: &mut Vec<u64>)
    requires
        p >= 2,
        *old(x) > 0,
    ensures
        final(out)@.len() >= old(out)@.len(),
        forall|i: int| 0 <= i < old(out)@.len() ==> final(out)@[i] == old(out)@[i],
        forall|i: int| old(out)@.len() <= i < final(out)@.len() ==> final(out)@[i] == p,
        prod(final(out)@) * *final(x) == prod(old(out)@) * *old(x),
        *old(x) == *final(x) * prod(final(out)@.skip(old(out)@.len() as int)),
        0 < *final(x) <= *old(x),
        *old(x) % *final(x) == 0,
        *final(x) % p != 0,
        *old(x) % p != 0 ==> final(out)@ == old(out)@,
{
    let ghost x0: u64 = *x;
    let ghost out0: Seq<u64> = out@;
    while *x % p == 0
        invariant
            p >= 2,
            0 < *x <= x0,
            x0 % *x == 0,
            out@.len() >= out0.len(),
            forall|i: int| 0 <= i < out0.len() ==> out@[i] == out0[i],
            forall|i: int| out0.len() <= i < out@.len() ==> out@[i] == p,
            prod(out@) * *x == prod(out0) * x0,
            x0 == *x * prod(out@.skip(out0.len() as int)),
            x0 % p != 0 ==> out@ == out0,
        decreases *x,
    {
        let ghost before: Seq<u64> = out@;
        let ghost xv: int = *x as int;
        out.push(p);
        *x = *x / p;
        proof {
        assert(out@.drop_last() =~= before);
        lemma_fundamental_div_mod(xv, p as int);
        let q: int = xv / (p as int);
        assert(xv == p * q);
        assert(q > 0 && q < xv) by (nonlinear_arith)
            requires
                xv == p * q,
                xv > 0,
                p >= 2,
        ;
        let added: Seq<u64> = out@.skip(out0.len() as int);
        assert(added.drop_last() =~= before.skip(out0.len() as int));
        assert(x0 == q * prod(added)) by (nonlinear_arith)
            requires
                x0 == xv * prod(before.skip(out0.len() as int)),
                prod(added) == prod(before.skip(out0.len() as int)) * p,
                xv == p * q,
        ;
        assert(prod(out@) * q == prod(before) * xv) by (nonlinear_arith)
            requires
                prod(out@) == prod(before) * p,
                xv == p * q,
        ;
        lemma_mod_multiples_basic(p as int, q);
        assert(xv % q == 0) by {
            assert(xv == p * q);
        }
        lemma_divides_trans(q, xv, x0 as int);
        lemma_divides_trans(p as int, xv, x0 as int);
        }
    }
}

/// The prime factors of `n` in non-decreasing order, each repeated by its
/// multiplicity; empty for 0 and 1.
pub fn factor(n: u64) -> (r: Vec<u64>)
    ensures
        n < 2 ==> r@.len() == 0,
        n >= 2 ==> prod(r@) == n,
        forall|i: int| 0 <= i < r@.len() ==> is_prime(#[trigger] r@[i] as int),
        non_decreasing(r@),
{
    let mut out: Vec<u64> = Vec::new();
    if n < 2 {
        return out;
    }
    let mut m: u64 = n;
    trydiv(2, &mut m, &mut out);
    assert(prod(Seq::<u64>::empty()) == 1);
    assert(no_divisor_below(m as int, 3));
    let mut p: u64 = 3;
    while p <= m / p
        invariant
            0 < m <= n,
            prod(out@) * m == n,
            p >= 3,
            p % 2 == 1,
            no_divisor_below(m as int, p as int),
            forall|i: int| 0 <= i < out@.len() ==> is_prime(#[trigger] out@[i] as int),
            forall|i: int| 0 <= i < out@.len() ==> #[trigger] out@[i] < p,
            non_decreasing(out@),
        decreases u64::MAX - p,
    {
        let ghost m0: int = m as int;
        let ghost out0: Seq<u64> = out@;
        proof {
        lemma_fundamental_div_mod(m0, p as int);
        assert(p * p <= m0) by (nonlinear_arith)
            requires
                p <= m0 / (p as int),
                m0 == p * (m0 / (p as int)) + m0 % (p as int),
                m0 % (p as int) >= 0,
                p >= 3,
        ;
        assert(p < 0x1_0000_0000) by (nonlinear_arith)
            requires
                p * p <= m0,
                m0 <= u64::MAX,
        ;
        if m0 % (p as int) == 0 {
            assert forall|d: int| 2 <= d < p implies #[trigger] ((p as int) % d) != 0 by {
                if (p as int) % d == 0 {
                    lemma_divides_trans(d, p as int, m0);
                    assert(m0 % d != 0);
                }
            }
        }
        }
        trydiv(p, &mut m, &mut out);
        proof {
        assert forall|d: int| 2 <= d < p + 2 implies #[trigger] ((m as int) % d) != 0 by {
            if (m as int) % d == 0 {
                lemma_divides_trans(d, m as int, m0);
                if d < p {
                    assert(m0 % d != 0);
                } else if d == p + 1 {
                    assert(d % 2 == 0);
                    lemma_divides_trans(2, d, m as int);
                    lemma_divides_trans(2, m as int, m0);
                    assert(m0 % 2 != 0);
                }
            }
        }
        }
        assert(prod(out@) * m == n);
        p = p + 2;
    }
    let ghost m1: int = m as int;
    proof {
    lemma_fundamental_div_mod(m1, p as int);
    assert(p * p > m1) by (nonlinear_arith)
        requires
            p > m1 / (p as int),
            m1 == p * (m1 / (p as int)) + m1 % (p as int),
            m1 % (p as int) < p,
            p >= 3,
    ;
    }
    if m > 1 {
        proof {
        lemma_prime_by_bound(m as int, p as int);
        assert(m >= p) by {
            if m < p {
                assert((m as int) % (m as int) == 0);
            }
        }
        }
        let ghost before: Seq<u64> = out@;
        out.push(m);
        assert(out@.drop_last() =~= before);
        assert(prod(out@) == prod(before) * m);
    } else {
        assert(prod(out@) * 1 == prod(out@));
    }
    out
}

/// A prime raised to a power.
#[derive(Debug, Clone, Copy, PartialEq, Eq, Structural)]
pub struct Power {
    pub base: u64,
    pub exponent: u64,
}

/// The factor list that a list of powers stands for: each base repeated by
/// its exponent, in order.
pub open spec fn expand(ps: Seq<Power>) -> Seq<u64>
    decreases ps.len(),
{
    if ps.len() == 0 {
        Seq::empty()
    } else {
        expand(ps.drop_last()) + Seq::new(ps.last().exponent as nat, |_i: int| ps.last().base)
    }
}

/// Groups equal neighbouring factors into powers: `[2, 2, 2, 3, 3, 5]`
/// becomes `2^3, 3^2, 5^1`.
pub fn prime_powers(factors: &Vec<u64>) -> (r: Vec<Power>)
    ensures
        expand(r@) == factors@,
        forall|i: int| 0 <= i < r@.len() ==> #[trigger] r@[i].exponent >= 1,
        forall|i: int| 0 < i < r@.len() ==> #[trigger] r@[i].base != r@[i - 1].base,
{
    let mut out: Vec<Power> = Vec::new();
    if factors.len() == 0 {
        assert(expand(out@) =~= factors@);
        return out;
    }
    let mut base: u64 = factors[0];
    let mut exp: u64 = 1;
    let mut i: usize = 1;
    assert(factors@.take(1) =~= Seq::new(1, |_i: int| base));
    assert(expand(out@) + Seq::new(1, |_i: int| base) =~= factors@.take(1));
    while i < factors.len()
        invariant
            0 < i <= factors.len(),
            1 <= exp <= i,
            expand(out@) + Seq::new(exp as nat, |_j: int| base) =~= factors@.take(i as int),
            forall|k: int| 0 <= k < out@.len() ==> #[trigger] out@[k].exponent >= 1,
            forall|k: int| 0 < k < out@.len() ==> #[trigger] out@[k].base != out@[k - 1].base,
            out@.len() > 0 ==> out@.last().base != base,
        decreases factors.len() - i,
    {
        let f = factors[i];
        let ghost before: Seq<Power> = out@;
        if f != base {
            out.push(Power { base: base, exponent: exp });
            assert(out@.drop_last() =~= before);
            assert(expand(out@) + Seq::new(1, |_j: int| f) =~= factors@.take(i + 1));
            base = f;
            exp = 1;
        } else {
            let ghost a: Seq<u64> = expand(out@);
            let ghost b: Seq<u64> = Seq::new(exp as nat, |_j: int| base);
            assert(factors@.take(i + 1) =~= factors@.take(i as int).push(f));
            assert(Seq::new((exp + 1) as nat, |_j: int| base) =~= b.push(base));
            assert((a + b).push(base) =~= a + b.push(base));
            assert(expand(out@) + Seq::new((exp + 1) as nat, |_j: int| base) =~= factors@.take(i + 1));
            exp = exp + 1;
        }
        i = i + 1;
    }
    let ghost before: Seq<Power> = out@;
    out.push(Power { base: base, exponent: exp });
    assert(out@.drop_last() =~= before);
    assert(expand(out@) =~= factors@);
    out
}

} // verus!
