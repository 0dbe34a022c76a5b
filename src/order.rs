use vstd::prelude::*;
use crate::seqs::all_positive;

verus! {

/// `a` comes strictly after `b` in lexicographic order (a proper prefix
/// comes first).
pub open spec fn lex_gt(a: Seq<u64>, b: Seq<u64>) -> bool
    decreases a.len(),
{
    if a.len() == 0 {
        false
    } else if b.len() == 0 {
        true
    } else if a[0] != b[0] {
        a[0] > b[0]
    } else {
        lex_gt(a.skip(1), b.skip(1))
    }
}

/// No sequence comes strictly after itself.
pub proof fn lemma_lex_irreflexive(a: Seq<u64>)
    ensures
        !lex_gt(a, a),
    decreases a.len(),
{
    if a.len() > 0 {
        lemma_lex_irreflexive(a.skip(1));
    }
}

/// Lexicographic order is transitive.
pub proof fn lemma_lex_transitive(a: Seq<u64>, b: Seq<u64>, c: Seq<u64>)
    requires
        lex_gt(a, b),
        lex_gt(b, c),
    ensures
        lex_gt(a, c),
    decreases a.len(),
{
    if c.len() > 0 && a[0] == b[0] && b[0] == c[0] {
        lemma_lex_transitive(a.skip(1), b.skip(1), c.skip(1));
    }
}

/// Of two different sequences, one comes strictly after the other.
pub proof fn lemma_lex_total(a: Seq<u64>, b: Seq<u64>)
    requires
        a != b,
    ensures
        lex_gt(a, b) || lex_gt(b, a),
    decreases a.len(),
{
    if a.len() == 0 && b.len() == 0 {
        assert(a =~= b);
    } else if a.len() > 0 && b.len() > 0 && a[0] == b[0] {
        if a.skip(1) == b.skip(1) {
            assert(a.skip(1).len() == b.skip(1).len());
            assert(a.len() == b.len());
            assert forall|i: int| 0 <= i < a.len() implies a[i] == b[i] by {
                if i > 0 {
                    assert(a[i] == a.skip(1)[i - 1]);
                    assert(b[i] == b.skip(1)[i - 1]);
                }
            }
            assert(a =~= b);
        }
        lemma_lex_total(a.skip(1), b.skip(1));
    }
}

/// Two sequences that agree before position `k` and differ there are ordered
/// by their elements at `k`.
pub proof fn lemma_lex_first_difference(a: Seq<u64>, b: Seq<u64>, k: int)
    requires
        0 <= k < a.len(),
        k < b.len(),
        forall|i: int| 0 <= i < k ==> a[i] == b[i],
        a[k] > b[k],
    ensures
        lex_gt(a, b),
    decreases k,
{
    if k > 0 {
        lemma_lex_first_difference(a.skip(1), b.skip(1), k - 1);
    }
}

/// `b` raised to the power `e`.
pub open spec fn pw(b: int, e: nat) -> int
    decreases e,
{
    if e == 0 {
        1
    } else {
        b * pw(b, (e - 1) as nat)
    }
}

/// Reads the first `l` elements of `s` as the digits of a number in base `b`,
/// most significant first, with missing digits taken as zero.
pub open spec fn digits_value(s: Seq<u64>, l: nat, b: int) -> int
    decreases l,
{
    if l == 0 || s.len() == 0 {
        0
    } else {
        s[0] * pw(b, (l - 1) as nat) + digits_value(s.skip(1), (l - 1) as nat, b)
    }
}

/// Every element of `s` is at most `m`.
pub open spec fn bounded_by(s: Seq<u64>, m: int) -> bool {
    forall|i: int| 0 <= i < s.len() ==> #[trigger] s[i] <= m
}

proof fn lemma_pw_positive(b: int, e: nat)
    requires
        b >= 1,
    ensures
        pw(b, e) >= 1,
    decreases e,
{
    if e > 0 {
        lemma_pw_positive(b, (e - 1) as nat);
        assert(b * pw(b, (e - 1) as nat) >= 1) by (nonlinear_arith)
            requires
                b >= 1,
                pw(b, (e - 1) as nat) >= 1,
        ;
    }
}

/// A value of `l` digits below `b` is less than `b` to the power `l`.
pub proof fn lemma_digits_value_bound(s: Seq<u64>, l: nat, b: int)
    requires
        b >= 2,
        s.len() <= l,
        bounded_by(s, b - 1),
    ensures
        0 <= digits_value(s, l, b) < pw(b, l),
    decreases l,
{
    lemma_pw_positive(b, l);
    if l > 0 && s.len() > 0 {
        let p = pw(b, (l - 1) as nat);
        lemma_pw_positive(b, (l - 1) as nat);
        lemma_digits_value_bound(s.skip(1), (l - 1) as nat, b);
        let r = digits_value(s.skip(1), (l - 1) as nat, b);
        let d = s[0] as int;
        assert(d <= b - 1);
        assert(0 <= d * p + r < b * p) by (nonlinear_arith)
            requires
                0 <= d <= b - 1,
                0 <= r < p,
                p >= 1,
        ;
    }
}

/// The lexicographic order of bounded positive digit sequences agrees with
/// the order of their values.
pub proof fn lemma_digits_value_monotone(a: Seq<u64>, c: Seq<u64>, l: nat, b: int)
    requires
        b >= 2,
        a.len() <= l,
        c.len() <= l,
        bounded_by(a, b - 1),
        bounded_by(c, b - 1),
        all_positive(a),
        lex_gt(a, c),
    ensures
        digits_value(c, l, b) < digits_value(a, l, b),
    decreases l,
{
    let p = pw(b, (l - 1) as nat);
    lemma_pw_positive(b, (l - 1) as nat);
    lemma_digits_value_bound(a.skip(1), (l - 1) as nat, b);
    let ra = digits_value(a.skip(1), (l - 1) as nat, b);
    let da = a[0] as int;
    assert(da >= 1);
    if c.len() == 0 {
        assert(da * p + ra > 0) by (nonlinear_arith)
            requires
                da >= 1,
                p >= 1,
                ra >= 0,
        ;
    } else {
        lemma_digits_value_bound(c.skip(1), (l - 1) as nat, b);
        let rc = digits_value(c.skip(1), (l - 1) as nat, b);
        let dc = c[0] as int;
        if da > dc {
            assert(dc * p + rc < da * p + ra) by (nonlinear_arith)
                requires
                    da > dc,
                    0 <= rc < p,
                    ra >= 0,
            ;
        } else {
            lemma_digits_value_monotone(a.skip(1), c.skip(1), (l - 1) as nat, b);
        }
    }
}

} // verus!
