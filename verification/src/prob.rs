//! Exact probabilities as unreduced rationals, and rational arithmetic
//! used by the contracts of the model.

use vstd::prelude::*;

verus! {

/// A probability stored as the unreduced fraction `num / den`.
///
/// A fitted table keeps the raw count in `num` and the row's normalizer in
/// `den`, so a value is exact and a whole row provably sums to one.
/// A `Prob` with `den == 0` encodes a non-finite result (it arises only
/// from a degenerate posterior denominator, never inside a fitted table).
#[derive(Clone, Copy, PartialEq, Eq, Structural, Debug)]
pub struct Prob {
    pub num: usize,
    pub den: usize,
}

/// A rational number at the specification level: numerator and denominator.
pub type Rat = (int, int);

pub open spec fn rat_of(p: Prob) -> Rat {
    (p.num as int, p.den as int)
}

/// An optional table entry read as a rational, with absence meaning zero.
pub open spec fn rat_of_opt(o: Option<Prob>) -> Rat {
    match o {
        Some(p) => rat_of(p),
        None => (0int, 1int),
    }
}

pub open spec fn rat_add(a: Rat, b: Rat) -> Rat {
    (a.0 * b.1 + b.0 * a.1, a.1 * b.1)
}

pub open spec fn rat_mul(a: Rat, b: Rat) -> Rat {
    (a.0 * b.0, a.1 * b.1)
}

pub open spec fn rat_div(a: Rat, b: Rat) -> Rat {
    (a.0 * b.1, a.1 * b.0)
}

/// Equality of fractions by cross-multiplication.
pub open spec fn rat_eq(a: Rat, b: Rat) -> bool {
    a.0 * b.1 == b.0 * a.1
}

pub open spec fn is_one(a: Rat) -> bool {
    a.0 == a.1 && a.1 >= 1
}

/// The exact rational sum of the probabilities in a table row.
pub open spec fn probs_sum(s: Seq<(u64, Prob)>) -> Rat
    decreases s.len(),
{
    if s.len() == 0 {
        (0int, 1int)
    } else {
        rat_add(probs_sum(s.drop_last()), rat_of(s.last().1))
    }
}

/// The sum of the numerators of a table row.
pub open spec fn sum_nums(s: Seq<(u64, Prob)>) -> int
    decreases s.len(),
{
    if s.len() == 0 {
        0int
    } else {
        sum_nums(s.drop_last()) + s.last().1.num
    }
}

/// A row whose entries all share the denominator `d` sums, as a rational,
/// to the fraction `sum_nums / d`.
#[verifier::spinoff_prover]
#[verifier::rlimit(30)]
pub proof fn lemma_same_den_sum(s: Seq<(u64, Prob)>, d: int)
    requires
        d >= 1,
        forall|i: int| 0 <= i < s.len() ==> (#[trigger] s[i]).1.den == d,
    ensures
        probs_sum(s).1 >= 1,
        probs_sum(s).0 * d == probs_sum(s).1 * sum_nums(s),
    decreases s.len(),
{
    if s.len() == 0 {
        assert(probs_sum(s) == (0int, 1int));
        assert(sum_nums(s) == 0);
        assert(probs_sum(s).0 * d == probs_sum(s).1 * sum_nums(s)) by (nonlinear_arith)
            requires
                probs_sum(s).0 == 0,
                probs_sum(s).1 == 1,
                sum_nums(s) == 0,
        ;
    } else {
        let t = s.drop_last();
        assert(forall|i: int| 0 <= i < t.len() ==> (#[trigger] t[i]).1.den == d);
        lemma_same_den_sum(t, d);
        let r = probs_sum(t);
        let e = s.last().1;
        assert(s[s.len() - 1].1.den == d);
        assert(e.den == d);
        assert(probs_sum(s) == rat_add(r, rat_of(e)));
        assert(probs_sum(s).0 == r.0 * d + e.num as int * r.1);
        assert(probs_sum(s).1 == r.1 * d);
        assert(sum_nums(s) == sum_nums(t) + e.num);
        assert(probs_sum(s).0 * d == probs_sum(s).1 * sum_nums(s)) by (nonlinear_arith)
            requires
                probs_sum(s).0 == r.0 * d + e.num as int * r.1,
                probs_sum(s).1 == r.1 * d,
                sum_nums(s) == sum_nums(t) + e.num as int,
                r.0 * d == r.1 * sum_nums(t),
        ;
        assert(probs_sum(s).1 >= 1) by (nonlinear_arith)
            requires
                probs_sum(s).1 == r.1 * d,
                r.1 >= 1,
                d >= 1,
        ;
    }
}

/// A row of equal denominators whose numerators sum to that denominator
/// sums to exactly one.
pub proof fn lemma_row_sums_to_one(s: Seq<(u64, Prob)>, d: int)
    requires
        d >= 1,
        forall|i: int| 0 <= i < s.len() ==> (#[trigger] s[i]).1.den == d,
        sum_nums(s) == d,
    ensures
        is_one(probs_sum(s)),
{
    lemma_same_den_sum(s, d);
    let r = probs_sum(s);
    assert(r.0 * d == r.1 * d);
    assert(r.0 == r.1) by (nonlinear_arith)
        requires
            r.0 * d == r.1 * d,
            d >= 1,
    ;
}

/// Every numerator of a row is at most the row's numerator sum.
pub proof fn lemma_num_le_sum(s: Seq<(u64, Prob)>, j: int)
    requires
        0 <= j < s.len(),
    ensures
        s[j].1.num <= sum_nums(s),
        sum_nums(s) >= 0,
    decreases s.len(),
{
    lemma_sum_nums_nonneg(s.drop_last());
    if j < s.len() - 1 {
        lemma_num_le_sum(s.drop_last(), j);
    }
}

pub proof fn lemma_sum_nums_nonneg(s: Seq<(u64, Prob)>)
    ensures
        sum_nums(s) >= 0,
    decreases s.len(),
{
    if s.len() > 0 {
        lemma_sum_nums_nonneg(s.drop_last());
    }
}

/// Extending a prefix of a row by one entry adds that entry's numerator.
pub proof fn lemma_sum_nums_take_step(s: Seq<(u64, Prob)>, k: int)
    requires
        0 <= k < s.len(),
    ensures
        sum_nums(s.take(k + 1)) == sum_nums(s.take(k)) + s[k].1.num,
{
    assert(s.take(k + 1).drop_last() =~= s.take(k));
    assert(s.take(k + 1).last() == s[k]);
}

/// The numerator sum of a prefix is at most that of the whole row.
pub proof fn lemma_sum_nums_prefix_le(s: Seq<(u64, Prob)>, k: int)
    requires
        0 <= k <= s.len(),
    ensures
        sum_nums(s.take(k)) <= sum_nums(s),
    decreases s.len() - k,
{
    if k == s.len() {
        assert(s.take(k) =~= s);
    } else {
        lemma_sum_nums_take_step(s, k);
        lemma_sum_nums_prefix_le(s, k + 1);
    }
}

} // verus!
