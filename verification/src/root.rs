//! Nearest integers to roots of natural numbers, stated without fractions.
//!
//! Bucket boundaries are geometric progressions rounded to integers. The
//! value `round(p^(1/k))` is the one natural number `m` with
//! `m - 1/2 <= p^(1/k) < m + 1/2`; doubling and raising to the `k`-th power
//! turns that into a comparison of integers, which is what this module uses.

use vstd::prelude::*;
use vstd::arithmetic::power::{
    pow,
    lemma_pow0,
    lemma_pow1,
    lemma1_pow,
    lemma_pow_positive,
    lemma_pow_increases,
    lemma_pow_distributes,
};
use crate::natural::Natural;

verus! {

/// `m - 1/2 <= p^(1/k)`: rounding the `k`-th root of `p` gives at least `m`.
pub open spec fn root_reaches(p: nat, k: nat, m: nat) -> bool {
    m == 0 || pow(2 * m - 1, k) <= pow(2, k) * p
}

/// `m` is the `k`-th root of `p` rounded to the nearest integer, halves upwards.
pub open spec fn is_nearest_root(p: nat, k: nat, m: nat) -> bool {
    root_reaches(p, k, m) && !root_reaches(p, k, m + 1)
}

/// The `k`-th root of `p` rounded to the nearest integer, for `k >= 1`.
pub open spec fn nearest_root(p: nat, k: nat) -> nat {
    choose|m: nat| is_nearest_root(p, k, m)
}

/// One unfolding of `pow`.
pub proof fn lemma_pow_unfold(b: int, e: nat)
    ensures
        pow(b, e + 1) == b * pow(b, e),
{
    reveal(pow);
}

/// Powers do not decrease when the base grows.
pub proof fn lemma_pow_base_le(a: nat, b: nat, e: nat)
    requires
        a <= b,
    ensures
        0 <= pow(a as int, e) <= pow(b as int, e),
    decreases e,
{
    if e == 0 {
        lemma_pow0(a as int);
        lemma_pow0(b as int);
    } else {
        let f = (e - 1) as nat;
        lemma_pow_base_le(a, b, f);
        lemma_pow_unfold(a as int, f);
        lemma_pow_unfold(b as int, f);
        let x = pow(a as int, f);
        let y = pow(b as int, f);
        assert(0 <= a * x <= b * y) by (nonlinear_arith)
            requires
                0 <= a <= b,
                0 <= x <= y,
        ;
    }
}

/// Positive powers grow strictly with the base.
pub proof fn lemma_pow_base_lt(a: nat, b: nat, e: nat)
    requires
        a < b,
        e >= 1,
    ensures
        pow(a as int, e) < pow(b as int, e),
{
    let f = (e - 1) as nat;
    lemma_pow_base_le(a, b, f);
    lemma_pow_unfold(a as int, f);
    lemma_pow_unfold(b as int, f);
    lemma_pow_positive(b as int, f);
    let x = pow(a as int, f);
    let y = pow(b as int, f);
    assert(a * x < b * y) by (nonlinear_arith)
        requires
            0 <= a < b,
            0 <= x <= y,
            0 < y,
    ;
}

/// If rounding reaches `hi` it reaches everything below.
pub proof fn lemma_root_reaches_below(p: nat, k: nat, lo: nat, hi: nat)
    requires
        lo <= hi,
        root_reaches(p, k, hi),
    ensures
        root_reaches(p, k, lo),
{
    if lo > 0 {
        lemma_pow_base_le((2 * lo - 1) as nat, (2 * hi - 1) as nat, k);
    }
}

/// What the root of `p` reaches, the root of a larger number reaches too.
pub proof fn lemma_root_reaches_larger(p: nat, q: nat, k: nat, m: nat)
    requires
        p <= q,
        root_reaches(p, k, m),
    ensures
        root_reaches(q, k, m),
{
    lemma_pow_positive(2, k);
    let t = pow(2, k);
    assert(t * p <= t * q) by (nonlinear_arith)
        requires
            0 < t,
            p <= q,
    ;
}

/// The rounded root of `p` never exceeds `p`.
pub proof fn lemma_root_stops(p: nat, k: nat)
    requires
        k >= 1,
    ensures
        !root_reaches(p, k, p + 1),
{
    if p == 0 {
        lemma1_pow(k);
    } else {
        lemma_pow_base_lt(2 * p, 2 * p + 1, k);
        lemma_pow_distributes(2, p as int, k);
        lemma_pow1(p as int);
        lemma_pow_increases(p, 1, k);
        lemma_pow_positive(2, k);
        let t = pow(2, k);
        let x = pow(p as int, k);
        assert(t * p <= t * x) by (nonlinear_arith)
            requires
                0 < t,
                p <= x,
        ;
    }
}

proof fn lemma_nearest_root_search(p: nat, k: nat, m: nat)
    requires
        m <= p,
        root_reaches(p, k, m),
        !root_reaches(p, k, p + 1),
    ensures
        exists|r: nat| is_nearest_root(p, k, r),
    decreases p - m,
{
    if !root_reaches(p, k, m + 1) {
        assert(is_nearest_root(p, k, m));
    } else {
        lemma_nearest_root_search(p, k, m + 1);
    }
}

/// Every natural number has a rounded `k`-th root.
pub proof fn lemma_nearest_root_exists(p: nat, k: nat)
    requires
        k >= 1,
    ensures
        is_nearest_root(p, k, nearest_root(p, k)),
{
    lemma_root_stops(p, k);
    lemma_nearest_root_search(p, k, 0);
}

/// The rounded root is the only number that meets its definition.
pub proof fn lemma_nearest_root_unique(p: nat, k: nat, m: nat)
    requires
        is_nearest_root(p, k, m),
    ensures
        nearest_root(p, k) == m,
{
    let r = nearest_root(p, k);
    assert(is_nearest_root(p, k, r));
    if r < m {
        lemma_root_reaches_below(p, k, r + 1, m);
    } else if m < r {
        lemma_root_reaches_below(p, k, m + 1, r);
    }
}

/// Rounding reaches exactly the numbers up to the rounded root.
pub proof fn lemma_root_reaches_iff(p: nat, k: nat, m: nat)
    requires
        k >= 1,
    ensures
        root_reaches(p, k, m) <==> m <= nearest_root(p, k),
{
    lemma_nearest_root_exists(p, k);
    let r = nearest_root(p, k);
    if m <= r {
        lemma_root_reaches_below(p, k, m, r);
    } else if root_reaches(p, k, m) {
        lemma_root_reaches_below(p, k, r + 1, m);
    }
}

/// A larger number has no smaller rounded root.
pub proof fn lemma_nearest_root_monotonic(p: nat, q: nat, k: nat)
    requires
        k >= 1,
        p <= q,
    ensures
        nearest_root(p, k) <= nearest_root(q, k),
{
    lemma_nearest_root_exists(p, k);
    lemma_root_reaches_larger(p, q, k, nearest_root(p, k));
    lemma_root_reaches_iff(q, k, nearest_root(p, k));
}

/// The rounded `k`-th root of a `k`-th power is its base.
pub proof fn lemma_nearest_root_of_power(a: nat, k: nat)
    requires
        k >= 1,
    ensures
        pow(a as int, k) >= 0,
        nearest_root(pow(a as int, k) as nat, k) == a,
{
    lemma_pow_base_le(0, a, k);
    lemma_pow_distributes(2, a as int, k);
    lemma_pow_base_lt(2 * a, 2 * a + 1, k);
    if a > 0 {
        lemma_pow_base_le((2 * a - 1) as nat, 2 * a, k);
    }
    lemma_nearest_root_unique(pow(a as int, k) as nat, k, a);
}

/// Finds the rounded `k`-th root of `p` between `lo` and `hi`, given `2^k * p`.
///
/// Halves the range with each step; a step raises one number to the
/// `k`-th power.
pub(crate) fn nearest_root_between(
    scaled: &Natural,
    k: usize,
    lo: u64,
    hi: u64,
    Ghost(p): Ghost<nat>,
) -> (m: u64)
    requires
        k >= 1,
        scaled.value() == pow(2, k as nat) * p,
        lo <= hi,
        root_reaches(p, k as nat, lo as nat),
        !root_reaches(p, k as nat, (hi + 1) as nat),
    ensures
        m == nearest_root(p, k as nat),
        lo <= m <= hi,
{
    let mut low: u64 = lo;
    let mut high: u64 = hi;
    while low < high
        invariant
            lo <= low <= high <= hi,
            scaled.value() == pow(2, k as nat) * p,
            root_reaches(p, k as nat, low as nat),
            !root_reaches(p, k as nat, (high + 1) as nat),
        decreases high - low,
    {
        let mid: u64 = high - (high - low) / 2;
        let probe = Natural::one().times_power(2 * (mid as u128) - 1, k);
        if scaled.less_than(&probe) {
            high = mid - 1;
        } else {
            low = mid;
        }
    }
    proof {
        lemma_nearest_root_unique(p, k as nat, low as nat);
    }
    low
}

} // verus!
