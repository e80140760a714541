//! Functional bucketing: boundaries computed per sample, without a table.

use vstd::prelude::*;
use vstd::arithmetic::power::{
    pow,
    lemma_pow0,
    lemma1_pow,
    lemma_pow_positive,
    lemma_pow_increases,
    lemma_pow_multiplies,
    lemma_pow_distributes,
    lemma_pow_strictly_increases_converse,
};
use vstd::arithmetic::power2::{lemma2_to64, lemma_pow2};
use crate::histogram::bucketing::Bucketing;
use crate::error::ConfigurationError;
use crate::natural::Natural;
use crate::root::{
    nearest_root,
    nearest_root_between,
    root_reaches,
    lemma_pow_unfold,
    lemma_pow_base_le,
    lemma_pow_base_lt,
    lemma_nearest_root_monotonic,
    lemma_nearest_root_of_power,
    lemma_root_reaches_iff,
};

verus! {

/// The boundary with the given index: `base^(index / per_magnitude)`,
/// rounded to the nearest integer.
pub open spec fn boundary(base: u64, per_magnitude: u32, index: nat) -> nat {
    nearest_root(pow(base as int, index) as nat, per_magnitude as nat)
}

/// The bucket with the given index holds `sample`: its boundary is not
/// above the sample, and the next boundary is.
pub open spec fn is_index_of(base: u64, per_magnitude: u32, sample: u64, index: nat) -> bool {
    boundary(base, per_magnitude, index) <= sample < boundary(base, per_magnitude, index + 1)
}

/// The index of the bucket that holds `sample`, for a sample above zero.
pub open spec fn bucket_index(base: u64, per_magnitude: u32, sample: u64) -> nat {
    choose|index: nat| is_index_of(base, per_magnitude, sample, index)
}

/// The minimum of the bucket that holds `sample`. Zero has a bucket of its own.
pub open spec fn functional_minimum(base: u64, per_magnitude: u32, sample: u64) -> nat {
    if sample == 0 {
        0
    } else {
        boundary(base, per_magnitude, bucket_index(base, per_magnitude, sample))
    }
}

/// Why no strategy can be built from these parameters, if that is so.
pub open spec fn functional_error(base: u64, buckets_per_magnitude: u32) -> Option<
    ConfigurationError,
> {
    if buckets_per_magnitude == 0 {
        Some(ConfigurationError::NoBucketsPerMagnitude)
    } else if base <= 1 {
        Some(ConfigurationError::BaseTooSmall)
    } else {
        None
    }
}

/// Powers of a base above one outgrow their exponent.
pub proof fn lemma_pow_outgrows(base: u64, e: nat)
    requires
        base >= 2,
    ensures
        pow(base as int, e) > e,
    decreases e,
{
    if e == 0 {
        lemma_pow0(base as int);
    } else {
        lemma_pow_outgrows(base, (e - 1) as nat);
        lemma_pow_unfold(base as int, (e - 1) as nat);
        let x = pow(base as int, (e - 1) as nat);
        assert(base * x >= 2 * x) by (nonlinear_arith)
            requires
                base >= 2,
                x >= 0,
        ;
    }
}

/// A later boundary is not below an earlier one.
pub proof fn lemma_boundary_monotonic(base: u64, per_magnitude: u32, i: nat, j: nat)
    requires
        base >= 2,
        per_magnitude >= 1,
        i <= j,
    ensures
        boundary(base, per_magnitude, i) <= boundary(base, per_magnitude, j),
{
    lemma_pow_positive(base as int, i);
    lemma_pow_increases(base as nat, i, j);
    lemma_nearest_root_monotonic(
        pow(base as int, i) as nat,
        pow(base as int, j) as nat,
        per_magnitude as nat,
    );
}

/// The first boundary is one.
pub proof fn lemma_boundary_start(base: u64, per_magnitude: u32)
    requires
        per_magnitude >= 1,
    ensures
        boundary(base, per_magnitude, 0) == 1,
{
    lemma_pow0(base as int);
    lemma1_pow(per_magnitude as nat);
    lemma_nearest_root_of_power(1, per_magnitude as nat);
}

/// After each full magnitude the boundary is a power of the base.
pub proof fn lemma_boundary_at_magnitude(base: u64, per_magnitude: u32, magnitude: nat)
    requires
        per_magnitude >= 1,
    ensures
        boundary(base, per_magnitude, magnitude * per_magnitude as nat) == pow(
            base as int,
            magnitude,
        ),
{
    lemma_pow_multiplies(base as int, magnitude, per_magnitude as nat);
    lemma_pow_base_le(0, base as nat, magnitude);
    lemma_nearest_root_of_power(pow(base as int, magnitude) as nat, per_magnitude as nat);
}

proof fn lemma_index_search(base: u64, per_magnitude: u32, sample: u64, index: nat, end: nat)
    requires
        base >= 2,
        per_magnitude >= 1,
        index <= end,
        boundary(base, per_magnitude, index) <= sample < boundary(base, per_magnitude, end),
    ensures
        exists|i: nat| is_index_of(base, per_magnitude, sample, i),
    decreases end - index,
{
    if sample < boundary(base, per_magnitude, index + 1) {
        assert(is_index_of(base, per_magnitude, sample, index));
    } else {
        lemma_index_search(base, per_magnitude, sample, index + 1, end);
    }
}

/// Every sample above zero lies in a bucket.
pub proof fn lemma_index_exists(base: u64, per_magnitude: u32, sample: u64)
    requires
        base >= 2,
        per_magnitude >= 1,
        sample >= 1,
    ensures
        is_index_of(base, per_magnitude, sample, bucket_index(base, per_magnitude, sample)),
{
    lemma_boundary_start(base, per_magnitude);
    lemma_boundary_at_magnitude(base, per_magnitude, sample as nat);
    lemma_pow_outgrows(base, sample as nat);
    lemma_index_search(base, per_magnitude, sample, 0, sample as nat * per_magnitude as nat);
}

/// No sample lies in two buckets.
pub proof fn lemma_index_unique(base: u64, per_magnitude: u32, sample: u64, index: nat)
    requires
        base >= 2,
        per_magnitude >= 1,
        is_index_of(base, per_magnitude, sample, index),
    ensures
        bucket_index(base, per_magnitude, sample) == index,
{
    let other = bucket_index(base, per_magnitude, sample);
    assert(is_index_of(base, per_magnitude, sample, other));
    if index < other {
        lemma_boundary_monotonic(base, per_magnitude, index + 1, other);
    } else if other < index {
        lemma_boundary_monotonic(base, per_magnitude, other + 1, index);
    }
}

/// A larger sample lies in no earlier bucket, and its bucket has no smaller minimum.
pub proof fn lemma_functional_minimum_monotonic(base: u64, per_magnitude: u32, s1: u64, s2: u64)
    requires
        base >= 2,
        per_magnitude >= 1,
        s1 <= s2,
    ensures
        functional_minimum(base, per_magnitude, s1) <= functional_minimum(base, per_magnitude, s2),
        functional_minimum(base, per_magnitude, s2) <= s2,
{
    if s2 >= 1 {
        lemma_index_exists(base, per_magnitude, s2);
    }
    if s1 >= 1 {
        lemma_index_exists(base, per_magnitude, s1);
        let i = bucket_index(base, per_magnitude, s1);
        let j = bucket_index(base, per_magnitude, s2);
        if j < i {
            lemma_boundary_monotonic(base, per_magnitude, j + 1, i);
        }
        lemma_boundary_monotonic(base, per_magnitude, i, j);
    }
}

/// A boundary that is not above a sample has an index below 64 per magnitude.
pub proof fn lemma_index_bound(base: u64, per_magnitude: nat, sample: u64, index: nat)
    requires
        base >= 2,
        per_magnitude >= 1,
        pow(2, per_magnitude) * pow(base as int, index) < pow(2 * sample + 1, per_magnitude),
    ensures
        index < 64 * per_magnitude,
{
    let t = pow(2, per_magnitude);
    let x = pow(base as int, index);
    let y = pow(2, 64 * per_magnitude);
    lemma_pow_base_lt((2 * sample + 1) as nat, 0x2_0000_0000_0000_0000, per_magnitude);
    lemma_pow_distributes(2, 0x1_0000_0000_0000_0000, per_magnitude);
    lemma2_to64();
    lemma_pow2(64);
    lemma_pow_multiplies(2, 64, per_magnitude);
    lemma_pow_positive(2, per_magnitude);
    assert(x < y) by (nonlinear_arith)
        requires
            t > 0,
            t * x < t * y,
    ;
    lemma_pow_base_le(2, base as nat, index);
    lemma_pow_strictly_increases_converse(2, index, 64 * per_magnitude);
}

/// A power of the base that is not above a sample has an exponent below 64.
pub proof fn lemma_magnitude_bound(base: u64, exponent: nat, sample: u64)
    requires
        base >= 2,
        pow(base as int, exponent) <= sample,
    ensures
        exponent < 64,
{
    lemma2_to64();
    lemma_pow2(64);
    lemma_pow_base_le(2, base as nat, exponent);
    lemma_pow_strictly_increases_converse(2, exponent, 64);
}

/// What a functional strategy holds: the parameters it was built from.
pub struct FunctionalView {
    /// The factor by which the boundaries grow over one magnitude.
    pub base: u64,
    /// The number of buckets in each magnitude.
    pub buckets_per_magnitude: u32,
}

/// A bucketing strategy that computes each bucket from the sample.
///
/// Boundaries grow by the factor `base` every `buckets_per_magnitude`
/// buckets: the boundary with index `i` is `base^(i / buckets_per_magnitude)`
/// rounded to the nearest integer. No table is kept, and every sample up to
/// `u64::MAX` has a bucket.
#[derive(Debug, Clone, Copy)]
pub struct Functional {
    base: u64,
    buckets_per_magnitude: u32,
}

impl View for Functional {
    type V = FunctionalView;

    closed spec fn view(&self) -> FunctionalView {
        FunctionalView { base: self.base, buckets_per_magnitude: self.buckets_per_magnitude }
    }
}

impl Functional {
    /// Builds the strategy with `buckets_per_magnitude` buckets for each
    /// growth by the factor `base`.
    ///
    /// Fails without a bucket per magnitude, and where `base` is not above one.
    pub fn new(base: u64, buckets_per_magnitude: u32) -> (built: Result<Self, ConfigurationError>)
        ensures
            match built {
                Ok(strategy) => {
                    &&& functional_error(base, buckets_per_magnitude) is None
                    &&& strategy.wf()
                    &&& strategy@.base == base
                    &&& strategy@.buckets_per_magnitude == buckets_per_magnitude
                },
                Err(error) => functional_error(base, buckets_per_magnitude) == Some(error),
            },
    {
        if buckets_per_magnitude == 0 {
            return Err(ConfigurationError::NoBucketsPerMagnitude);
        }
        if base <= 1 {
            return Err(ConfigurationError::BaseTooSmall);
        }
        Ok(Functional { base, buckets_per_magnitude })
    }

    /// The factor by which the boundaries grow over one magnitude.
    pub fn base(&self) -> (base: u64)
        ensures
            base == self@.base,
    {
        self.base
    }

    /// The number of buckets in each magnitude.
    pub fn buckets_per_magnitude(&self) -> (buckets_per_magnitude: u32)
        ensures
            buckets_per_magnitude == self@.buckets_per_magnitude,
    {
        self.buckets_per_magnitude
    }

    /// The largest power of the base that is not above `sample`, and its exponent.
    fn magnitude(&self, sample: u64) -> (found: (u64, u64))
        requires
            self.wf(),
            sample >= 1,
        ensures
            found.0 == pow(self@.base as int, found.1 as nat),
            1 <= found.0 <= sample,
            found.1 < 64,
    {
        let mut power: u64 = 1;
        let mut exponent: u64 = 0;
        proof {
            lemma_pow0(self.base as int);
        }
        while power <= sample / self.base
            invariant
                self.wf(),
                power == pow(self@.base as int, exponent as nat),
                1 <= power <= sample,
                exponent < 64,
            decreases sample - power,
        {
            proof {
                lemma_pow_unfold(self.base as int, exponent as nat);
                vstd::arithmetic::div_mod::lemma_fundamental_div_mod(
                    sample as int,
                    self.base as int,
                );
                assert(power * self.base <= sample) by (nonlinear_arith)
                    requires
                        power <= sample / self.base,
                        self.base >= 2,
                        sample == self.base * (sample / self.base) + sample % self.base,
                        sample % self.base >= 0,
                ;
                assert(power < power * self.base) by (nonlinear_arith)
                    requires
                        power >= 1,
                        self.base >= 2,
                ;
                lemma_magnitude_bound(self.base, (exponent + 1) as nat, sample);
            }
            power = power * self.base;
            exponent = exponent + 1;
        }
        (power, exponent)
    }

    /// Finds the last boundary that is not above `sample`. Returns its
    /// index, and `2^n * base^index` for `n` buckets per magnitude, from
    /// which the boundary is rounded.
    ///
    /// Starts at the boundary of the sample's magnitude, which is a power of
    /// the base, and walks the boundaries up from there.
    fn walk(&self, sample: u64) -> (reached: (u64, Natural))
        requires
            self.wf(),
            sample >= 1,
        ensures
            reached.0 == bucket_index(self@.base, self@.buckets_per_magnitude, sample),
            is_index_of(self@.base, self@.buckets_per_magnitude, sample, reached.0 as nat),
            pow(self@.base as int, reached.0 as nat) >= 1,
            reached.1.value() == pow(2, self@.buckets_per_magnitude as nat) * pow(
                self@.base as int,
                reached.0 as nat,
            ),
            root_reaches(
                pow(self@.base as int, reached.0 as nat) as nat,
                self@.buckets_per_magnitude as nat,
                1,
            ),
            !root_reaches(
                pow(self@.base as int, reached.0 as nat) as nat,
                self@.buckets_per_magnitude as nat,
                (sample + 1) as nat,
            ),
    {
        let per_magnitude: usize = self.buckets_per_magnitude as usize;
        let ghost n = per_magnitude as nat;
        let ghost base = self.base as int;
        let limit = Natural::one().times_power(2 * (sample as u128) + 1, per_magnitude);
        let (power, exponent) = self.magnitude(sample);
        assert(exponent * self.buckets_per_magnitude <= 63 * 0xffff_ffff) by (nonlinear_arith)
            requires
                exponent <= 63,
                self.buckets_per_magnitude <= 0xffff_ffff,
        ;
        let mut index: u64 = exponent * (self.buckets_per_magnitude as u64);
        let mut scaled = Natural::one().times_power(2 * (power as u128), per_magnitude);
        let mut next = scaled.times(self.base as u128);
        proof {
            lemma_pow_distributes(2, power as int, n);
            lemma_pow_multiplies(base, exponent as nat, n);
            lemma_pow_base_lt((2 * power) as nat, (2 * sample + 1) as nat, n);
            assert(exponent as nat * n == index as nat) by (nonlinear_arith)
                requires
                    index == exponent * n,
            ;
        }
        while next.less_than(&limit)
            invariant
                self.wf(),
                base == self@.base,
                n == self@.buckets_per_magnitude,
                limit.value() == 1 * pow(2 * sample + 1, n),
                scaled.value() == pow(2, n) * pow(base, index as nat),
                scaled.value() < limit.value(),
                next.value() == scaled.value() * base,
            decreases limit.value() - scaled.value(),
        {
            proof {
                lemma_pow_unfold(base, index as nat);
                lemma_pow_positive(2, n);
                lemma_pow_positive(base, index as nat);
                let t = pow(2, n);
                let x = pow(base, index as nat);
                assert(t * x < (t * x) * base && (t * x) * base == t * (base * x))
                    by (nonlinear_arith)
                    requires
                        t > 0,
                        x > 0,
                        base >= 2,
                ;
                lemma_index_bound(self.base, n, sample, (index + 1) as nat);
            }
            index = index + 1;
            scaled = next;
            next = scaled.times(self.base as u128);
        }
        proof {
            let p = pow(base, index as nat) as nat;
            let q = pow(base, (index + 1) as nat) as nat;
            let t = pow(2, n);
            lemma_pow_unfold(base, index as nat);
            lemma_pow_positive(base, index as nat);
            lemma_pow_positive(base, (index + 1) as nat);
            lemma_pow_positive(2, n);
            lemma1_pow(n);
            assert((t * pow(base, index as nat)) * base == t * (base * pow(base, index as nat)))
                by (nonlinear_arith);
            assert(1 <= t * p) by (nonlinear_arith)
                requires
                    t >= 1,
                    p >= 1,
            ;
            assert(root_reaches(p, n, 1));
            assert(!root_reaches(p, n, (sample + 1) as nat));
            assert(root_reaches(q, n, (sample + 1) as nat));
            lemma_root_reaches_iff(p, n, (sample + 1) as nat);
            lemma_root_reaches_iff(q, n, (sample + 1) as nat);
            lemma_index_unique(self@.base, self@.buckets_per_magnitude, sample, index as nat);
        }
        (index, scaled)
    }

    /// The index of the bucket that holds `sample`: that of the last
    /// boundary that is not above it. Zero lies below all boundaries and has
    /// no index.
    pub fn sample_to_bucket_index(&self, sample: u64) -> (index: Option<u64>)
        requires
            self.wf(),
        ensures
            sample == 0 ==> index is None,
            sample >= 1 ==> {
                &&& index is Some
                &&& index->0 == bucket_index(self@.base, self@.buckets_per_magnitude, sample)
                &&& is_index_of(
                    self@.base,
                    self@.buckets_per_magnitude,
                    sample,
                    index->0 as nat,
                )
            },
    {
        if sample == 0 {
            return None;
        }
        let (index, _) = self.walk(sample);
        Some(index)
    }
}

impl Bucketing for Functional {
    /// The parameters are valid.
    open spec fn wf(&self) -> bool {
        self@.base >= 2 && self@.buckets_per_magnitude >= 1
    }

    open spec fn bucket_minimum(&self, sample: u64) -> u64 {
        functional_minimum(self@.base, self@.buckets_per_magnitude, sample) as u64
    }

    /// Get the bucket for the sample.
    ///
    /// Zero has a bucket of its own. For any other sample this walks to the
    /// last boundary that is not above it, and rounds that boundary.
    fn sample_to_bucket_minimum(&self, sample: u64) -> (minimum: u64)
        ensures
            sample == 0 ==> minimum == 0,
            minimum <= sample,
    {
        if sample == 0 {
            return 0;
        }
        let (index, scaled) = self.walk(sample);
        nearest_root_between(
            &scaled,
            self.buckets_per_magnitude as usize,
            1,
            sample,
            Ghost(pow(self.base as int, index as nat) as nat),
        )
    }

    proof fn lemma_bucket_minimum_monotonic(&self, s1: u64, s2: u64) {
        lemma_functional_minimum_monotonic(self@.base, self@.buckets_per_magnitude, s1, s2);
        lemma_functional_minimum_monotonic(self@.base, self@.buckets_per_magnitude, s1, s1);
    }

    proof fn lemma_bucket_minimum_idempotent(&self, sample: u64) {
        let base = self@.base;
        let n = self@.buckets_per_magnitude;
        if sample >= 1 {
            lemma_index_exists(base, n, sample);
            let index = bucket_index(base, n, sample);
            lemma_boundary_start(base, n);
            lemma_boundary_monotonic(base, n, 0, index);
            let minimum = boundary(base, n, index) as u64;
            lemma_index_unique(base, n, minimum, index);
        }
    }
}

} // verus!
