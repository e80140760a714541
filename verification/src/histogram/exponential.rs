//! Exponential bucketing with boundaries computed once, when the strategy is built.

use vstd::prelude::*;
use vstd::arithmetic::power::{pow, lemma_pow0, lemma_pow_adds};
use crate::histogram::bucketing::Bucketing;
use crate::error::ConfigurationError;
use crate::natural::Natural;
use crate::root::{
    nearest_root,
    nearest_root_between,
    lemma_pow_base_le,
    lemma_nearest_root_monotonic,
    lemma_nearest_root_of_power,
    lemma_root_reaches_iff,
};

verus! {

/// `min^(k - i) * max^i`: the `k`-th power of the `i`-th of `k + 1` points
/// spaced geometrically from `min` to `max`.
pub open spec fn progression_power(min: u64, max: u64, k: nat, i: nat) -> int {
    pow(min as int, (k - i) as nat) * pow(max as int, i)
}

/// The `i`-th of `bucket_count` points spaced geometrically from `min` to
/// `max`, rounded to the nearest integer: `min * (max / min)^(i / (bucket_count - 1))`.
/// A single bucket starts at `min`.
pub open spec fn candidate(min: u64, max: u64, bucket_count: nat, i: nat) -> nat {
    if bucket_count <= 1 {
        min as nat
    } else {
        let k = (bucket_count - 1) as nat;
        nearest_root(progression_power(min, max, k, i) as nat, k)
    }
}

/// The first `n` candidates without those that repeat the one before.
pub open spec fn boundaries(min: u64, max: u64, bucket_count: nat, n: nat) -> Seq<u64>
    decreases n,
{
    if n == 0 {
        Seq::empty()
    } else {
        let earlier = boundaries(min, max, bucket_count, (n - 1) as nat);
        let next = candidate(min, max, bucket_count, (n - 1) as nat) as u64;
        if earlier.len() > 0 && earlier.last() >= next {
            earlier
        } else {
            earlier.push(next)
        }
    }
}

/// Why no strategy can be built from these parameters, if that is so.
pub open spec fn exponential_error(min: u64, max: u64, bucket_count: usize) -> Option<
    ConfigurationError,
> {
    if bucket_count == 0 {
        Some(ConfigurationError::NoBuckets)
    } else if min >= max {
        Some(ConfigurationError::EmptyRange)
    } else {
        None
    }
}

/// Each entry is below all later ones.
pub open spec fn strictly_increasing(table: Seq<u64>) -> bool {
    forall|i: int, j: int| 0 <= i < j < table.len() ==> table[i] < table[j]
}

/// The bucket at index `i` is the one for `sample`: the last whose boundary
/// is not above the sample, or the first where the sample is below them all.
pub open spec fn holds_sample(table: Seq<u64>, sample: u64, i: int) -> bool {
    &&& 0 <= i < table.len()
    &&& (i == 0 || table[i] <= sample)
    &&& (i + 1 == table.len() || sample < table[i + 1])
}

/// The index of the bucket for `sample`.
pub open spec fn bucket_index(table: Seq<u64>, sample: u64) -> int {
    choose|i: int| holds_sample(table, sample, i)
}

/// The boundary of the bucket for `sample`.
pub open spec fn table_minimum(table: Seq<u64>, sample: u64) -> u64 {
    table[bucket_index(table, sample)]
}

/// The points of the progression do not fall: their powers do not.
pub proof fn lemma_progression_grows(min: u64, max: u64, k: nat, i: nat, j: nat)
    requires
        min <= max,
        i <= j <= k,
    ensures
        0 <= progression_power(min, max, k, i) <= progression_power(min, max, k, j),
{
    let d = (j - i) as nat;
    let a = pow(min as int, (k - j) as nat);
    let b = pow(max as int, i);
    let x = pow(min as int, d);
    let y = pow(max as int, d);
    lemma_pow_adds(min as int, (k - j) as nat, d);
    lemma_pow_adds(max as int, i, d);
    lemma_pow_base_le(min as nat, max as nat, d);
    lemma_pow_base_le(0, min as nat, (k - j) as nat);
    lemma_pow_base_le(0, max as nat, i);
    assert((k - j) as nat + d == (k - i) as nat);
    assert(0 <= (a * x) * b <= a * (b * y)) by (nonlinear_arith)
        requires
            0 <= a,
            0 <= b,
            0 <= x <= y,
    ;
}

/// The progression starts at `min` and ends at `max`.
pub proof fn lemma_candidate_ends(min: u64, max: u64, bucket_count: nat)
    requires
        bucket_count >= 1,
    ensures
        candidate(min, max, bucket_count, 0) == min,
        candidate(min, max, bucket_count, (bucket_count - 1) as nat) == max || bucket_count == 1,
{
    if bucket_count >= 2 {
        let k = (bucket_count - 1) as nat;
        lemma_pow0(min as int);
        lemma_pow0(max as int);
        lemma_nearest_root_of_power(min as nat, k);
        lemma_nearest_root_of_power(max as nat, k);
        assert(progression_power(min, max, k, 0) == pow(min as int, k)) by (nonlinear_arith)
            requires
                progression_power(min, max, k, 0) == pow(min as int, k) * 1,
        ;
        assert(progression_power(min, max, k, k) == pow(max as int, k)) by (nonlinear_arith)
            requires
                progression_power(min, max, k, k) == 1 * pow(max as int, k),
        ;
    }
}

/// A later candidate is not below an earlier one.
pub proof fn lemma_candidate_monotonic(min: u64, max: u64, bucket_count: nat, i: nat, j: nat)
    requires
        min <= max,
        i <= j < bucket_count,
    ensures
        candidate(min, max, bucket_count, i) <= candidate(min, max, bucket_count, j),
{
    if bucket_count >= 2 {
        let k = (bucket_count - 1) as nat;
        lemma_progression_grows(min, max, k, i, j);
        lemma_nearest_root_monotonic(
            progression_power(min, max, k, i) as nat,
            progression_power(min, max, k, j) as nat,
            k,
        );
    }
}

/// Every candidate lies between `min` and `max`.
pub proof fn lemma_candidate_range(min: u64, max: u64, bucket_count: nat, i: nat)
    requires
        min <= max,
        i < bucket_count,
    ensures
        min <= candidate(min, max, bucket_count, i) <= max,
{
    lemma_candidate_ends(min, max, bucket_count);
    lemma_candidate_monotonic(min, max, bucket_count, 0, i);
    lemma_candidate_monotonic(min, max, bucket_count, i, (bucket_count - 1) as nat);
}

/// The shape of the table made of the first `n` candidates: it starts at
/// `min`, rises strictly, ends with the latest candidate, and holds the
/// candidates and nothing else.
pub proof fn lemma_boundaries_shape(min: u64, max: u64, bucket_count: nat, n: nat)
    requires
        min <= max,
        1 <= n <= bucket_count,
    ensures
        ({
            let table = boundaries(min, max, bucket_count, n);
            &&& 1 <= table.len() <= n
            &&& table[0] == min
            &&& table.last() == candidate(min, max, bucket_count, (n - 1) as nat)
            &&& strictly_increasing(table)
            &&& forall|j: int|
                0 <= j < table.len() ==> exists|i: nat|
                    i < n && #[trigger] table[j] == candidate(min, max, bucket_count, i)
            &&& forall|i: nat|
                i < n ==> table.contains(#[trigger] candidate(min, max, bucket_count, i) as u64)
        }),
    decreases n,
{
    let table = boundaries(min, max, bucket_count, n);
    let next = candidate(min, max, bucket_count, (n - 1) as nat);
    lemma_candidate_range(min, max, bucket_count, (n - 1) as nat);
    if n == 1 {
        lemma_candidate_ends(min, max, bucket_count);
        assert(boundaries(min, max, bucket_count, 0) =~= Seq::<u64>::empty());
        assert(table =~= seq![min]);
        assert(table[0] == candidate(min, max, bucket_count, 0));
    } else {
        let earlier = boundaries(min, max, bucket_count, (n - 1) as nat);
        lemma_boundaries_shape(min, max, bucket_count, (n - 1) as nat);
        lemma_candidate_monotonic(min, max, bucket_count, (n - 2) as nat, (n - 1) as nat);
        if earlier.last() >= next {
            assert(table == earlier);
            assert(earlier.last() == next);
            assert forall|i: nat| i < n implies table.contains(
                #[trigger] candidate(min, max, bucket_count, i) as u64,
            ) by {
                if i == n - 1 {
                    assert(table[table.len() - 1] == next);
                }
            }
        } else {
            assert(table == earlier.push(next as u64));
            assert forall|i: int, j: int| 0 <= i < j < table.len() implies table[i] < table[j] by {
                if j < earlier.len() {
                    assert(earlier[i] < earlier[j]);
                } else if i < earlier.len() - 1 {
                    assert(earlier[i] < earlier[earlier.len() - 1]);
                }
            }
            assert forall|j: int| 0 <= j < table.len() implies exists|i: nat|
                i < n && #[trigger] table[j] == candidate(min, max, bucket_count, i) by {
                if j < earlier.len() {
                    assert(table[j] == earlier[j]);
                    let i = choose|i: nat|
                        i < n - 1 && earlier[j] == candidate(min, max, bucket_count, i);
                    assert(i < n && table[j] == candidate(min, max, bucket_count, i));
                } else {
                    assert(table[j] == candidate(min, max, bucket_count, (n - 1) as nat));
                }
            }
            assert forall|i: nat| i < n implies table.contains(
                #[trigger] candidate(min, max, bucket_count, i) as u64,
            ) by {
                if i == n - 1 {
                    assert(table[table.len() - 1] == next);
                } else {
                    let c = candidate(min, max, bucket_count, i) as u64;
                    assert(earlier.contains(c));
                    let j = choose|j: int| 0 <= j < earlier.len() && earlier[j] == c;
                    assert(table[j] == c);
                }
            }
        }
    }
}

proof fn lemma_bucket_search(table: Seq<u64>, sample: u64, i: int)
    requires
        0 <= i < table.len(),
        i == 0 || table[i] <= sample,
    ensures
        exists|j: int| holds_sample(table, sample, j),
    decreases table.len() - i,
{
    if i + 1 == table.len() || sample < table[i + 1] {
        assert(holds_sample(table, sample, i));
    } else {
        lemma_bucket_search(table, sample, i + 1);
    }
}

/// In a table that is not empty every sample has a bucket.
pub proof fn lemma_bucket_exists(table: Seq<u64>, sample: u64)
    requires
        table.len() >= 1,
    ensures
        holds_sample(table, sample, bucket_index(table, sample)),
{
    lemma_bucket_search(table, sample, 0);
}

/// In a table that rises strictly no sample has two buckets.
pub proof fn lemma_bucket_unique(table: Seq<u64>, sample: u64, i: int)
    requires
        strictly_increasing(table),
        holds_sample(table, sample, i),
    ensures
        bucket_index(table, sample) == i,
{
    let j = bucket_index(table, sample);
    assert(holds_sample(table, sample, j));
    if i < j {
        assert(i + 1 == j || table[i + 1] < table[j]);
    } else if j < i {
        assert(j + 1 == i || table[j + 1] < table[i]);
    }
}

/// A larger sample has no earlier bucket.
pub proof fn lemma_bucket_index_monotonic(table: Seq<u64>, s1: u64, s2: u64)
    requires
        table.len() >= 1,
        strictly_increasing(table),
        s1 <= s2,
    ensures
        bucket_index(table, s1) <= bucket_index(table, s2),
        table_minimum(table, s1) <= table_minimum(table, s2),
{
    lemma_bucket_exists(table, s1);
    lemma_bucket_exists(table, s2);
    let i = bucket_index(table, s1);
    let j = bucket_index(table, s2);
    if j < i {
        assert(j + 1 == i || table[j + 1] < table[i]);
    }
    assert(i == j || table[i] < table[j]);
}

/// What an exponential strategy holds: the parameters it was built from and
/// the table of boundaries that follows from them.
pub struct ExponentialView {
    /// The smallest boundary.
    pub min: u64,
    /// The largest boundary.
    pub max: u64,
    /// The number of buckets asked for.
    pub bucket_count: nat,
    /// The boundaries, each the minimum of one bucket.
    pub ranges: Seq<u64>,
}

/// A bucketing strategy that looks its buckets up in a table.
///
/// The table holds `bucket_count` boundaries spaced geometrically from `min`
/// to `max` and rounded to integers; boundaries that round to the same
/// integer are stored once, so the table may be shorter than `bucket_count`.
/// Samples below `min` fall into the first bucket, samples above `max` into
/// the last.
#[derive(Debug, Clone)]
pub struct PrecomputedExponential {
    bucket_ranges: Vec<u64>,
    min: u64,
    max: u64,
    bucket_count: usize,
}

impl View for PrecomputedExponential {
    type V = ExponentialView;

    closed spec fn view(&self) -> ExponentialView {
        ExponentialView {
            min: self.min,
            max: self.max,
            bucket_count: self.bucket_count as nat,
            ranges: self.bucket_ranges@,
        }
    }
}

/// The table for `bucket_count` buckets from `min` to `max`.
fn exponential_range(min: u64, max: u64, bucket_count: usize) -> (ranges: Vec<u64>)
    requires
        min < max,
        bucket_count >= 1,
    ensures
        ranges@ == boundaries(min, max, bucket_count as nat, bucket_count as nat),
{
    let ghost count = bucket_count as nat;
    let mut ranges: Vec<u64> = Vec::new();
    ranges.push(min);
    proof {
        lemma_candidate_ends(min, max, count);
        assert(boundaries(min, max, count, 0) =~= Seq::<u64>::empty());
        assert(ranges@ =~= boundaries(min, max, count, 1));
    }
    if bucket_count == 1 {
        return ranges;
    }
    let k: usize = bucket_count - 1;
    let mut last: u64 = min;
    let mut i: usize = 1;
    while i <= k
        invariant
            1 <= i <= k + 1,
            k + 1 == bucket_count,
            count == bucket_count,
            min < max,
            ranges@ == boundaries(min, max, count, i as nat),
            ranges@.len() >= 1,
            ranges@.last() == last,
            last == candidate(min, max, count, (i - 1) as nat),
        decreases k + 1 - i,
    {
        let ghost power = progression_power(min, max, k as nat, i as nat);
        let scaled = Natural::one().times_power(2, k).times_power(min as u128, k - i).times_power(
            max as u128,
            i,
        );
        proof {
            let a = pow(2, k as nat);
            let b = pow(min as int, (k - i) as nat);
            let c = pow(max as int, i as nat);
            assert(((1 * a) * b) * c == a * (b * c)) by (nonlinear_arith);
            lemma_progression_grows(min, max, k as nat, (i - 1) as nat, i as nat);
            lemma_candidate_monotonic(min, max, count, (i - 1) as nat, i as nat);
            lemma_candidate_range(min, max, count, i as nat);
            lemma_root_reaches_iff(power as nat, k as nat, last as nat);
            lemma_root_reaches_iff(power as nat, k as nat, (max + 1) as nat);
        }
        let next = nearest_root_between(&scaled, k, last, max, Ghost(power as nat));
        if next > last {
            ranges.push(next);
            last = next;
        }
        i += 1;
    }
    ranges
}

impl PrecomputedExponential {
    /// Builds the strategy for `bucket_count` buckets from `min` to `max`.
    ///
    /// Fails without a bucket, and where `min` is not below `max`.
    pub fn new(min: u64, max: u64, bucket_count: usize) -> (built: Result<
        Self,
        ConfigurationError,
    >)
        ensures
            match built {
                Ok(strategy) => {
                    &&& exponential_error(min, max, bucket_count) is None
                    &&& strategy.wf()
                    &&& strategy@.min == min
                    &&& strategy@.max == max
                    &&& strategy@.bucket_count == bucket_count
                    &&& strategy@.ranges == boundaries(
                        min,
                        max,
                        bucket_count as nat,
                        bucket_count as nat,
                    )
                    &&& strictly_increasing(strategy@.ranges)
                    &&& 1 <= strategy@.ranges.len() <= bucket_count
                    &&& strategy@.ranges[0] == min
                    &&& bucket_count >= 2 ==> strategy@.ranges.last() == max
                },
                Err(error) => exponential_error(min, max, bucket_count) == Some(error),
            },
    {
        if bucket_count == 0 {
            return Err(ConfigurationError::NoBuckets);
        }
        if min >= max {
            return Err(ConfigurationError::EmptyRange);
        }
        let bucket_ranges = exponential_range(min, max, bucket_count);
        let strategy = PrecomputedExponential { bucket_ranges, min, max, bucket_count };
        proof {
            strategy.lemma_table_shape();
        }
        Ok(strategy)
    }

    /// The smallest boundary.
    pub fn min(&self) -> (min: u64)
        ensures
            min == self@.min,
    {
        self.min
    }

    /// The largest boundary.
    pub fn max(&self) -> (max: u64)
        ensures
            max == self@.max,
    {
        self.max
    }

    /// The number of buckets that the strategy was asked for.
    pub fn bucket_count(&self) -> (bucket_count: usize)
        ensures
            bucket_count == self@.bucket_count,
    {
        self.bucket_count
    }

    /// The boundaries, each the minimum of one bucket.
    pub fn ranges(&self) -> (ranges: &Vec<u64>)
        ensures
            ranges@ == self@.ranges,
    {
        &self.bucket_ranges
    }

    /// Two strategies built from the same parameters hold the same table,
    /// and so put every sample into the same bucket.
    pub proof fn lemma_parameters_determine_table(&self, other: &PrecomputedExponential)
        requires
            self.wf(),
            other.wf(),
            self@.min == other@.min,
            self@.max == other@.max,
            self@.bucket_count == other@.bucket_count,
        ensures
            self@ == other@,
            forall|sample: u64| self.bucket_minimum(sample) == other.bucket_minimum(sample),
    {
    }

    /// The table starts at `min`, rises strictly, holds at most
    /// `bucket_count` boundaries, and ends at `max` where more than one
    /// bucket was asked for.
    pub proof fn lemma_table_shape(&self)
        requires
            self.wf(),
        ensures
            1 <= self@.ranges.len() <= self@.bucket_count,
            strictly_increasing(self@.ranges),
            self@.ranges[0] == self@.min,
            self@.bucket_count >= 2 ==> self@.ranges.last() == self@.max,
    {
        lemma_boundaries_shape(self@.min, self@.max, self@.bucket_count, self@.bucket_count);
        lemma_candidate_ends(self@.min, self@.max, self@.bucket_count);
    }
}

impl Bucketing for PrecomputedExponential {
    /// The parameters are valid and the table is the one that follows from them.
    open spec fn wf(&self) -> bool {
        &&& self@.min < self@.max
        &&& self@.bucket_count >= 1
        &&& self@.ranges == boundaries(
            self@.min,
            self@.max,
            self@.bucket_count,
            self@.bucket_count,
        )
    }

    open spec fn bucket_minimum(&self, sample: u64) -> u64 {
        table_minimum(self@.ranges, sample)
    }

    /// Get the bucket for the sample.
    ///
    /// Searches the table for the last boundary that is not above the sample.
    fn sample_to_bucket_minimum(&self, sample: u64) -> (minimum: u64)
        ensures
            self@.ranges.contains(minimum),
            sample < self@.ranges[0] ==> minimum == self@.ranges[0],
            sample >= self@.ranges[0] ==> minimum <= sample,
            forall|j: int|
                0 <= j < self@.ranges.len() && self@.ranges[j] <= sample ==> self@.ranges[j]
                    <= minimum,
    {
        proof {
            self.lemma_table_shape();
        }
        let mut low: usize = 0;
        let mut high: usize = self.bucket_ranges.len() - 1;
        while low < high
            invariant
                low <= high < self.bucket_ranges.len(),
                low == 0 || self.bucket_ranges[low as int] <= sample,
                high + 1 == self.bucket_ranges.len() || sample < self.bucket_ranges[high + 1],
            decreases high - low,
        {
            let mid: usize = high - (high - low) / 2;
            if self.bucket_ranges[mid] <= sample {
                low = mid;
            } else {
                high = mid - 1;
            }
        }
        proof {
            let table = self@.ranges;
            lemma_bucket_unique(table, sample, low as int);
            assert(table[low as int] == self.bucket_ranges[low as int]);
            assert forall|j: int| 0 <= j < table.len() && table[j] <= sample implies table[j]
                <= table[low as int] by {
                if j > low {
                    assert(low + 1 == j || table[low + 1] < table[j]);
                }
            }
            if low > 0 {
                assert(table[0] < table[low as int]);
            }
        }
        self.bucket_ranges[low]
    }

    proof fn lemma_bucket_minimum_monotonic(&self, s1: u64, s2: u64) {
        self.lemma_table_shape();
        lemma_bucket_index_monotonic(self@.ranges, s1, s2);
    }

    proof fn lemma_bucket_minimum_idempotent(&self, sample: u64) {
        self.lemma_table_shape();
        lemma_bucket_exists(self@.ranges, sample);
        let i = bucket_index(self@.ranges, sample);
        let table = self@.ranges;
        assert(i + 1 == table.len() || table[i] < table[i + 1]);
        lemma_bucket_unique(table, table[i], i);
    }
}

} // verus!
