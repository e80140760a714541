//! A histogram that counts samples per bucket and keeps their number and sum.

use std::collections::HashMap;
use vstd::prelude::*;
use crate::error::ConfigurationError;
use crate::histogram::exponential::{
    exponential_error,
    table_minimum,
    bucket_index,
    lemma_bucket_exists,
};
use crate::histogram::functional::functional_error;

pub use bucketing::Bucketing;
pub use exponential::PrecomputedExponential;
pub use functional::Functional;

pub mod bucketing;
pub mod exponential;
pub mod functional;

verus! {

broadcast use vstd::std_specs::hash::group_hash_axioms;

/// The number of samples counted under `key`, zero for a bucket without samples.
pub open spec fn count_at(values: Map<u64, u64>, key: u64) -> nat {
    if values.contains_key(key) {
        values[key] as nat
    } else {
        0
    }
}

/// The number of samples counted in buckets whose minimum is below `bound`.
pub open spec fn total_below(values: Map<u64, u64>, bound: nat) -> nat
    decreases bound,
{
    if bound == 0 {
        0
    } else {
        total_below(values, (bound - 1) as nat) + count_at(values, (bound - 1) as u64)
    }
}

/// The number of samples counted in all buckets together.
pub open spec fn total(values: Map<u64, u64>) -> nat {
    total_below(values, 0x1_0000_0000_0000_0000)
}

/// Without buckets nothing is counted.
pub proof fn lemma_total_below_empty(bound: nat)
    ensures
        total_below(Map::<u64, u64>::empty(), bound) == 0,
    decreases bound,
{
    if bound > 0 {
        lemma_total_below_empty((bound - 1) as nat);
    }
}

/// No bucket holds more samples than the buckets below a bound above it.
pub proof fn lemma_total_below_covers(values: Map<u64, u64>, key: u64, bound: nat)
    requires
        key < bound <= 0x1_0000_0000_0000_0000,
    ensures
        count_at(values, key) <= total_below(values, bound),
    decreases bound,
{
    if key < bound - 1 {
        lemma_total_below_covers(values, key, (bound - 1) as nat);
    }
}

/// Setting one bucket's count changes the total by the difference.
pub proof fn lemma_total_below_insert(values: Map<u64, u64>, key: u64, count: u64, bound: nat)
    requires
        bound <= 0x1_0000_0000_0000_0000,
    ensures
        total_below(values.insert(key, count), bound) == if key < bound {
            total_below(values, bound) - count_at(values, key) + count
        } else {
            total_below(values, bound) as int
        },
    decreases bound,
{
    if bound > 0 {
        lemma_total_below_insert(values, key, count, (bound - 1) as nat);
        if key < bound - 1 {
            lemma_total_below_covers(values, key, (bound - 1) as nat);
        }
    }
}

/// The sum of the counts in a listing of buckets.
pub open spec fn entries_total(entries: Seq<(u64, u64)>) -> nat
    decreases entries.len(),
{
    if entries.len() == 0 {
        0
    } else {
        entries_total(entries.drop_last()) + entries.last().1 as nat
    }
}

/// The mapping from bucket minimum to count that a listing of buckets stands for.
pub open spec fn entries_map(entries: Seq<(u64, u64)>) -> Map<u64, u64>
    decreases entries.len(),
{
    if entries.len() == 0 {
        Map::empty()
    } else {
        entries_map(entries.drop_last()).insert(entries.last().0, entries.last().1)
    }
}

/// No bucket is listed twice.
pub open spec fn distinct_keys(entries: Seq<(u64, u64)>) -> bool {
    forall|i: int, j: int| 0 <= i < j < entries.len() ==> entries[i].0 != entries[j].0
}

/// The mapping of a listing holds the listed buckets and no others, each
/// with its count where no bucket is listed twice.
pub proof fn lemma_entries_map(entries: Seq<(u64, u64)>)
    ensures
        forall|key: u64| #[trigger]
            entries_map(entries).contains_key(key) <==> exists|i: int|
                0 <= i < entries.len() && #[trigger] entries[i].0 == key,
        distinct_keys(entries) ==> forall|i: int|
            0 <= i < entries.len() ==> entries_map(entries)[#[trigger] entries[i].0]
                == entries[i].1,
    decreases entries.len(),
{
    if entries.len() > 0 {
        let earlier = entries.drop_last();
        let last = entries.last();
        lemma_entries_map(earlier);
        assert(entries_map(entries) == entries_map(earlier).insert(last.0, last.1));
        assert forall|key: u64| #[trigger]
            entries_map(entries).contains_key(key) <==> exists|i: int|
                0 <= i < entries.len() && #[trigger] entries[i].0 == key by {
            if entries_map(entries).contains_key(key) {
                if key == last.0 {
                    assert(entries[entries.len() - 1].0 == key);
                } else {
                    assert(entries_map(earlier).contains_key(key));
                    let i = choose|i: int| 0 <= i < earlier.len() && #[trigger] earlier[i].0 == key;
                    assert(entries[i].0 == key);
                }
            }
            if exists|i: int| 0 <= i < entries.len() && #[trigger] entries[i].0 == key {
                let i = choose|i: int| 0 <= i < entries.len() && #[trigger] entries[i].0 == key;
                if i < earlier.len() {
                    assert(earlier[i].0 == key);
                    assert(entries_map(earlier).contains_key(key));
                } else {
                    assert(key == last.0);
                }
                assert(entries_map(entries).contains_key(key));
            }
        }
        if distinct_keys(entries) {
            assert(distinct_keys(earlier)) by {
                assert forall|i: int, j: int| 0 <= i < j < earlier.len() implies earlier[i].0
                    != earlier[j].0 by {
                    assert(entries[i].0 != entries[j].0);
                }
            }
            assert forall|i: int| 0 <= i < entries.len() implies entries_map(
                entries,
            )[#[trigger] entries[i].0] == entries[i].1 by {
                if i < earlier.len() {
                    assert(entries[i].0 != entries[entries.len() - 1].0);
                    assert(earlier[i] == entries[i]);
                }
            }
        }
    }
}

/// Where no bucket is listed twice, the counts of the listing add up to the
/// total of its mapping.
pub proof fn lemma_entries_total(entries: Seq<(u64, u64)>)
    requires
        distinct_keys(entries),
    ensures
        total(entries_map(entries)) == entries_total(entries),
    decreases entries.len(),
{
    if entries.len() == 0 {
        lemma_total_below_empty(0x1_0000_0000_0000_0000);
    } else {
        let earlier = entries.drop_last();
        let last = entries.last();
        assert(distinct_keys(earlier)) by {
            assert forall|i: int, j: int| 0 <= i < j < earlier.len() implies earlier[i].0
                != earlier[j].0 by {
                assert(entries[i].0 != entries[j].0);
            }
        }
        lemma_entries_total(earlier);
        lemma_entries_map(earlier);
        assert(!entries_map(earlier).contains_key(last.0)) by {
            if entries_map(earlier).contains_key(last.0) {
                let i = choose|i: int| 0 <= i < earlier.len() && earlier[i].0 == last.0;
                assert(entries[i].0 != entries[entries.len() - 1].0);
            }
        }
        lemma_total_below_insert(entries_map(earlier), last.0, last.1, 0x1_0000_0000_0000_0000);
    }
}

/// What a histogram holds, apart from its bucketing strategy.
pub struct HistogramView {
    /// The number of samples per bucket, by the bucket's minimum.
    pub values: Map<u64, u64>,
    /// The number of samples.
    pub count: u64,
    /// The sum of the samples, capped at `u64::MAX`.
    pub sum: u64,
}

impl HistogramView {
    /// The state after the `samples` have been counted one after the other,
    /// each in the bucket that `bucketing` gives it.
    pub open spec fn record_all<B: Bucketing>(self, bucketing: B, samples: Seq<u64>) -> HistogramView
        decreases samples.len(),
    {
        if samples.len() == 0 {
            self
        } else {
            self.record_all(bucketing, samples.drop_last()).record(
                bucketing.bucket_minimum(samples.last()),
                samples.last(),
            )
        }
    }

    /// The state without samples.
    pub open spec fn empty() -> HistogramView {
        HistogramView { values: Map::empty(), count: 0, sum: 0 }
    }

    /// The state after one more `sample` has been counted in the bucket `minimum`.
    pub open spec fn record(self, minimum: u64, sample: u64) -> HistogramView {
        HistogramView {
            values: self.values.insert(minimum, (count_at(self.values, minimum) + 1) as u64),
            count: (self.count + 1) as u64,
            sum: if self.sum + sample > u64::MAX {
                u64::MAX
            } else {
                (self.sum + sample) as u64
            },
        }
    }
}

/// A histogram.
///
/// Stores the counts per bucket and tracks the count of added samples and the total sum.
/// The bucketing algorithm can be changed.
#[derive(Debug, Clone)]
pub struct Histogram<B> {
    /// Mapping bucket's minimum to sample count.
    values: HashMap<u64, u64>,
    /// The count of samples added.
    count: u64,
    /// The total sum of samples.
    sum: u64,
    /// The bucketing algorithm used.
    bucketing: B,
}

impl<B: Bucketing> View for Histogram<B> {
    type V = HistogramView;

    closed spec fn view(&self) -> HistogramView {
        HistogramView { values: self.values@, count: self.count, sum: self.sum }
    }
}

impl<B: Bucketing> Histogram<B> {
    /// The bucketing strategy of this histogram.
    pub closed spec fn strategy(&self) -> B {
        self.bucketing
    }

    /// The counts add up to the number of samples, every stored bucket holds
    /// a sample, and every key is a bucket minimum of the strategy.
    pub open spec fn wf(&self) -> bool {
        &&& self.strategy().wf()
        &&& total(self@.values) == self@.count
        &&& forall|key: u64| #[trigger]
            self@.values.contains_key(key) ==> self@.values[key] >= 1
                && self.strategy().bucket_minimum(key) == key
    }

    /// A histogram without samples that buckets by `bucketing`.
    pub fn new(bucketing: B) -> (histogram: Self)
        requires
            bucketing.wf(),
        ensures
            histogram.wf(),
            histogram.strategy() == bucketing,
            histogram@ == HistogramView::empty(),
    {
        let histogram = Histogram { values: HashMap::new(), count: 0, sum: 0, bucketing };
        proof {
            lemma_total_below_empty(0x1_0000_0000_0000_0000);
        }
        histogram
    }

    /// Whether a listing of buckets and a number of samples can be the state
    /// of a histogram with this strategy: no bucket is listed twice, each
    /// holds a sample and is named by a bucket minimum of the strategy, and
    /// the counts add up to the number of samples.
    pub open spec fn entries_valid(bucketing: B, entries: Seq<(u64, u64)>, count: u64) -> bool {
        &&& distinct_keys(entries)
        &&& forall|i: int|
            0 <= i < entries.len() ==> (#[trigger] entries[i]).1 >= 1 && bucketing.bucket_minimum(
                entries[i].0,
            ) == entries[i].0
        &&& entries_total(entries) == count
    }

    /// Puts a histogram together from a stored state: the listing of its
    /// buckets, each with its minimum and its count, the number of samples
    /// and their sum.
    ///
    /// Gives nothing where the listing and the number of samples cannot be
    /// the state of a histogram with this strategy.
    pub fn from_parts(bucketing: B, entries: Vec<(u64, u64)>, count: u64, sum: u64) -> (restored:
        Option<Self>)
        requires
            bucketing.wf(),
        ensures
            restored is Some <==> Self::entries_valid(bucketing, entries@, count),
            restored matches Some(histogram) ==> {
                &&& histogram.wf()
                &&& histogram.strategy() == bucketing
                &&& histogram@ == HistogramView { values: entries_map(entries@), count, sum }
            },
    {
        let mut values: HashMap<u64, u64> = HashMap::new();
        let mut sum_of_counts: u128 = 0;
        let mut i: usize = 0;
        while i < entries.len()
            invariant
                i <= entries.len(),
                bucketing.wf(),
                values@ == entries_map(entries@.take(i as int)),
                distinct_keys(entries@.take(i as int)),
                forall|j: int|
                    0 <= j < i ==> (#[trigger] entries@[j]).1 >= 1 && bucketing.bucket_minimum(
                        entries@[j].0,
                    ) == entries@[j].0,
                sum_of_counts == entries_total(entries@.take(i as int)),
                sum_of_counts <= i * u64::MAX,
            decreases entries.len() - i,
        {
            let key: u64 = entries[i].0;
            let value: u64 = entries[i].1;
            proof {
                lemma_entries_map(entries@.take(i as int));
                assert(entries@.take(i + 1).drop_last() =~= entries@.take(i as int));
                assert(entries@.take(i + 1).last() == entries@[i as int]);
            }
            if value == 0 {
                return None;
            }
            if values.contains_key(&key) {
                proof {
                    let j = choose|j: int|
                        0 <= j < i && (#[trigger] entries@.take(i as int)[j]).0 == key;
                    assert(entries@[j].0 == entries@[i as int].0);
                }
                return None;
            }
            if bucketing.sample_to_bucket_minimum(key) != key {
                return None;
            }
            values.insert(key, value);
            sum_of_counts = sum_of_counts + value as u128;
            proof {
                let seen = entries@.take(i as int);
                let grown = entries@.take(i + 1);
                assert forall|a: int, b: int| 0 <= a < b < grown.len() implies grown[a].0
                    != grown[b].0 by {
                    if b < i {
                        assert(seen[a].0 != seen[b].0);
                    } else {
                        assert(seen[a].0 == grown[a].0);
                    }
                }
            }
            i += 1;
        }
        proof {
            assert(entries@.take(i as int) =~= entries@);
        }
        if sum_of_counts != count as u128 {
            return None;
        }
        proof {
            lemma_entries_total(entries@);
            lemma_entries_map(entries@);
            assert forall|key: u64| #[trigger] values@.contains_key(key) implies values@[key] >= 1
                && bucketing.bucket_minimum(key) == key by {
                let j = choose|j: int| 0 <= j < entries@.len() && #[trigger] entries@[j].0 == key;
                assert(entries@[j].1 >= 1);
            }
        }
        Some(Histogram { values, count, sum, bucketing })
    }

    /// Get the number of buckets in this histogram.
    ///
    /// These are the buckets that hold a sample, not those that the strategy
    /// was configured with.
    pub fn bucket_count(&self) -> (buckets: usize)
        ensures
            buckets == self@.values.dom().len(),
    {
        self.values.len()
    }

    /// Add a single value to this histogram.
    pub fn accumulate(&mut self, sample: u64)
        requires
            old(self).wf(),
            old(self)@.count < u64::MAX,
        ensures
            final(self).wf(),
            final(self).strategy() == old(self).strategy(),
            final(self)@ == old(self)@.record(old(self).strategy().bucket_minimum(sample), sample),
            final(self)@.count == old(self)@.count + 1,
            total(final(self)@.values) == final(self)@.count,
    {
        let bucket_min = self.bucketing.sample_to_bucket_minimum(sample);
        proof {
            self.bucketing.lemma_bucket_minimum_idempotent(sample);
            lemma_total_below_covers(self.values@, bucket_min, 0x1_0000_0000_0000_0000);
            lemma_total_below_insert(
                self.values@,
                bucket_min,
                (count_at(self.values@, bucket_min) + 1) as u64,
                0x1_0000_0000_0000_0000,
            );
        }
        let entry = self.values.entry(bucket_min).or_insert(0);
        *entry += 1;
        self.sum = self.sum.saturating_add(sample);
        self.count += 1;
    }

    /// Get the total sum of values recorded in this histogram.
    pub fn sum(&self) -> (sum: u64)
        ensures
            sum == self@.sum,
    {
        self.sum
    }

    /// Get the total count of values recorded in this histogram.
    pub fn count(&self) -> (count: u64)
        ensures
            count == self@.count,
    {
        self.count
    }

    /// Get the filled values.
    pub fn values(&self) -> (values: &HashMap<u64, u64>)
        ensures
            values@ == self@.values,
    {
        &self.values
    }

    /// Get the bucketing algorithm used.
    pub fn bucketing(&self) -> (bucketing: &B)
        ensures
            *bucketing == self.strategy(),
    {
        &self.bucketing
    }

    /// Check if this histogram recorded any values.
    pub fn is_empty(&self) -> (empty: bool)
        ensures
            empty <==> self@.count == 0,
    {
        self.count() == 0
    }
}

/// An empty histogram with exponential bucketing: `bucket_count` buckets
/// from `min` to `max`.
///
/// Fails without a bucket, and where `min` is not below `max`.
pub fn histogram_exponential(min: u64, max: u64, bucket_count: usize) -> (built: Result<
    Histogram<PrecomputedExponential>,
    ConfigurationError,
>)
    ensures
        match built {
            Ok(histogram) => {
                &&& exponential_error(min, max, bucket_count) is None
                &&& histogram.wf()
                &&& histogram@ == HistogramView::empty()
                &&& histogram.strategy()@.min == min
                &&& histogram.strategy()@.max == max
                &&& histogram.strategy()@.bucket_count == bucket_count
            },
            Err(error) => exponential_error(min, max, bucket_count) == Some(error),
        },
{
    match PrecomputedExponential::new(min, max, bucket_count) {
        Ok(bucketing) => Ok(Histogram::new(bucketing)),
        Err(error) => Err(error),
    }
}

/// An empty histogram with functional bucketing: `buckets_per_magnitude`
/// buckets for each growth by the factor `base`.
///
/// Fails without a bucket per magnitude, and where `base` is not above one.
pub fn histogram_functional(base: u64, buckets_per_magnitude: u32) -> (built: Result<
    Histogram<Functional>,
    ConfigurationError,
>)
    ensures
        match built {
            Ok(histogram) => {
                &&& functional_error(base, buckets_per_magnitude) is None
                &&& histogram.wf()
                &&& histogram@ == HistogramView::empty()
                &&& histogram.strategy()@.base == base
                &&& histogram.strategy()@.buckets_per_magnitude == buckets_per_magnitude
            },
            Err(error) => functional_error(base, buckets_per_magnitude) == Some(error),
        },
{
    match Functional::new(base, buckets_per_magnitude) {
        Ok(bucketing) => Ok(Histogram::new(bucketing)),
        Err(error) => Err(error),
    }
}

/// The sum of a sequence of samples.
pub open spec fn samples_sum(samples: Seq<u64>) -> nat
    decreases samples.len(),
{
    if samples.len() == 0 {
        0
    } else {
        samples_sum(samples.drop_last()) + samples.last() as nat
    }
}

/// Whatever samples are counted, the counts of the buckets add up to the
/// number of samples, and that number grows by one with each sample.
pub proof fn lemma_counts_add_up<B: Bucketing>(
    start: HistogramView,
    bucketing: B,
    samples: Seq<u64>,
)
    requires
        total(start.values) == start.count,
        start.count + samples.len() <= u64::MAX,
    ensures
        ({
            let end = start.record_all(bucketing, samples);
            &&& total(end.values) == end.count
            &&& end.count == start.count + samples.len()
        }),
    decreases samples.len(),
{
    if samples.len() > 0 {
        lemma_counts_add_up(start, bucketing, samples.drop_last());
        let before = start.record_all(bucketing, samples.drop_last());
        let minimum = bucketing.bucket_minimum(samples.last());
        lemma_total_below_covers(before.values, minimum, 0x1_0000_0000_0000_0000);
        lemma_total_below_insert(
            before.values,
            minimum,
            (count_at(before.values, minimum) + 1) as u64,
            0x1_0000_0000_0000_0000,
        );
    }
}

/// Whatever samples are counted, the sum is the sum of the samples where
/// that fits, and stays at `u64::MAX` where it does not.
pub proof fn lemma_sum_saturates<B: Bucketing>(
    start: HistogramView,
    bucketing: B,
    samples: Seq<u64>,
)
    ensures
        ({
            let end = start.record_all(bucketing, samples);
            end.sum == if start.sum + samples_sum(samples) > u64::MAX {
                u64::MAX as int
            } else {
                start.sum + samples_sum(samples)
            }
        }),
    decreases samples.len(),
{
    if samples.len() > 0 {
        lemma_sum_saturates(start, bucketing, samples.drop_last());
    }
}

/// Two histograms that hold the same state and bucket alike hold the same
/// state after the same samples: a histogram put together again from its
/// stored state goes on as the one that was stored.
pub proof fn lemma_reload_reproduces<B: Bucketing>(
    stored: Histogram<B>,
    reloaded: Histogram<B>,
    samples: Seq<u64>,
)
    requires
        stored@ == reloaded@,
        forall|sample: u64|
            stored.strategy().bucket_minimum(sample) == reloaded.strategy().bucket_minimum(
                sample,
            ),
    ensures
        stored@.record_all(stored.strategy(), samples) == reloaded@.record_all(
            reloaded.strategy(),
            samples,
        ),
    decreases samples.len(),
{
    if samples.len() > 0 {
        lemma_reload_reproduces(stored, reloaded, samples.drop_last());
    }
}

/// Every listing of a histogram's buckets that lists none twice is accepted
/// when the histogram is put together again from it.
pub proof fn lemma_listing_reloads<B: Bucketing>(histogram: Histogram<B>, entries: Seq<(u64, u64)>)
    requires
        histogram.wf(),
        distinct_keys(entries),
        entries_map(entries) == histogram@.values,
    ensures
        Histogram::<B>::entries_valid(histogram.strategy(), entries, histogram@.count),
{
    lemma_entries_map(entries);
    lemma_entries_total(entries);
    assert forall|i: int| 0 <= i < entries.len() implies (#[trigger] entries[i]).1 >= 1
        && histogram.strategy().bucket_minimum(entries[i].0) == entries[i].0 by {
        assert(entries_map(entries).contains_key(entries[i].0));
        assert(entries_map(entries)[entries[i].0] == entries[i].1);
    }
}

/// A histogram with exponential bucketing never holds more buckets than its
/// table has boundaries, and so never more than were asked for.
pub proof fn lemma_populated_buckets_bounded(histogram: Histogram<PrecomputedExponential>)
    requires
        histogram.wf(),
    ensures
        histogram@.values.dom().len() <= histogram.strategy()@.ranges.len(),
        histogram.strategy()@.ranges.len() <= histogram.strategy()@.bucket_count,
{
    let table = histogram.strategy()@.ranges;
    let keys = histogram@.values.dom();
    histogram.strategy().lemma_table_shape();
    assert forall|key: u64| keys.contains(key) implies table.to_set().contains(key) by {
        assert(histogram@.values.contains_key(key));
        lemma_bucket_exists(table, key);
        assert(table_minimum(table, key) == key);
        assert(table[bucket_index(table, key)] == key);
    }
    table.lemma_cardinality_of_set();
    vstd::set_lib::lemma_len_subset(keys, table.to_set());
}

} // verus!
