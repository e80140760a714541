//! What a histogram asks of a bucketing strategy.

use vstd::prelude::*;

verus! {

/// A bucketing algorithm for histograms.
///
/// It decides which bucket a sample goes into, and names the bucket by the
/// smallest sample that it holds. A strategy may compute the bucket on the
/// fly or look it up in a table that it built beforehand.
pub trait Bucketing {
    /// Whether the data that the strategy holds is consistent.
    spec fn wf(&self) -> bool;

    /// The minimum of the bucket that `sample` falls into.
    spec fn bucket_minimum(&self, sample: u64) -> u64;

    /// Get the bucket's minimum value the sample falls into.
    ///
    /// Defined for every sample, and a function of the sample alone.
    fn sample_to_bucket_minimum(&self, sample: u64) -> (minimum: u64)
        requires
            self.wf(),
        ensures
            minimum == self.bucket_minimum(sample),
    ;

    /// A larger sample never falls into a bucket with a smaller minimum.
    proof fn lemma_bucket_minimum_monotonic(&self, s1: u64, s2: u64)
        requires
            self.wf(),
            s1 <= s2,
        ensures
            self.bucket_minimum(s1) <= self.bucket_minimum(s2),
    ;

    /// A bucket's minimum falls into its own bucket.
    proof fn lemma_bucket_minimum_idempotent(&self, sample: u64)
        requires
            self.wf(),
        ensures
            self.bucket_minimum(self.bucket_minimum(sample)) == self.bucket_minimum(sample),
    ;
}

} // verus!
