//! Histograms over unsigned integer samples with pluggable bucketing.
//!
//! A [`Histogram`] counts samples per bucket and keeps their number and
//! their sum. Which bucket a sample falls into is decided by a
//! [`Bucketing`] strategy: [`PrecomputedExponential`] looks it up in a table
//! of boundaries, [`Functional`] computes it from the sample. A
//! [`PingType`] names a ping and hands it to the engine that sends it.

pub mod error;
pub mod histogram;
pub mod metrics;
pub mod natural;
pub mod root;

pub use error::{ConfigurationError, SendError};
pub use histogram::{
    histogram_exponential, histogram_functional, Bucketing, Functional, Histogram,
    PrecomputedExponential,
};
pub use metrics::PingType;
