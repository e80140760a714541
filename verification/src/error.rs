//! Reasons for which a bucketing strategy cannot be built, and for which a
//! ping cannot be sent.

use vstd::prelude::*;

verus! {

/// Parameters from which no bucketing strategy can be built.
#[derive(Debug, Clone, Copy, PartialEq, Eq, Structural)]
pub enum ConfigurationError {
    /// An exponential strategy was asked for without any bucket.
    NoBuckets,
    /// The smallest boundary is not below the largest one.
    EmptyRange,
    /// A functional strategy was asked for with no bucket per magnitude.
    NoBucketsPerMagnitude,
    /// The growth base of a functional strategy is not above one.
    BaseTooSmall,
}

/// The step at which the engine failed to send a ping.
#[derive(Debug, Clone, Copy, PartialEq, Eq, Structural)]
pub enum SendError {
    /// The ping could not be assembled.
    Assembly,
    /// The assembled ping could not be encoded.
    Encoding,
    /// The encoded ping could not be queued.
    Queueing,
    /// The queued ping could not be transmitted.
    Transport,
}

} // verus!
