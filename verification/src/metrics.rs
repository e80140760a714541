//! The metric types around the histograms.

pub mod ping;

pub use ping::PingType;
