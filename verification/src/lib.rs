//! Histograms with quantized buckets: a dense histogram with one counter per
//! bucket, an atomic one for concurrent recording, a sparse one that stores
//! only nonzero buckets, and a read-only cumulative one for fast rank
//! queries, each with `u64` and `u32` counters.
//!
//! Every operation carries a contract proved by Verus; [`laws`] states how
//! the operations relate to one another.
mod atomic;
mod boxed;
mod bucket;
mod config;
mod conversions;
mod count;
mod cumulative;
mod errors;
mod geometry;
pub mod laws;
mod sparse;
mod standard;
mod sums;

pub use atomic::{AtomicHistogram, AtomicHistogram32, AtomicHistogramOf};
pub use bucket::Bucket;
pub use config::Config;
pub use count::{AtomicCount, Count};
pub use cumulative::{CumulativeROHistogram, CumulativeROHistogram32, CumulativeROHistogramOf};
pub use errors::Error;
pub use sparse::{
    SparseHistogram,
    SparseHistogram32,
    SparseHistogram32Ref,
    SparseHistogramOf,
    SparseHistogramRef,
    SparseHistogramRefOf,
};
pub use standard::{Histogram, Histogram32, HistogramOf};
