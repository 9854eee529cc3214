//! # compress-estimate
//!
//! Estimate the compression ratio of a data source without compressing it, by
//! sampling the source strategically and simulating the compressor's cost
//! model on the samples.
//!
//! The sampling lives in [`sampler`], [`estimator`] and [`assemble`]; the
//! compressor that is modeled is zstd, in [`backends::zstd`]: its parse loops
//! are replayed on each sampled chunk, and the parse is priced block by block.
//! A chunk's parse is proved to decode to the chunk again, and every count
//! that the cost model reads is proved to be that of the parse.

pub mod assemble;
pub mod backend;
pub mod backends;
pub mod estimator;
pub mod report;
pub mod sampler;
pub mod sampler_laws;
pub mod source;
pub mod stats;

pub use estimator::{Error, Estimator};
pub use report::Verdict;
