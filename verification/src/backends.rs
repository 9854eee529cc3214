//! The compressors that can be modeled.

pub mod zstd;
