//! Verified logic of a benchmark that compares embedding engines on a sentence-embedding
//! workload.
//!
//! The library decides and selects: which engine is measured when, how samples are ranked and
//! aggregated, which engine is faster, how sentences become model input, which cells of a
//! hidden state are pooled. Floating point numbers pass through as bit patterns ([`num::Num`]);
//! arithmetic on them, and the models themselves, are operations that callers hand in.
pub mod compare;
pub mod definition;
pub mod encode;
pub mod engine;
pub mod environment;
pub mod num;
pub mod options;
pub mod parity;
pub mod pooling;
pub mod report;
pub mod rounding;
pub mod schedule;
pub mod selection;
pub mod stats;
pub mod text;
pub mod workload;
