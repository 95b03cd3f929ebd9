//! Collapsing of consecutive duplicate lines, in the manner of `uniq`.
//!
//! The library holds the configuration record, the run model of a sequence
//! of lines, the streaming engine that turns lines into output records one at
//! a time, and whole-text helpers built on it.

pub mod config;
pub mod engine;
pub mod format;
pub mod laws;
pub mod model;
pub mod text;

pub use config::Config;
pub use engine::Deduper;

