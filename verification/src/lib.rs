//! Turns a per-operator test summary into a colored HTML report and keeps a
//! comparison file so each operator's progress can be tracked run to run.
//!
//! The library is organised leaf-first: byte-level text helpers, the status
//! enumeration, the record model, the status engine that compares a run with
//! the previous one, the totals aggregator, the tabular codec for the summary
//! and comparison files, and the report renderer.

pub mod text;
pub mod status;
pub mod record;
pub mod engine;
pub mod aggregate;
pub mod codec;
pub mod render;
