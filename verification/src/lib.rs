//! A Ninja-compatible incremental build engine: module-dependency
//! resolution, build-graph compilation, an incremental build database,
//! and a bounded-concurrency build scheduler.

pub mod ast;
pub mod compile;
pub mod configuration;
pub mod database;
pub mod error;
pub mod hash;
pub mod module_dependency;
pub mod run;
pub mod tool;
