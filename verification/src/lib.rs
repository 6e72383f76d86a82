//! An order feed and the matching engine that consumes it.

pub mod double;
pub mod engine;
pub mod feed;
pub mod runner;
