//! The runner around the engine, without its I/O: what is printed or drawn,
//! and what each poll of the feed leads to.

pub mod frame;
pub mod laws;
pub mod names;
pub mod report;
pub mod session;
pub mod tape;
