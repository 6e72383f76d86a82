//! What holds of everything that is shown: rows read back as the state that
//! they report.

pub mod panels;
pub mod rows;
pub mod sessions;
pub mod snapshots;
