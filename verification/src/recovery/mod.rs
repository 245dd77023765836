//! Loss recovery.

pub mod congestion;
