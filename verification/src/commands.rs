//! The decisions and output of each command.

pub mod clock;
pub mod edit;
pub mod label;
pub mod log;
pub mod totals;
