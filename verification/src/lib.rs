//! Verified core of `dakoku`, a command line punch clock that records work time per repository.

pub mod text;
pub mod time;
pub mod format;
pub mod timearg;
pub mod paths;
pub mod config;
pub mod store;
pub mod commands;
