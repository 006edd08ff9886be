//! The current generator and log reader, and the errors they report.
pub mod utils;
pub mod ladder;
pub mod commands;
pub mod reader;
