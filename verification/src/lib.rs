//! Generation of Counter-Strike 2 console bind configurations from a list of
//! bind descriptions, and reading of the values those binds report back
//! through the console log.
pub mod text;
pub mod model;
pub mod commands;
pub mod reader;
pub mod engine;
