//! A line-oriented substring search library: resolves `--name=value` style
//! arguments into a validated configuration, scans text line by line for a
//! pattern (optionally case-insensitively), and formats the matches for
//! display and for persistence.

pub mod config;
pub mod decimal;
pub mod engine;
pub mod output;
pub mod text;

pub use config::Config;
pub use config::SearchError;
pub use engine::search;
pub use output::run_search;
