//! A small text search: which lines of a text hold a query, with or without
//! regard to case, and the configuration read from command-line arguments.

pub mod config;
pub mod search;
pub mod text;

pub use config::{Config, ConfigError};
pub use search::search;
pub use text::{chars_of, contains_chars, split_lines};
