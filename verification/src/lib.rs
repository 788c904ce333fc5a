//! A small line-oriented text search library.
//!
//! Text is split into lines on `'\n'` (a trailing newline does not produce a
//! final empty line), and a search returns, in order, every line that
//! contains the query as a contiguous substring, either exactly or ignoring
//! ASCII case.

pub mod config;
pub mod search;
pub mod text;

pub use config::Config;
pub use config::ConfigError;
pub use search::run;
pub use search::search;
pub use search::search_case_insensitive;
