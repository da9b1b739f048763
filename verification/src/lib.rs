//! Matches normalized paths against a small include/exclude rule format.
//!
//! Glob patterns exclude paths by default; a pattern prefixed with `!`
//! includes paths again. See [`grammar`] for the text format and [`rules`] for
//! what a filter means.
pub mod error;
pub mod filter;
pub mod grammar;
pub mod laws;
pub mod number;
pub mod parser;
pub mod pattern;
pub mod rules;
mod text;

pub use error::Error;
pub use filter::PathFilter;
