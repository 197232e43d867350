//! Line-oriented text search: every line of a text that contains a query,
//! in the order of the text, with or without regard to letter case.

pub mod config;
pub mod filter;
pub mod fold;
pub mod infix;
pub mod lines;
pub mod search;
pub mod utf8;

pub use crate::config::{run, Config};
pub use crate::search::{search, search_case_insensitive};
