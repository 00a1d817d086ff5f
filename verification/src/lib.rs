//! Line-oriented text search: the lines of a text that contain a query,
//! with exact or case-folded comparison.

pub mod config;
pub mod encoding;
pub mod fold;
pub mod lines;
pub mod search;
pub mod selection;
pub mod substring;

pub use crate::config::{run, Config, ConfigError};
pub use crate::search::{search, search_case_insensitive};
