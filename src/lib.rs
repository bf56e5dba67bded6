//! Incremental fuzzy search over channel and track records.
pub mod text;
pub mod score;
pub mod rank;
pub mod records;
pub mod matcher;
pub mod query;
pub mod cli;
