//! Core logic of the Moyu Words vocabulary trainer: word-book parsing,
//! study-plan layout, progress summaries, CSV export and overlay navigation.

pub mod builtin;
pub mod export;
pub mod json;
pub mod num;
pub mod overlay;
pub mod parser;
pub mod plan;
pub mod rows;
pub mod summary;
pub mod text;
