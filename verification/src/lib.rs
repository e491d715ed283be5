//! Parsing of triple-dash annotation comments in Markdown documents.

pub mod text;
pub mod types;
pub mod scanner;
pub mod id;
pub mod marks;
pub mod date;
pub mod block;
pub mod compact;
pub mod parser;
pub mod insertion;
pub mod migrate;
pub mod scope_resolver;
