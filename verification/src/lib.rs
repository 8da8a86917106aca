//! Annotate a text document at whatever granularity is meant -- a word, a table row, a range of
//! list items, a whole section -- and say the result as text.
pub mod app;
pub mod blocks;
pub mod cli;
pub mod editor;
pub mod format;
pub mod highlight;
pub mod keys;
pub mod md;
pub mod order;
pub mod plain;
pub mod style;
pub mod table;
pub mod text;
pub mod ui;
pub mod wrap;
