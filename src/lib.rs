//! A line-driven record book: data lines add records, `%` directives query,
//! reorder and persist them.

pub mod book;
pub mod command;
pub mod date;
pub mod error;
pub mod record;
pub mod text;
