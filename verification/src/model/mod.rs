//! Core data models.
pub mod entry;
pub mod shell;
pub mod config;
pub mod profile;

pub use entry::{Entry, EntryType, ParseResult, ParseWarning};
pub use shell::ShellType;
