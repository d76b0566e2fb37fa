//! Bash configuration file formatter.
use vstd::prelude::*;

use crate::formatter::{join_values, Formatter};
use crate::model::config::Config;
use crate::model::entry::Entry;
use crate::model::shell::ShellType;
use crate::parser::layout::values_text;
use crate::text::string_from_str;

verus! {

/// Bash configuration file formatter.
pub struct BashFormatter;

impl BashFormatter {
    pub fn new() -> (r: Self) {
        BashFormatter
    }
}

impl Default for BashFormatter {
    fn default() -> (r: Self) {
        Self::new()
    }
}

impl Formatter for BashFormatter {
    /// The values of the entries, a newline between two.
    fn format(&self, entries: &[Entry], _config: &Config) -> (r: String)
        ensures
            r@ == values_text(entries@),
    {
        join_values(entries)
    }

    /// An entry's value holds its complete raw text.
    fn format_entry(&self, entry: &Entry) -> (r: String)
        ensures
            r@ == entry.value@,
    {
        string_from_str(entry.value.as_str())
    }

    fn shell_type(&self) -> (r: ShellType)
        ensures
            r == ShellType::Bash,
    {
        ShellType::Bash
    }
}

} // verus!
