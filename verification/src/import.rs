//! Importing entries into a configuration file: which incoming entries are
//! appended, skipped, or appended over an existing entry of the same type
//! and name, and the text and totals that result. The caller asks the user
//! where `needs_answer` says so, and reads and writes the files.
use vstd::prelude::*;

use crate::formatter::{Formatter, ShellFormatter};
use crate::model::entry::{chars_eq, Entry};
use crate::text::{push_str, str_chars, string_push};

verus! {

/// What to do with an incoming entry whose type and name an existing entry has.
#[derive(Debug, Clone, Copy, PartialEq, Eq, Structural)]
pub enum ConflictStrategy {
    Skip,
    Overwrite,
    Ask,
}

/// The user's answer to a conflict question.
#[derive(Debug, Clone, Copy, PartialEq, Eq, Structural)]
pub enum ConflictChoice {
    Skip,
    Overwrite,
    Rename,
}

/// What happens to one incoming entry.
#[derive(Debug, Clone, Copy, PartialEq, Eq, Structural)]
pub enum ImportAction {
    /// Appended; no existing entry has its type and name.
    Append,
    /// Appended although an existing entry has its type and name.
    Overwrite,
    /// Left out.
    Skip,
}

/// An entry of `current` has the type and name of `e`.
pub open spec fn conflicts(current: Seq<Entry>, e: Entry) -> bool {
    exists|i: int| 0 <= i < current.len() && current[i].entry_type == e.entry_type && current[i].name@ == e.name@
}

/// The user is asked about an entry: it conflicts, the strategy is to ask,
/// and the import was not confirmed beforehand.
pub open spec fn asks(conflict: bool, strategy: ConflictStrategy, yes: bool) -> bool {
    conflict && strategy == ConflictStrategy::Ask && !yes
}

/// The action for an entry: a conflict-free entry is appended; a
/// conflicting one follows the strategy, where asking without a prompt
/// (`yes`) skips, and an answer other than overwrite skips.
pub open spec fn action_for(
    conflict: bool,
    strategy: ConflictStrategy,
    yes: bool,
    answer: Option<ConflictChoice>,
) -> ImportAction {
    if !conflict {
        ImportAction::Append
    } else {
        match strategy {
            ConflictStrategy::Skip => ImportAction::Skip,
            ConflictStrategy::Overwrite => ImportAction::Overwrite,
            ConflictStrategy::Ask => if yes {
                ImportAction::Skip
            } else {
                match answer {
                    Some(ConflictChoice::Overwrite) => ImportAction::Overwrite,
                    _ => ImportAction::Skip,
                }
            },
        }
    }
}

/// How an entry is handled: an entry no existing one conflicts with is
/// always appended; a conflicting one is never appended as new. Under the
/// skip and overwrite strategies the strategy alone decides, whatever the
/// confirmation and any answer; under the ask strategy a confirmed import
/// skips, and otherwise the entry is overwritten exactly when the answer
/// is to overwrite. An answer matters only where the user is asked.
pub proof fn law_import_actions(
    conflict: bool,
    strategy: ConflictStrategy,
    yes: bool,
    answer: Option<ConflictChoice>,
    yes2: bool,
    answer2: Option<ConflictChoice>,
)
    ensures
        !conflict ==> action_for(conflict, strategy, yes, answer) == ImportAction::Append,
        conflict ==> action_for(conflict, strategy, yes, answer) != ImportAction::Append,
        conflict && strategy == ConflictStrategy::Skip ==> action_for(conflict, strategy, yes, answer)
            == ImportAction::Skip,
        conflict && strategy == ConflictStrategy::Overwrite ==> action_for(conflict, strategy, yes, answer)
            == ImportAction::Overwrite,
        strategy != ConflictStrategy::Ask ==> action_for(conflict, strategy, yes, answer) == action_for(
            conflict,
            strategy,
            yes2,
            answer2,
        ),
        !asks(conflict, strategy, yes) ==> action_for(conflict, strategy, yes, answer) == action_for(
            conflict,
            strategy,
            yes,
            answer2,
        ),
        conflict && strategy == ConflictStrategy::Ask && yes ==> action_for(conflict, strategy, yes, answer)
            == ImportAction::Skip,
        asks(conflict, strategy, yes) ==> (action_for(conflict, strategy, yes, answer) == ImportAction::Overwrite
            <==> answer == Some(ConflictChoice::Overwrite)),
        asks(conflict, strategy, yes) ==> (action_for(conflict, strategy, yes, answer) == ImportAction::Skip
            <==> answer != Some(ConflictChoice::Overwrite)),
{
}

/// `content` with `line` appended on a line of its own, after a newline
/// when `content` does not end with one.
pub open spec fn appended(content: Seq<char>, line: Seq<char>) -> Seq<char> {
    let sep = if content.len() > 0 && content.last() != '\n' {
        seq!['\n']
    } else {
        Seq::<char>::empty()
    };
    content + sep + line + seq!['\n']
}

/// `n + 1`, or `n` at the top of the range.
pub open spec fn bump(n: usize) -> usize {
    if n < usize::MAX {
        (n + 1) as usize
    } else {
        n
    }
}

/// Whether an entry of `current` has the type and name of `e`.
pub fn has_conflict(current: &Vec<Entry>, e: &Entry) -> (r: bool)
    ensures
        r == conflicts(current@, *e),
{
    let name = str_chars(e.name.as_str());
    let mut i: usize = 0;
    while i < current.len()
        invariant
            i <= current@.len(),
            name@ == e.name@,
            forall|k: int| 0 <= k < i ==> !(current@[k].entry_type == e.entry_type && current@[k].name@ == e.name@),
        decreases current@.len() - i,
    {
        if current[i].entry_type == e.entry_type {
            let other = str_chars(current[i].name.as_str());
            if chars_eq(other.as_slice(), name.as_slice()) {
                return true;
            }
        }
        i = i + 1;
    }
    false
}

/// Whether the user must be asked about an entry (see `asks`).
pub fn needs_answer(conflict: bool, strategy: ConflictStrategy, yes: bool) -> (r: bool)
    ensures
        r == asks(conflict, strategy, yes),
{
    conflict && strategy == ConflictStrategy::Ask && !yes
}

/// The action for an entry (see `action_for`); `answer` is what the user
/// chose where asked.
pub fn decide(
    conflict: bool,
    strategy: ConflictStrategy,
    yes: bool,
    answer: Option<ConflictChoice>,
) -> (r: ImportAction)
    ensures
        r == action_for(conflict, strategy, yes, answer),
        !conflict ==> r == ImportAction::Append,
        conflict && strategy == ConflictStrategy::Skip ==> r == ImportAction::Skip,
        conflict && strategy == ConflictStrategy::Overwrite ==> r == ImportAction::Overwrite,
        conflict && strategy == ConflictStrategy::Ask && yes ==> r == ImportAction::Skip,
        conflict && strategy == ConflictStrategy::Ask && !yes ==> (r == ImportAction::Overwrite <==> answer
            == Some(ConflictChoice::Overwrite)),
        r != ImportAction::Append ==> conflict,
{
    if !conflict {
        return ImportAction::Append;
    }
    match strategy {
        ConflictStrategy::Skip => ImportAction::Skip,
        ConflictStrategy::Overwrite => ImportAction::Overwrite,
        ConflictStrategy::Ask => {
            if yes {
                ImportAction::Skip
            } else {
                match answer {
                    Some(ConflictChoice::Overwrite) => ImportAction::Overwrite,
                    _ => ImportAction::Skip,
                }
            }
        },
    }
}

/// The file text being built and the totals of an import.
pub struct ImportTally {
    pub content: String,
    /// Entries appended, overwriting ones included.
    pub imported: usize,
    pub skipped: usize,
    pub overwritten: usize,
}

impl ImportTally {
    /// An import into a file that holds `content`.
    pub fn new(content: String) -> (r: Self)
        ensures
            r.content == content,
            r.imported == 0,
            r.skipped == 0,
            r.overwritten == 0,
    {
        ImportTally { content, imported: 0, skipped: 0, overwritten: 0 }
    }

    /// Applies the action for `entry`: a skip counts it; otherwise its
    /// formatted text (its value) is appended on a line of its own and it
    /// counts as imported, and as overwritten for an overwrite.
    pub fn apply(&mut self, formatter: &ShellFormatter, entry: &Entry, action: ImportAction)
        ensures
            match action {
                ImportAction::Skip => {
                    &&& final(self).content@ == old(self).content@
                    &&& final(self).skipped == bump(old(self).skipped)
                    &&& final(self).imported == old(self).imported
                    &&& final(self).overwritten == old(self).overwritten
                },
                _ => {
                    &&& final(self).content@ == appended(old(self).content@, entry.value@)
                    &&& final(self).skipped == old(self).skipped
                    &&& final(self).imported == bump(old(self).imported)
                    &&& final(self).overwritten == if action == ImportAction::Overwrite {
                        bump(old(self).overwritten)
                    } else {
                        old(self).overwritten
                    }
                },
            },
    {
        match action {
            ImportAction::Skip => {
                self.skipped = self.skipped.saturating_add(1);
            },
            _ => {
                let line = formatter.format_entry(entry);
                let chars = str_chars(self.content.as_str());
                let n = chars.len();
                if n > 0 && chars[n - 1] != '\n' {
                    string_push(&mut self.content, '\n');
                }
                push_str(&mut self.content, line.as_str());
                string_push(&mut self.content, '\n');
                self.imported = self.imported.saturating_add(1);
                if action == ImportAction::Overwrite {
                    self.overwritten = self.overwritten.saturating_add(1);
                }
            },
        }
    }
}

} // verus!
