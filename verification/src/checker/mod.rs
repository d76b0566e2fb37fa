//! Checks of parsed configuration entries.
use vstd::prelude::*;

use crate::checker::duplicate::{dup_firsts, issue_for, DuplicateChecker};
use crate::model::entry::Entry;
use crate::text::string_from_str;

pub mod duplicate;
pub mod syntax;

verus! {

/// Result of a check: the issues found, in order.
#[derive(Debug)]
pub struct CheckResult {
    pub issues: Vec<CheckIssue>,
}

/// Whether some issue has the given severity.
pub open spec fn has_severity(issues: Seq<CheckIssue>, s: Severity) -> bool {
    exists|i: int| 0 <= i < issues.len() && #[trigger] issues[i].severity == s
}

impl CheckResult {
    pub fn new() -> (r: Self)
        ensures
            r.issues@.len() == 0,
    {
        CheckResult { issues: Vec::new() }
    }

    pub fn add_issue(&mut self, issue: CheckIssue)
        ensures
            final(self).issues@ == old(self).issues@.push(issue),
    {
        self.issues.push(issue);
    }

    /// Whether some issue is an error.
    pub fn has_errors(&self) -> (r: bool)
        ensures
            r == has_severity(self.issues@, Severity::Error),
    {
        let mut i: usize = 0;
        while i < self.issues.len()
            invariant
                i <= self.issues@.len(),
                forall|k: int| 0 <= k < i ==> self.issues@[k].severity != Severity::Error,
            decreases self.issues@.len() - i,
        {
            if self.issues[i].severity == Severity::Error {
                return true;
            }
            i = i + 1;
        }
        false
    }

    /// Whether some issue is a warning.
    pub fn has_warnings(&self) -> (r: bool)
        ensures
            r == has_severity(self.issues@, Severity::Warning),
    {
        let mut i: usize = 0;
        while i < self.issues.len()
            invariant
                i <= self.issues@.len(),
                forall|k: int| 0 <= k < i ==> self.issues@[k].severity != Severity::Warning,
            decreases self.issues@.len() - i,
        {
            if self.issues[i].severity == Severity::Warning {
                return true;
            }
            i = i + 1;
        }
        false
    }

    /// No issue was found.
    pub fn is_ok(&self) -> (r: bool)
        ensures
            r == (self.issues@.len() == 0),
    {
        self.issues.len() == 0
    }
}

impl Default for CheckResult {
    fn default() -> (r: Self)
        ensures
            r.issues@.len() == 0,
    {
        Self::new()
    }
}

/// Issue severity.
#[derive(Debug, Clone, Copy, PartialEq, Eq, Structural)]
pub enum Severity {
    Warning,
    Error,
}

/// A single check issue.
#[derive(Debug)]
pub struct CheckIssue {
    pub severity: Severity,
    pub message: String,
    pub line_number: Option<usize>,
    pub entry_name: Option<String>,
}

impl CheckIssue {
    pub fn warning(message: &str) -> (r: Self)
        ensures
            r.severity == Severity::Warning,
            r.message@ == message@,
            r.line_number.is_none(),
            r.entry_name.is_none(),
    {
        CheckIssue {
            severity: Severity::Warning,
            message: string_from_str(message),
            line_number: None,
            entry_name: None,
        }
    }

    pub fn error(message: &str) -> (r: Self)
        ensures
            r.severity == Severity::Error,
            r.message@ == message@,
            r.line_number.is_none(),
            r.entry_name.is_none(),
    {
        CheckIssue {
            severity: Severity::Error,
            message: string_from_str(message),
            line_number: None,
            entry_name: None,
        }
    }

    pub fn with_line(self, line: usize) -> (r: Self)
        ensures
            r == (CheckIssue { line_number: Some(line), ..self }),
    {
        let mut s = self;
        s.line_number = Some(line);
        s
    }

    pub fn with_entry(self, name: &str) -> (r: Self)
        ensures
            r.severity == self.severity,
            r.message == self.message,
            r.line_number == self.line_number,
            r.entry_name matches Some(n) && n@ == name@,
    {
        let mut s = self;
        s.entry_name = Some(string_from_str(name));
        s
    }
}

/// A check over entries.
pub trait Checker {
    fn check(&self, entries: &[Entry]) -> CheckResult;
}

/// Run all checks on entries (the duplicate check).
pub fn check_all(entries: &[Entry]) -> (r: CheckResult)
    ensures
        r.issues@.len() == dup_firsts(entries@, entries@.len() as int).len(),
        forall|t: int|
            0 <= t < r.issues@.len() ==> issue_for(
                #[trigger] r.issues@[t],
                entries@,
                dup_firsts(entries@, entries@.len() as int)[t],
            ),
{
    let mut result = CheckResult::new();
    let dup_checker = DuplicateChecker;
    let mut dup_result = dup_checker.check(entries);
    result.issues.append(&mut dup_result.issues);
    result
}

} // verus!
