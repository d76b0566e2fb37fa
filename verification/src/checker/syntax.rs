//! The syntax check: parsing already reports what it finds, so this
//! check adds no issue of its own.
use vstd::prelude::*;

use crate::checker::{CheckResult, Checker};
use crate::model::entry::Entry;

verus! {

/// Checks for syntax errors beyond those reported while parsing.
pub struct SyntaxChecker;

impl Checker for SyntaxChecker {
    fn check(&self, _entries: &[Entry]) -> (r: CheckResult)
        ensures
            r.issues@.len() == 0,
    {
        CheckResult::new()
    }
}

} // verus!
