//! What the directory walk reports, and the decision it takes for each
//! child directory it meets.
//!
//! Discovery and sizing are decoupled: the walk streams `Found` messages as
//! soon as a directory is recognised, while sizing reports `Sized` updates
//! later. Deletions running in the background report over the same channel.

use vstd::prelude::*;

use crate::model::Candidate;
use crate::rules::{first_match, strings_view, strs_view, RuleSet};
use crate::text::str_eq;

verus! {

broadcast use vstd::string::group_string_axioms;

/// Messages streamed from the scan, sizing and deletion threads to the UI.
pub enum ScanMsg {
    Found(Candidate),
    Sized { id: usize, bytes: u64, mtime: Option<i128> },
    /// The directory walk has finished (no more `Found` will arrive).
    ScanDone,
    /// All sizing has finished (no more `Sized` will arrive).
    SizingDone,
    /// Candidate `id` was removed, reclaiming `bytes`.
    Deleted { id: usize, bytes: u64 },
    /// Removing candidate `id` failed; the row stays so it can be retried.
    DeleteFailed { id: usize, error: String },
    /// The current batch of deletions has finished.
    DeleteBatchDone,
}

/// What to scan, and how.
pub struct ScanOptions {
    pub root: String,
    pub rules: RuleSet,
    /// Directory names to skip entirely (never reported, never descended).
    pub excludes: Vec<String>,
    pub follow_links: bool,
}

/// What the walk does with a child directory.
pub enum ChildVerdict {
    /// Excluded by name: neither reported nor entered.
    Excluded,
    /// A reclaimable artifact of the given ecosystem: reported, not entered.
    Artifact(String),
    /// Neither: entered like any other directory.
    Descend,
}

impl ScanOptions {
    /// Decides about the child directory `name` of a directory whose entries
    /// are named `siblings`: exclusions come first, then the rules.
    pub fn classify(&self, name: &str, siblings: &[&str]) -> (v: ChildVerdict)
        ensures
            strings_view(self.excludes@).contains(name@) ==> v is Excluded,
            !strings_view(self.excludes@).contains(name@) ==> match v {
                ChildVerdict::Artifact(e) => first_match(self.rules@, name@, strs_view(siblings@))
                    == Some(e@),
                ChildVerdict::Descend => first_match(self.rules@, name@, strs_view(siblings@)) is None,
                ChildVerdict::Excluded => false,
            },
    {
        let n = self.excludes.len();
        for i in 0..n
            invariant
                n == self.excludes@.len(),
                forall|j: int| 0 <= j < i ==> #[trigger] strings_view(self.excludes@)[j] != name@,
        {
            if str_eq(self.excludes[i].as_str(), name) {
                assert(strings_view(self.excludes@)[i as int] == name@);
                return ChildVerdict::Excluded;
            }
        }
        match self.rules.match_dir(name, siblings) {
            Some(eco) => ChildVerdict::Artifact(eco.to_string()),
            None => ChildVerdict::Descend,
        }
    }
}

} // verus!
