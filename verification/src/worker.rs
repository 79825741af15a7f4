//! The input a local review takes.

use vstd::prelude::*;

verus! {

/// One patch to review.
#[derive(Debug)]
pub struct PatchInput {
    /// The position of the patch in its series.
    pub index: i64,
    pub diff: String,
    pub subject: Option<String>,
    pub author: Option<String>,
    pub date: Option<String>,
    pub message_id: Option<String>,
    /// The commit the patch comes from, when it comes from a git history.
    pub commit_id: Option<String>,
}

/// A patch series to review.
#[derive(Debug)]
pub struct ReviewInput {
    pub id: i64,
    pub subject: String,
    pub patches: Vec<PatchInput>,
}

} // verus!
