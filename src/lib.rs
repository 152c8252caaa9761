//! Hunk dependency analysis: which commits of a set of stacks each uncommitted
//! hunk lands on, and which commits depend on which earlier ones.
use vstd::prelude::*;

pub mod types;
pub mod paths;
pub mod ranges;
pub mod hashing;
pub mod dependencies;
pub mod model;
pub mod laws;

pub use types::{
    CalculationError, CommitId, ErrorKind, HunkHash, HunkLock, InputCommit, InputDiffHunk, InputFile,
    InputStack, OwnedRange, StackError, StackId, WorktreeChange,
};
pub use dependencies::Dependencies;
pub use ranges::WorkspaceRanges;

verus! {

use crate::dependencies::collect_dependencies;
use crate::ranges::has_duplicate_ids;
use crate::model::{build, BuildState};

/// Calculates which commits of `stacks` each hunk of `worktree_changes` lands
/// on, and which commits depend on which.
///
/// The hunks of `worktree_changes` are the uncommitted changes, each against
/// the tree that the stacks' tips make up; a change without a textual patch
/// carries `None`. The stacks list their commits oldest first, each with the
/// hunks it made relative to its first parent.
pub fn calculate(worktree_changes: Vec<WorktreeChange>, stacks: Vec<InputStack>) -> (r: Result<Dependencies, StackError>)
    ensures
        match r {
            Err(StackError::DuplicateStackId(id)) => exists|i: int, j: int|
                0 <= i < j < stacks@.len() && stacks@[i].stack_id == id && stacks@[j].stack_id == id,
            Ok(d) => !has_duplicate_ids(stacks@) && d.describes(build(stacks@), worktree_changes@),
        },
{
    let ranges = match WorkspaceRanges::try_from_stacks(stacks) {
        Ok(w) => w,
        Err(e) => return Err(e),
    };
    let ghost b = ranges.state(seq![]);
    let d = collect_dependencies(ranges, &worktree_changes);
    proof {
        assert(b == BuildState { table: seq![], ..build(stacks@) });
    }
    Ok(d)
}

} // verus!
