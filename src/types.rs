use vstd::prelude::*;

verus! {

/// Identifies a commit; assigned by the caller, one per distinct commit.
pub type CommitId = u64;

/// Identifies a stack; assigned by the caller.
pub type StackId = u64;

/// Digest of the changed lines of a hunk.
pub type HunkHash = u64;

/// A line range owned by one commit, in workspace coordinates.
///
/// `path` is the index of the file's path in the table of interned paths.
#[derive(Clone, Copy, PartialEq, Eq, Structural, Debug)]
pub struct OwnedRange {
    pub path: usize,
    pub start: u64,
    pub lines: u64,
    pub stack_id: StackId,
    pub commit_id: CommitId,
}

/// One hunk of a unified diff: `old_lines` lines at `old_start` became
/// `new_lines` lines at `new_start`. `diff` holds the hunk's body, one line per
/// row, each row starting with `' '`, `'+'` or `'-'`.
pub struct InputDiffHunk {
    pub old_start: u32,
    pub old_lines: u32,
    pub new_start: u32,
    pub new_lines: u32,
    pub diff: Vec<u8>,
}

/// The hunks that one commit made to one file, in file order.
pub struct InputFile {
    pub path: Vec<u8>,
    pub hunks: Vec<InputDiffHunk>,
}

/// A commit with the changes it made relative to its first parent.
pub struct InputCommit {
    pub commit_id: CommitId,
    pub files: Vec<InputFile>,
}

/// A stack's commits, from the one just above its base to its tip.
pub struct InputStack {
    pub stack_id: StackId,
    pub commits: Vec<InputCommit>,
}

/// An uncommitted change to one file: its hunks against the committed tree,
/// or `None` where the change has no textual patch (binary, unchanged, a
/// pure rename).
pub struct WorktreeChange {
    pub path: Vec<u8>,
    pub hunks: Option<Vec<InputDiffHunk>>,
}

/// The kind of a recoverable inconsistency met while building the tables.
#[derive(Clone, Copy, PartialEq, Eq, Structural, Debug)]
pub enum ErrorKind {
    /// A range of one stack overlaps a range that another stack already claims;
    /// the earlier claim is kept.
    AmbiguousOwnership,
    /// A hunk would move lines past the largest tracked position; it is skipped.
    OutOfRange,
}

/// A recoverable inconsistency: which hunk or range could not be attributed.
#[derive(Debug)]
pub struct CalculationError {
    pub kind: ErrorKind,
    pub path: Vec<u8>,
    pub stack_id: StackId,
    pub commit_id: CommitId,
    pub start: u64,
    pub lines: u64,
}

/// A failure that ends the whole calculation.
#[derive(Clone, Copy, PartialEq, Eq, Structural, Debug)]
pub enum StackError {
    /// Two stacks carry the same id, so their tables cannot be told apart.
    DuplicateStackId(StackId),
}

/// A commit that an uncommitted hunk lands on.
#[derive(Clone, Copy, PartialEq, Eq, Structural, Debug)]
pub struct HunkLock {
    pub stack_id: StackId,
    pub commit_id: CommitId,
}

} // verus!
