use vstd::prelude::*;
use crate::types::{OwnedRange, InputDiffHunk, InputFile, InputCommit, InputStack, CalculationError, ErrorKind};
use crate::ranges::{has_room, apply_hunk, edges_from, overlapping, claimed};

verus! {

/// What a diagnostic says: kind, path, stack, commit, start, lines.
pub type Diagnostic = (ErrorKind, Seq<u8>, u64, u64, u64, u64);

pub open spec fn diagnostic_of(e: CalculationError) -> Diagnostic {
    (e.kind, e.path@, e.stack_id, e.commit_id, e.start, e.lines)
}

pub open spec fn diagnostics_of(es: Seq<CalculationError>) -> Seq<Diagnostic> {
    es.map_values(|e: CalculationError| diagnostic_of(e))
}

/// The state of a build: the interned paths, the table of the stack being
/// walked, the index of the stacks already merged, the dependency edges
/// `(commit, dependency)` and the diagnostics.
pub struct BuildState {
    pub paths: Seq<Seq<u8>>,
    pub table: Seq<OwnedRange>,
    pub index: Seq<OwnedRange>,
    pub deps: Set<(u64, u64)>,
    pub errors: Seq<Diagnostic>,
}

/// The ranges of the index on path `p` that `[s, s + n)` meets.
pub open spec fn hits(b: BuildState, p: Seq<u8>, s: int, n: int) -> Seq<OwnedRange> {
    if exists|i: int| 0 <= i < b.paths.len() && b.paths[i] == p {
        let i = choose|i: int| 0 <= i < b.paths.len() && b.paths[i] == p;
        overlapping(b.index, i as usize, s, n)
    } else {
        seq![]
    }
}

/// No path occurs twice.
pub open spec fn distinct(paths: Seq<Seq<u8>>) -> bool {
    forall|i: int, j: int| 0 <= i < j < paths.len() ==> paths[i] != paths[j]
}

pub proof fn lemma_hits_at(b: BuildState, p: Seq<u8>, i: int, s: int, n: int)
    requires
        distinct(b.paths),
        0 <= i < b.paths.len(),
        b.paths[i] == p,
    ensures
        hits(b, p, s, n) == overlapping(b.index, i as usize, s, n),
{
    let k = choose|k: int| 0 <= k < b.paths.len() && b.paths[k] == p;
    if k < i {
        assert(b.paths[k] != b.paths[i]);
    } else if k > i {
        assert(b.paths[i] != b.paths[k]);
    }
}

/// The paths with `p` added at the end if it is new, and its position.
pub open spec fn intern(paths: Seq<Seq<u8>>, p: Seq<u8>) -> (Seq<Seq<u8>>, int) {
    if exists|i: int| 0 <= i < paths.len() && paths[i] == p {
        (paths, choose|i: int| 0 <= i < paths.len() && paths[i] == p)
    } else {
        (paths.push(p), paths.len() as int)
    }
}

pub open spec fn hunk_step(b: BuildState, path: int, stack_id: u64, commit_id: u64, h: InputDiffHunk) -> BuildState {
    if has_room(b.table, h.new_lines as int) {
        BuildState {
            table: apply_hunk(b.table, path as usize, stack_id, commit_id, h.new_start as int, h.old_lines as int, h.new_lines as int),
            deps: b.deps.union(edges_from(overlapping(b.table, path as usize, h.new_start as int, h.old_lines as int), commit_id)),
            ..b
        }
    } else {
        BuildState {
            errors: b.errors.push((ErrorKind::OutOfRange, b.paths[path], stack_id, commit_id, h.new_start as u64, h.old_lines as u64)),
            ..b
        }
    }
}

pub open spec fn hunks_fold(b: BuildState, path: int, stack_id: u64, commit_id: u64, hs: Seq<InputDiffHunk>) -> BuildState
    decreases hs.len(),
{
    if hs.len() == 0 {
        b
    } else {
        hunk_step(hunks_fold(b, path, stack_id, commit_id, hs.drop_last()), path, stack_id, commit_id, hs.last())
    }
}

pub open spec fn file_step(b: BuildState, stack_id: u64, commit_id: u64, f: InputFile) -> BuildState {
    let (paths, id) = intern(b.paths, f.path@);
    hunks_fold(BuildState { paths, ..b }, id, stack_id, commit_id, f.hunks@)
}

pub open spec fn files_fold(b: BuildState, stack_id: u64, commit_id: u64, fs: Seq<InputFile>) -> BuildState
    decreases fs.len(),
{
    if fs.len() == 0 {
        b
    } else {
        file_step(files_fold(b, stack_id, commit_id, fs.drop_last()), stack_id, commit_id, fs.last())
    }
}

pub open spec fn commits_fold(b: BuildState, stack_id: u64, cs: Seq<InputCommit>) -> BuildState
    decreases cs.len(),
{
    if cs.len() == 0 {
        b
    } else {
        let prev = commits_fold(b, stack_id, cs.drop_last());
        files_fold(prev, stack_id, cs.last().commit_id, cs.last().files@)
    }
}

/// Adds range `r` of the walked stack to the index, unless another stack
/// already claims lines it meets: then the claim stands and a diagnostic is
/// added instead.
pub open spec fn merge_step(b: BuildState, r: OwnedRange) -> BuildState {
    if claimed(b.index, r) {
        BuildState {
            errors: b.errors.push((ErrorKind::AmbiguousOwnership, b.paths[r.path as int], r.stack_id, r.commit_id, r.start, r.lines)),
            ..b
        }
    } else {
        BuildState { index: b.index.push(r), ..b }
    }
}

pub open spec fn merge_fold(b: BuildState, t: Seq<OwnedRange>) -> BuildState
    decreases t.len(),
{
    if t.len() == 0 {
        b
    } else {
        merge_step(merge_fold(b, t.drop_last()), t.last())
    }
}

/// Walks a stack's commits oldest first into a fresh table, then merges the
/// table into the index.
pub open spec fn stack_step(b: BuildState, s: InputStack) -> BuildState {
    let walked = commits_fold(BuildState { table: seq![], ..b }, s.stack_id, s.commits@);
    merge_fold(walked, walked.table)
}

pub open spec fn stacks_fold(b: BuildState, ss: Seq<InputStack>) -> BuildState
    decreases ss.len(),
{
    if ss.len() == 0 {
        b
    } else {
        stack_step(stacks_fold(b, ss.drop_last()), ss.last())
    }
}

/// The tables that a list of stacks builds, starting from nothing.
pub open spec fn build(ss: Seq<InputStack>) -> BuildState {
    stacks_fold(BuildState { paths: seq![], table: seq![], index: seq![], deps: Set::empty(), errors: seq![] }, ss)
}

} // verus!
