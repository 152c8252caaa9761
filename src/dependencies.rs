use vstd::prelude::*;
use crate::types::{OwnedRange, HunkLock, HunkHash, CommitId, StackId, InputDiffHunk, WorktreeChange, CalculationError};
use crate::ranges::WorkspaceRanges;
use crate::hashing::{content_hash, hash_lines};
use crate::model::{BuildState, hits, diagnostics_of};

verus! {

pub open spec fn lock_of(r: OwnedRange) -> HunkLock {
    HunkLock { stack_id: r.stack_id, commit_id: r.commit_id }
}

/// The pairs `(hash, lock)` of a hash and each owner among `hits`.
pub open spec fn locks_of_hits(hash: u64, hits: Seq<OwnedRange>) -> Set<(u64, HunkLock)> {
    Set::new(|p: (u64, HunkLock)| p.0 == hash && exists|i: int| 0 <= i < hits.len() && lock_of(#[trigger] hits[i]) == p.1)
}

/// The locks of one uncommitted hunk on path `p`: its content hash with each
/// commit whose range its old interval meets.
pub open spec fn hunk_locks(w: BuildState, p: Seq<u8>, h: InputDiffHunk) -> Set<(u64, HunkLock)> {
    locks_of_hits(content_hash(h.diff@), hits(w, p, h.old_start as int, h.old_lines as int))
}

pub open spec fn file_locks(w: BuildState, p: Seq<u8>, hs: Seq<InputDiffHunk>) -> Set<(u64, HunkLock)>
    decreases hs.len(),
{
    if hs.len() == 0 {
        Set::empty()
    } else {
        file_locks(w, p, hs.drop_last()).union(hunk_locks(w, p, hs.last()))
    }
}

pub open spec fn change_locks(w: BuildState, c: WorktreeChange) -> Set<(u64, HunkLock)> {
    match c.hunks {
        Some(hs) => file_locks(w, c.path@, hs@),
        None => Set::empty(),
    }
}

/// Every lock of every hunk of `cs`.
pub open spec fn all_locks(w: BuildState, cs: Seq<WorktreeChange>) -> Set<(u64, HunkLock)>
    decreases cs.len(),
{
    if cs.len() == 0 {
        Set::empty()
    } else {
        all_locks(w, cs.drop_last()).union(change_locks(w, cs.last()))
    }
}

/// The outcome of a calculation.
pub struct Dependencies {
    /// `(hash, lock)`: an uncommitted hunk with this content hash lands on the
    /// lock's commit. Each pair occurs once.
    pub diffs: Vec<(HunkHash, HunkLock)>,
    /// `(commit, dependency)`: the commit changed lines that the dependency owned.
    pub commit_dependencies: Vec<(CommitId, CommitId)>,
    /// `(dependency, commit)`: the pairs of `commit_dependencies`, reversed.
    pub inverse_commit_dependencies: Vec<(CommitId, CommitId)>,
    /// `(stack, commit, hash)`: the hashes that land on each commit of each stack.
    pub commit_dependent_diffs: Vec<(StackId, CommitId, HunkHash)>,
    /// Recoverable inconsistencies met while building the tables, in order.
    pub errors: Vec<CalculationError>,
}

impl Dependencies {
    /// This result is the one that the build state `b` and the uncommitted
    /// changes `cs` call for.
    pub open spec fn describes(&self, state: BuildState, cs: Seq<WorktreeChange>) -> bool {
        let b = BuildState { table: seq![], ..state };
        &&& self.diffs@.no_duplicates()
        &&& forall|p: (u64, HunkLock)| #[trigger] self.diffs@.contains(p) <==> all_locks(b, cs).contains(p)
        &&& self.commit_dependent_diffs@.no_duplicates()
        &&& forall|t: (u64, u64, u64)| #[trigger] self.commit_dependent_diffs@.contains(t) <==> by_commit(all_locks(b, cs)).contains(t)
        &&& self.commit_dependencies@.no_duplicates()
        &&& self.commit_dependencies@.to_set() == b.deps
        &&& self.inverse_commit_dependencies@.no_duplicates()
        &&& forall|e: (u64, u64)| #[trigger] self.inverse_commit_dependencies@.contains(e) <==> reversed(b.deps).contains(e)
        &&& diagnostics_of(self.errors@) == b.errors
    }
}

fn add_lock(diffs: &mut Vec<(u64, HunkLock)>, e: (u64, HunkLock))
    requires
        old(diffs)@.no_duplicates(),
    ensures
        final(diffs)@.no_duplicates(),
        forall|x: (u64, HunkLock)| #[trigger] final(diffs)@.contains(x) <==> (old(diffs)@.contains(x) || x == e),
{
    let mut i: usize = 0;
    while i < diffs.len()
        invariant
            i <= diffs@.len(),
            diffs@.no_duplicates(),
            forall|j: int| 0 <= j < i ==> #[trigger] diffs@[j] != e,
        decreases diffs@.len() - i,
    {
        if diffs[i].0 == e.0 && diffs[i].1 == e.1 {
            assert(diffs@.contains(e));
            return;
        }
        i = i + 1;
    }
    let ghost before = diffs@;
    diffs.push(e);
    assert forall|a: int, b: int| 0 <= a < diffs@.len() && 0 <= b < diffs@.len() && a != b implies diffs@[a] != diffs@[b] by {
        if a < before.len() && b < before.len() {
            assert(before[a] != before[b]);
        }
    }
    assert forall|x: (u64, HunkLock)| #[trigger] diffs@.contains(x) <==> (before.contains(x) || x == e) by {
        if x == e {
            assert(diffs@[before.len() as int] == e);
        }
        if diffs@.contains(x) {
            let k = choose|k: int| 0 <= k < diffs@.len() && diffs@[k] == x;
            if k < before.len() {
                assert(before[k] == x);
            }
        }
        if before.contains(x) {
            let k = choose|k: int| 0 <= k < before.len() && before[k] == x;
            assert(diffs@[k] == x);
        }
    }
}

fn add_hit_locks(diffs: &mut Vec<(u64, HunkLock)>, hash: u64, hits: &Vec<OwnedRange>)
    requires
        old(diffs)@.no_duplicates(),
    ensures
        final(diffs)@.no_duplicates(),
        forall|x: (u64, HunkLock)|
            #[trigger] final(diffs)@.contains(x) <==> (old(diffs)@.contains(x) || locks_of_hits(hash, hits@).contains(x)),
{
    let ghost start = diffs@;
    let mut i: usize = 0;
    while i < hits.len()
        invariant
            i <= hits@.len(),
            diffs@.no_duplicates(),
            forall|x: (u64, HunkLock)|
                #[trigger] diffs@.contains(x) <==> (start.contains(x) || locks_of_hits(hash, hits@.subrange(0, i as int)).contains(x)),
        decreases hits@.len() - i,
    {
        let r = hits[i];
        let lock = HunkLock { stack_id: r.stack_id, commit_id: r.commit_id };
        add_lock(diffs, (hash, lock));
        assert forall|x: (u64, HunkLock)|
            #[trigger] diffs@.contains(x) <==> (start.contains(x) || locks_of_hits(hash, hits@.subrange(0, i + 1)).contains(x)) by {
            let pre = hits@.subrange(0, i as int);
            let cur = hits@.subrange(0, i + 1);
            if locks_of_hits(hash, pre).contains(x) {
                let k = choose|k: int| 0 <= k < pre.len() && lock_of(#[trigger] pre[k]) == x.1;
                assert(cur[k] == pre[k]);
            }
            if locks_of_hits(hash, cur).contains(x) {
                let k = choose|k: int| 0 <= k < cur.len() && lock_of(#[trigger] cur[k]) == x.1;
                if k < i {
                    assert(cur[k] == pre[k]);
                } else {
                    assert(cur[k] == r);
                }
            }
            if x == (hash, lock) {
                assert(cur[i as int] == r);
            }
        }
        i = i + 1;
    }
    assert(hits@.subrange(0, hits@.len() as int) =~= hits@);
}

/// The hashes of `diffs` filed under the stack and commit of their lock.
pub open spec fn by_commit(diffs: Set<(u64, HunkLock)>) -> Set<(u64, u64, u64)> {
    Set::new(|t: (u64, u64, u64)| diffs.contains((t.2, HunkLock { stack_id: t.0, commit_id: t.1 })))
}

/// The pairs of `edges`, each reversed.
pub open spec fn reversed(edges: Set<(u64, u64)>) -> Set<(u64, u64)> {
    Set::new(|e: (u64, u64)| edges.contains((e.1, e.0)))
}

fn file_by_commit(diffs: &Vec<(u64, HunkLock)>) -> (r: Vec<(u64, u64, u64)>)
    requires
        diffs@.no_duplicates(),
    ensures
        r@.no_duplicates(),
        forall|t: (u64, u64, u64)| #[trigger] r@.contains(t) <==> by_commit(diffs@.to_set()).contains(t),
{
    let mut out: Vec<(u64, u64, u64)> = Vec::new();
    let mut i: usize = 0;
    while i < diffs.len()
        invariant
            i <= diffs@.len(),
            diffs@.no_duplicates(),
            out@.len() == i,
            forall|j: int| 0 <= j < i ==> #[trigger] out@[j] == (diffs@[j].1.stack_id, diffs@[j].1.commit_id, diffs@[j].0),
        decreases diffs@.len() - i,
    {
        let d = diffs[i];
        out.push((d.1.stack_id, d.1.commit_id, d.0));
        i = i + 1;
    }
    assert forall|a: int, b: int| 0 <= a < out@.len() && 0 <= b < out@.len() && a != b implies out@[a] != out@[b] by {
        assert(diffs@[a] != diffs@[b]);
        assert(out@[a] == (diffs@[a].1.stack_id, diffs@[a].1.commit_id, diffs@[a].0));
        assert(out@[b] == (diffs@[b].1.stack_id, diffs@[b].1.commit_id, diffs@[b].0));
    }
    assert forall|t: (u64, u64, u64)| #[trigger] out@.contains(t) <==> by_commit(diffs@.to_set()).contains(t) by {
        let d = (t.2, HunkLock { stack_id: t.0, commit_id: t.1 });
        if out@.contains(t) {
            let k = choose|k: int| 0 <= k < out@.len() && out@[k] == t;
            assert(out@[k] == (diffs@[k].1.stack_id, diffs@[k].1.commit_id, diffs@[k].0));
            assert(diffs@[k] == d);
            assert(diffs@.contains(d));
        }
        if diffs@.to_set().contains(d) {
            assert(diffs@.contains(d));
            let k = choose|k: int| 0 <= k < diffs@.len() && diffs@[k] == d;
            assert(out@[k] == t);
        }
    }
    out
}

fn reverse_edges(edges: &Vec<(u64, u64)>) -> (r: Vec<(u64, u64)>)
    requires
        edges@.no_duplicates(),
    ensures
        r@.no_duplicates(),
        forall|e: (u64, u64)| #[trigger] r@.contains(e) <==> reversed(edges@.to_set()).contains(e),
{
    let mut out: Vec<(u64, u64)> = Vec::new();
    let mut i: usize = 0;
    while i < edges.len()
        invariant
            i <= edges@.len(),
            out@.len() == i,
            forall|j: int| 0 <= j < i ==> #[trigger] out@[j] == (edges@[j].1, edges@[j].0),
        decreases edges@.len() - i,
    {
        let e = edges[i];
        out.push((e.1, e.0));
        i = i + 1;
    }
    assert forall|a: int, b: int| 0 <= a < out@.len() && 0 <= b < out@.len() && a != b implies out@[a] != out@[b] by {
        assert(edges@[a] != edges@[b]);
        assert(out@[a] == (edges@[a].1, edges@[a].0));
        assert(out@[b] == (edges@[b].1, edges@[b].0));
    }
    assert forall|e: (u64, u64)| #[trigger] out@.contains(e) <==> reversed(edges@.to_set()).contains(e) by {
        if out@.contains(e) {
            let k = choose|k: int| 0 <= k < out@.len() && out@[k] == e;
            assert(out@[k] == (edges@[k].1, edges@[k].0));
            assert(edges@[k] == (e.1, e.0));
        }
        if edges@.contains((e.1, e.0)) {
            let k = choose|k: int| 0 <= k < edges@.len() && edges@[k] == (e.1, e.0);
            assert(out@[k] == e);
        }
    }
    out
}

/// Queries `ranges` with the old interval of every hunk of `worktree_changes`
/// and assembles the result: each hunk that meets committed ranges locks its
/// content hash to their commits; a hunk that meets none, and a change
/// without a textual patch, leave no trace. The dependency maps and the
/// diagnostics come from `ranges` unchanged.
pub fn collect_dependencies(ranges: WorkspaceRanges, worktree_changes: &Vec<WorktreeChange>) -> (r: Dependencies)
    requires
        ranges.wf(),
    ensures
        r.describes(ranges.state(seq![]), worktree_changes@),
{
    let ghost w = ranges.state(seq![]);
    let ghost ranges0 = ranges;
    let mut diffs: Vec<(u64, HunkLock)> = Vec::new();
    let mut c: usize = 0;
    while c < worktree_changes.len()
        invariant
            c <= worktree_changes@.len(),
            ranges == ranges0,
            w == ranges.state(seq![]),
            ranges.wf(),
            diffs@.no_duplicates(),
            forall|p: (u64, HunkLock)|
                #[trigger] diffs@.contains(p) <==> all_locks(w, worktree_changes@.subrange(0, c as int)).contains(p),
        decreases worktree_changes@.len() - c,
    {
        let change = &worktree_changes[c];
        let ghost done = all_locks(w, worktree_changes@.subrange(0, c as int));
        proof {
            assert(worktree_changes@.subrange(0, c + 1).drop_last() =~= worktree_changes@.subrange(0, c as int));
        }
        match &change.hunks {
            None => {
                proof {
                    assert(all_locks(w, worktree_changes@.subrange(0, c + 1)) =~= done);
                }
            },
            Some(hunks) => {
                let mut k: usize = 0;
                while k < hunks.len()
                    invariant
                        k <= hunks@.len(),
                        ranges == ranges0,
                        w == ranges.state(seq![]),
            w == ranges.state(seq![]),
                        ranges.wf(),
                        diffs@.no_duplicates(),
                        forall|p: (u64, HunkLock)|
                            #[trigger] diffs@.contains(p) <==> (done.contains(p) || file_locks(w, change.path@, hunks@.subrange(0, k as int)).contains(p)),
                    decreases hunks@.len() - k,
                {
                    let h = &hunks[k];
                    proof {
                        assert(hunks@.subrange(0, k + 1).drop_last() =~= hunks@.subrange(0, k as int));
                    }
                    match ranges.intersection(&change.path, h.old_start, h.old_lines) {
                        None => {
                            proof {
                                let hl = hunk_locks(w, change.path@, *h);
                                let hs = hits(w, change.path@, h.old_start as int, h.old_lines as int);
                                assert(hs.len() == 0);
                                assert(hl =~= Set::empty()) by {
                                    assert forall|p: (u64, HunkLock)| !hl.contains(p) by {
                                        assert(hl == locks_of_hits(content_hash(h.diff@), hs));
                                    }
                                }
                                assert(file_locks(w, change.path@, hunks@.subrange(0, k + 1))
                                    =~= file_locks(w, change.path@, hunks@.subrange(0, k as int)));
                            }
                        },
                        Some(hits) => {
                            let hash = hash_lines(&h.diff);
                            add_hit_locks(&mut diffs, hash, &hits);
                            proof {
                                assert(file_locks(w, change.path@, hunks@.subrange(0, k + 1))
                                    =~= file_locks(w, change.path@, hunks@.subrange(0, k as int)).union(hunk_locks(w, change.path@, *h)));
                            }
                        },
                    }
                    k = k + 1;
                }
                proof {
                    assert(hunks@.subrange(0, hunks@.len() as int) =~= hunks@);
                    assert(all_locks(w, worktree_changes@.subrange(0, c + 1)) =~= done.union(change_locks(w, *change)));
                }
            },
        }
        c = c + 1;
    }
    proof {
        assert(worktree_changes@.subrange(0, worktree_changes@.len() as int) =~= worktree_changes@);
    }
    let commit_dependent_diffs = file_by_commit(&diffs);
    proof {
        assert forall|t: (u64, u64, u64)| #[trigger] by_commit(diffs@.to_set()).contains(t)
            == by_commit(all_locks(w, worktree_changes@)).contains(t) by {
            let d = (t.2, HunkLock { stack_id: t.0, commit_id: t.1 });
            assert(diffs@.to_set().contains(d) == diffs@.contains(d));
        }
    }
    let inverse_commit_dependencies = reverse_edges(&ranges.commit_dependencies);
    Dependencies {
        diffs,
        commit_dependencies: ranges.commit_dependencies,
        inverse_commit_dependencies,
        commit_dependent_diffs,
        errors: ranges.errors,
    }
}

} // verus!
