use vstd::prelude::*;
use crate::types::{HunkLock, OwnedRange, InputDiffHunk, InputStack, WorktreeChange};
use crate::dependencies::{Dependencies, all_locks, file_locks, hunk_locks, locks_of_hits, lock_of, by_commit};
use crate::hashing::{changed_lines, content_hash};
use crate::model::{BuildState, hits, build, stacks_fold, stack_step, commits_fold, files_fold, file_step, hunks_fold, merge_fold, intern};
use crate::ranges::{all_survivors, survivors, overlapping, intersects, claimed, has_room, lemma_overlapping_members, range_end};

verus! {

/// A result is fixed by what it describes: two results that describe the same
/// build and the same uncommitted changes hold the same maps and the same
/// diagnostics. Since `calculate` describes `build(stacks)`, a spec function of
/// its input, repeated calls on equal inputs agree.
pub proof fn lemma_result_determined(d1: Dependencies, d2: Dependencies, b: BuildState, cs: Seq<WorktreeChange>)
    requires
        d1.describes(b, cs),
        d2.describes(b, cs),
    ensures
        d1.diffs@.to_set() == d2.diffs@.to_set(),
        d1.commit_dependent_diffs@.to_set() == d2.commit_dependent_diffs@.to_set(),
        d1.commit_dependencies@.to_set() == d2.commit_dependencies@.to_set(),
        d1.inverse_commit_dependencies@.to_set() == d2.inverse_commit_dependencies@.to_set(),
        crate::model::diagnostics_of(d1.errors@) == crate::model::diagnostics_of(d2.errors@),
{
    assert(d1.diffs@.to_set() =~= d2.diffs@.to_set()) by {
        assert forall|p: (u64, HunkLock)| d1.diffs@.to_set().contains(p) == d2.diffs@.to_set().contains(p) by {
            assert(d1.diffs@.contains(p) == d2.diffs@.contains(p));
        }
    }
    assert(d1.commit_dependent_diffs@.to_set() =~= d2.commit_dependent_diffs@.to_set()) by {
        assert forall|t: (u64, u64, u64)| d1.commit_dependent_diffs@.to_set().contains(t) == d2.commit_dependent_diffs@.to_set().contains(t) by {
            assert(d1.commit_dependent_diffs@.contains(t) == d2.commit_dependent_diffs@.contains(t));
        }
    }
    assert(d1.inverse_commit_dependencies@.to_set() =~= d2.inverse_commit_dependencies@.to_set()) by {
        assert forall|e: (u64, u64)| d1.inverse_commit_dependencies@.to_set().contains(e) == d2.inverse_commit_dependencies@.to_set().contains(e) by {
            assert(d1.inverse_commit_dependencies@.contains(e) == d2.inverse_commit_dependencies@.contains(e));
        }
    }
}

/// An uncommitted change whose hunks meet no committed range adds no lock:
/// the locks with it are the locks without it.
pub proof fn lemma_untouched_change_adds_nothing(b: BuildState, cs: Seq<WorktreeChange>, c: WorktreeChange)
    requires
        c.hunks matches Some(hs) ==> forall|k: int| 0 <= k < hs@.len() ==> hits(b, c.path@, (#[trigger] hs@[k]).old_start as int, hs@[k].old_lines as int).len() == 0,
    ensures
        all_locks(b, cs.push(c)) == all_locks(b, cs),
{
    assert(cs.push(c).drop_last() =~= cs);
    if let Some(hs) = c.hunks {
        lemma_no_hits_no_locks(b, c.path@, hs@);
    }
    assert(all_locks(b, cs.push(c)) =~= all_locks(b, cs));
}

proof fn lemma_no_hits_no_locks(b: BuildState, p: Seq<u8>, hs: Seq<InputDiffHunk>)
    requires
        forall|k: int| 0 <= k < hs.len() ==> hits(b, p, (#[trigger] hs[k]).old_start as int, hs[k].old_lines as int).len() == 0,
    ensures
        file_locks(b, p, hs) == Set::<(u64, HunkLock)>::empty(),
    decreases hs.len(),
{
    if hs.len() > 0 {
        assert forall|k: int| 0 <= k < hs.drop_last().len() implies
            hits(b, p, (#[trigger] hs.drop_last()[k]).old_start as int, hs.drop_last()[k].old_lines as int).len() == 0 by {
            assert(hs.drop_last()[k] == hs[k]);
        }
        lemma_no_hits_no_locks(b, p, hs.drop_last());
        let h = hs.last();
        assert(hits(b, p, hs[hs.len() - 1].old_start as int, hs[hs.len() - 1].old_lines as int).len() == 0);
        assert(hunk_locks(b, p, h) =~= Set::empty());
        assert(file_locks(b, p, hs) =~= Set::empty());
    }
}

/// Every lock of a hunk among `hs` is among the locks of `hs`.
proof fn lemma_file_locks_include(b: BuildState, p: Seq<u8>, hs: Seq<InputDiffHunk>, k: int, x: (u64, HunkLock))
    requires
        0 <= k < hs.len(),
        hunk_locks(b, p, hs[k]).contains(x),
    ensures
        file_locks(b, p, hs).contains(x),
    decreases hs.len(),
{
    if k < hs.len() - 1 {
        assert(hs.drop_last()[k] == hs[k]);
        lemma_file_locks_include(b, p, hs.drop_last(), k, x);
    }
}

/// Every lock of a hunk of change `i` of `cs` is among the locks of `cs`.
pub proof fn lemma_all_locks_include(b: BuildState, cs: Seq<WorktreeChange>, i: int, k: int, r: OwnedRange)
    requires
        0 <= i < cs.len(),
        cs[i].hunks matches Some(hs) && 0 <= k < hs@.len() && hits(b, cs[i].path@, hs@[k].old_start as int, hs@[k].old_lines as int).contains(r),
    ensures
        cs[i].hunks matches Some(hs) && all_locks(b, cs).contains((content_hash(hs@[k].diff@), lock_of(r))),
    decreases cs.len(),
{
    if i < cs.len() - 1 {
        assert(cs.drop_last()[i] == cs[i]);
        lemma_all_locks_include(b, cs.drop_last(), i, k, r);
    } else {
        if let Some(hs) = cs[i].hunks {
            let h = hs@[k];
            let found = hits(b, cs[i].path@, h.old_start as int, h.old_lines as int);
            let j = choose|j: int| 0 <= j < found.len() && found[j] == r;
            assert(locks_of_hits(content_hash(h.diff@), found).contains((content_hash(h.diff@), lock_of(r)))) by {
                assert(lock_of(found[j]) == lock_of(r));
            }
            lemma_file_locks_include(b, cs[i].path@, hs@, k, (content_hash(h.diff@), lock_of(r)));
            assert(cs.last() == cs[i]);
        }
    }
}

/// Hunks whose changed lines are equal share one content hash, wherever they
/// stand: where two such uncommitted hunks meet committed ranges, the locks of
/// both are filed under that one hash.
pub proof fn lemma_equal_content_shares_hash(
    b: BuildState,
    cs: Seq<WorktreeChange>,
    i1: int, k1: int, r1: OwnedRange,
    i2: int, k2: int, r2: OwnedRange,
)
    requires
        0 <= i1 < cs.len(),
        0 <= i2 < cs.len(),
        cs[i1].hunks matches Some(hs) && 0 <= k1 < hs@.len() && hits(b, cs[i1].path@, hs@[k1].old_start as int, hs@[k1].old_lines as int).contains(r1),
        cs[i2].hunks matches Some(hs) && 0 <= k2 < hs@.len() && hits(b, cs[i2].path@, hs@[k2].old_start as int, hs@[k2].old_lines as int).contains(r2),
        cs[i1].hunks matches Some(hs1) && cs[i2].hunks matches Some(hs2) && changed_lines(hs1@[k1].diff@) == changed_lines(hs2@[k2].diff@),
    ensures
        cs[i1].hunks matches Some(hs1) && {
            let hash = content_hash(hs1@[k1].diff@);
            &&& all_locks(b, cs).contains((hash, lock_of(r1)))
            &&& all_locks(b, cs).contains((hash, lock_of(r2)))
            &&& by_commit(all_locks(b, cs)).contains((r1.stack_id, r1.commit_id, hash))
            &&& by_commit(all_locks(b, cs)).contains((r2.stack_id, r2.commit_id, hash))
        },
{
    lemma_all_locks_include(b, cs, i1, k1, r1);
    lemma_all_locks_include(b, cs, i2, k2, r2);
}

/// The ranges that hunks `hs` of one commit on the first interned path own:
/// each hunk's new interval.
pub open spec fn new_intervals(hs: Seq<InputDiffHunk>, stack_id: u64, commit_id: u64) -> Seq<OwnedRange> {
    hs.map_values(|h: InputDiffHunk| OwnedRange {
        path: 0,
        start: h.new_start as u64,
        lines: h.new_lines as u64,
        stack_id,
        commit_id,
    })
}

/// The hunks' new intervals are disjoint and in order, with at least one line
/// between each two.
pub open spec fn separated(hs: Seq<InputDiffHunk>) -> bool {
    forall|i: int, j: int| 0 <= i < j < hs.len() ==> (#[trigger] hs[i]).new_start + hs[i].new_lines < (#[trigger] hs[j]).new_start
}

proof fn lemma_survivors_before(t: Seq<OwnedRange>, path: usize, s: int, old: int, new: int)
    requires
        old >= 0,
        forall|i: int| 0 <= i < t.len() ==> (#[trigger] t[i]).path == path && range_end(t[i]) < s,
    ensures
        all_survivors(t, path, s, old, new) == t,
    decreases t.len(),
{
    if t.len() > 0 {
        assert forall|i: int| 0 <= i < t.drop_last().len() implies (#[trigger] t.drop_last()[i]).path == path && range_end(t.drop_last()[i]) < s by {
            assert(t.drop_last()[i] == t[i]);
        }
        lemma_survivors_before(t.drop_last(), path, s, old, new);
        let r = t.last();
        assert(r == t[t.len() - 1]);
        assert(survivors(r, path, s, old, new) =~= seq![r]);
        assert(t.drop_last().push(r) =~= t);
    }
}

proof fn lemma_hunks_own_new_intervals(b: BuildState, stack_id: u64, commit_id: u64, hs: Seq<InputDiffHunk>)
    requires
        b.table == Seq::<OwnedRange>::empty(),
        separated(hs),
    ensures
        hunks_fold(b, 0, stack_id, commit_id, hs).table == new_intervals(hs, stack_id, commit_id),
    decreases hs.len(),
{
    if hs.len() > 0 {
        let d = hs.drop_last();
        assert forall|i: int, j: int| 0 <= i < j < d.len() implies (#[trigger] d[i]).new_start + d[i].new_lines < (#[trigger] d[j]).new_start by {
            assert(d[i] == hs[i] && d[j] == hs[j]);
        }
        lemma_hunks_own_new_intervals(b, stack_id, commit_id, d);
        let prev = hunks_fold(b, 0, stack_id, commit_id, d);
        let t = prev.table;
        let h = hs.last();
        assert(h == hs[hs.len() - 1]);
        assert forall|i: int| 0 <= i < t.len() implies (#[trigger] t[i]).path == 0usize && range_end(t[i]) < h.new_start as int by {
            assert(d[i] == hs[i]);
        }
        assert(has_room(t, h.new_lines as int));
        lemma_survivors_before(t, 0, h.new_start as int, h.old_lines as int, h.new_lines as int);
        assert(hunks_fold(b, 0, stack_id, commit_id, hs).table =~= new_intervals(hs, stack_id, commit_id));
    }
}

proof fn lemma_merge_one_stack(b: BuildState, t: Seq<OwnedRange>, stack_id: u64)
    requires
        forall|i: int| 0 <= i < t.len() ==> (#[trigger] t[i]).stack_id == stack_id,
        forall|i: int| 0 <= i < b.index.len() ==> (#[trigger] b.index[i]).stack_id == stack_id,
    ensures
        merge_fold(b, t).index == b.index + t,
    decreases t.len(),
{
    if t.len() > 0 {
        assert forall|i: int| 0 <= i < t.drop_last().len() implies (#[trigger] t.drop_last()[i]).stack_id == stack_id by {
            assert(t.drop_last()[i] == t[i]);
        }
        lemma_merge_one_stack(b, t.drop_last(), stack_id);
        let prev = merge_fold(b, t.drop_last());
        let r = t.last();
        assert(r == t[t.len() - 1]);
        assert(!claimed(prev.index, r)) by {
            if claimed(prev.index, r) {
                let i = choose|i: int| 0 <= i < prev.index.len() && (#[trigger] prev.index[i]).path == r.path
                    && prev.index[i].stack_id != r.stack_id && intersects(r.start as int, r.lines as int, prev.index[i]);
                if i < b.index.len() {
                    assert(prev.index[i] == b.index[i]);
                } else {
                    assert(prev.index[i] == t[i - b.index.len()]);
                }
            }
        }
        assert(merge_fold(b, t).index =~= b.index + t);
    }
}

/// In a stack of one commit that changes one file through hunks whose new
/// intervals are disjoint and in order, every interval inside a hunk's new
/// lines meets that commit and no other; an interval between two hunks meets
/// no commit.
pub proof fn lemma_single_commit_ownership(stack: InputStack)
    requires
        stack.commits@.len() == 1,
        stack.commits@[0].files@.len() == 1,
        separated(stack.commits@[0].files@[0].hunks@),
    ensures
        ({
            let commit = stack.commits@[0];
            let file = commit.files@[0];
            let hs = file.hunks@;
            let b = build(seq![stack]);
            &&& forall|k: int, s: int, n: int| #![trigger hs[k], hits(b, file.path@, s, n)]
                0 <= k < hs.len() && 0 < n && hs[k].new_start <= s && s + n <= hs[k].new_start + hs[k].new_lines
                    ==> hits(b, file.path@, s, n).len() > 0
                        && forall|x: OwnedRange| hits(b, file.path@, s, n).contains(x) ==> x.commit_id == commit.commit_id
            &&& forall|k: int, s: int, n: int| #![trigger hs[k], hits(b, file.path@, s, n)]
                0 <= k < hs.len() - 1 && 0 < n && hs[k].new_start + hs[k].new_lines <= s && s + n <= hs[k + 1].new_start
                    && (hs[k].new_lines > 0 || hs[k].new_start < s)
                    ==> hits(b, file.path@, s, n).len() == 0
        }),
{
    let commit = stack.commits@[0];
    let file = commit.files@[0];
    let hs = file.hunks@;
    let init = BuildState { paths: seq![], table: seq![], index: seq![], deps: Set::empty(), errors: seq![] };
    assert(seq![stack].drop_last() =~= Seq::<InputStack>::empty());
    let b0 = BuildState { table: seq![], ..init };
    assert(stack.commits@.drop_last() =~= Seq::<crate::types::InputCommit>::empty());
    assert(commit.files@.drop_last() =~= Seq::<crate::types::InputFile>::empty());
    let (paths, id) = intern(b0.paths, file.path@);
    assert(paths =~= seq![file.path@]);
    assert(id == 0);
    let b1 = BuildState { paths, ..b0 };
    lemma_hunks_own_new_intervals(b1, stack.stack_id, commit.commit_id, hs);
    let walked = hunks_fold(b1, 0, stack.stack_id, commit.commit_id, hs);
    assert(stack.commits@.last() == commit);
    assert(commit.files@.last() == file);
    assert(commits_fold(b0, stack.stack_id, stack.commits@.drop_last()) == b0);
    assert(files_fold(b0, stack.stack_id, commit.commit_id, commit.files@.drop_last()) == b0);
    assert(file_step(b0, stack.stack_id, commit.commit_id, file) == walked);
    assert(files_fold(b0, stack.stack_id, commit.commit_id, commit.files@) == walked);
    assert(walked == commits_fold(b0, stack.stack_id, stack.commits@));
    let t = new_intervals(hs, stack.stack_id, commit.commit_id);
    assert(walked.table == t);
    lemma_hunks_keep(b1, 0, stack.stack_id, commit.commit_id, hs);
    lemma_merge_one_stack(walked, t, stack.stack_id);
    let b = build(seq![stack]);
    assert(stacks_fold(init, seq![stack].drop_last()) == init);
    assert(seq![stack].last() == stack);
    assert(stack_step(init, stack) == merge_fold(walked, t));
    assert(b == merge_fold(walked, t));
    assert(b.index =~= t);
    lemma_merge_keeps_paths(walked, t);
    assert(b.paths == paths);
    assert forall|s: int, n: int| #[trigger] hits(b, file.path@, s, n) == overlapping(t, 0, s, n) by {
        assert(b.paths[0] == file.path@);
        let k = choose|k: int| 0 <= k < b.paths.len() && b.paths[k] == file.path@;
        assert(k == 0);
    }
    assert forall|k: int, s: int, n: int| #![trigger hs[k], hits(b, file.path@, s, n)]
        0 <= k < hs.len() && 0 < n && hs[k].new_start <= s && s + n <= hs[k].new_start + hs[k].new_lines
            implies hits(b, file.path@, s, n).len() > 0
                && forall|x: OwnedRange| hits(b, file.path@, s, n).contains(x) ==> x.commit_id == commit.commit_id by {
        lemma_overlapping_members(t, 0, s, n);
        assert(t[k].path == 0usize && intersects(s, n, t[k]));
        assert forall|x: OwnedRange| hits(b, file.path@, s, n).contains(x) implies x.commit_id == commit.commit_id by {
            assert(overlapping(t, 0, s, n).contains(x));
            let j = choose|j: int| 0 <= j < t.len() && t[j] == x;
        }
    }
    assert forall|k: int, s: int, n: int| #![trigger hs[k], hits(b, file.path@, s, n)]
        0 <= k < hs.len() - 1 && 0 < n && hs[k].new_start + hs[k].new_lines <= s && s + n <= hs[k + 1].new_start
            && (hs[k].new_lines > 0 || hs[k].new_start < s)
            implies hits(b, file.path@, s, n).len() == 0 by {
        lemma_overlapping_members(t, 0, s, n);
        let o = overlapping(t, 0, s, n);
        if o.len() > 0 {
            assert(o.contains(o[0]));
            let j = choose|j: int| 0 <= j < t.len() && t[j] == o[0];
            assert(intersects(s, n, t[j]));
            if j < k {
                assert(hs[j].new_start + hs[j].new_lines < hs[k].new_start);
            } else if j > k + 1 {
                assert(hs[k + 1].new_start + hs[k + 1].new_lines < hs[j].new_start);
            }
        }
    }
}

proof fn lemma_hunks_keep(b: BuildState, path: int, stack_id: u64, commit_id: u64, hs: Seq<InputDiffHunk>)
    ensures
        hunks_fold(b, path, stack_id, commit_id, hs).paths == b.paths,
        hunks_fold(b, path, stack_id, commit_id, hs).index == b.index,
    decreases hs.len(),
{
    if hs.len() > 0 {
        lemma_hunks_keep(b, path, stack_id, commit_id, hs.drop_last());
    }
}

proof fn lemma_merge_keeps_paths(b: BuildState, t: Seq<OwnedRange>)
    ensures
        merge_fold(b, t).paths == b.paths,
    decreases t.len(),
{
    if t.len() > 0 {
        lemma_merge_keeps_paths(b, t.drop_last());
    }
}

/// Merging a stack's table accounts for every range once: each either enters
/// the index or becomes exactly one diagnostic.
pub proof fn lemma_merge_accounts_for_every_range(b: BuildState, t: Seq<OwnedRange>)
    ensures
        merge_fold(b, t).index.len() + merge_fold(b, t).errors.len() == b.index.len() + b.errors.len() + t.len(),
        merge_fold(b, t).index.len() >= b.index.len(),
        merge_fold(b, t).errors.len() >= b.errors.len(),
    decreases t.len(),
{
    if t.len() > 0 {
        lemma_merge_accounts_for_every_range(b, t.drop_last());
    }
}

/// An ambiguous range does not hold up the others: a range of the walked stack
/// on a path where the index holds no range of another stack always enters the
/// index.
pub proof fn lemma_unrelated_range_merged(b: BuildState, t: Seq<OwnedRange>, j: int)
    requires
        0 <= j < t.len(),
        forall|i: int| 0 <= i < t.len() ==> (#[trigger] t[i]).stack_id == t[j].stack_id,
        forall|i: int| 0 <= i < b.index.len() && (#[trigger] b.index[i]).path == t[j].path ==> b.index[i].stack_id == t[j].stack_id,
    ensures
        merge_fold(b, t).index.contains(t[j]),
    decreases t.len(),
{
    lemma_merge_index_grows(b, t.drop_last());
    let prev = merge_fold(b, t.drop_last());
    if j < t.len() - 1 {
        assert(t.drop_last()[j] == t[j]);
        assert forall|i: int| 0 <= i < t.drop_last().len() implies (#[trigger] t.drop_last()[i]).stack_id == t.drop_last()[j].stack_id by {
            assert(t.drop_last()[i] == t[i]);
        }
        lemma_unrelated_range_merged(b, t.drop_last(), j);
        let k = choose|k: int| 0 <= k < prev.index.len() && prev.index[k] == t[j];
        let next = merge_fold(b, t);
        assert(next.index[k] == t[j]);
    } else {
        let r = t.last();
        assert(r == t[j]);
        assert(!claimed(prev.index, r)) by {
            if claimed(prev.index, r) {
                let i = choose|i: int| 0 <= i < prev.index.len() && (#[trigger] prev.index[i]).path == r.path
                    && prev.index[i].stack_id != r.stack_id && intersects(r.start as int, r.lines as int, prev.index[i]);
                assert(prev.index.contains(prev.index[i]));
            }
        }
        assert(merge_fold(b, t).index[prev.index.len() as int] == r);
    }
}

/// The index only grows while a table is merged, and what enters it comes
/// from the table.
proof fn lemma_merge_index_grows(b: BuildState, t: Seq<OwnedRange>)
    ensures
        merge_fold(b, t).index.len() >= b.index.len(),
        forall|i: int| 0 <= i < b.index.len() ==> merge_fold(b, t).index[i] == b.index[i],
        forall|x: OwnedRange| #[trigger] merge_fold(b, t).index.contains(x) ==> b.index.contains(x) || t.contains(x),
    decreases t.len(),
{
    if t.len() > 0 {
        lemma_merge_index_grows(b, t.drop_last());
        let prev = merge_fold(b, t.drop_last());
        assert forall|x: OwnedRange| #[trigger] merge_fold(b, t).index.contains(x) implies b.index.contains(x) || t.contains(x) by {
            let k = choose|k: int| 0 <= k < merge_fold(b, t).index.len() && merge_fold(b, t).index[k] == x;
            if k < prev.index.len() {
                assert(prev.index[k] == x);
                assert(prev.index.contains(x));
                if t.drop_last().contains(x) {
                    let m = choose|m: int| 0 <= m < t.drop_last().len() && t.drop_last()[m] == x;
                    assert(t[m] == x);
                }
            } else {
                assert(x == t.last());
                assert(t[t.len() - 1] == x);
            }
        }
    }
}

} // verus!
