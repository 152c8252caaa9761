use vstd::prelude::*;
use crate::types::{OwnedRange, InputDiffHunk, InputStack, InputCommit, InputFile, CalculationError, ErrorKind, StackError};
use crate::paths::{copy_bytes, distinct_paths, intern_path, path_seqs};
use crate::model::{BuildState, intern, hunk_step, hunks_fold, files_fold, commits_fold, merge_step, merge_fold, stack_step, diagnostic_of, diagnostics_of, stacks_fold, build, Diagnostic, hits, lemma_hits_at};

verus! {

/// No range of a table may reach past this line number.
pub const POSITION_LIMIT: u64 = 0x4000_0000_0000_0000;

pub open spec fn range_end(r: OwnedRange) -> int {
    r.start + r.lines
}

/// Whether the half-open interval `[s, s + n)` meets the range `r`.
///
/// An empty interval is an insertion point: it meets only a range that starts
/// exactly there. An empty range marks a deletion point: it is met by every
/// non-empty interval that contains that point.
pub open spec fn intersects(s: int, n: int, r: OwnedRange) -> bool {
    if n == 0 {
        r.start == s
    } else if r.lines == 0 {
        s <= r.start < s + n
    } else {
        r.start < s + n && s < range_end(r)
    }
}

/// The ranges of `t` on `path` that the interval `[s, s + n)` meets, in order.
pub open spec fn overlapping(t: Seq<OwnedRange>, path: usize, s: int, n: int) -> Seq<OwnedRange>
    decreases t.len(),
{
    if t.len() == 0 {
        seq![]
    } else {
        let r = t.last();
        let rest = overlapping(t.drop_last(), path, s, n);
        if r.path == path && intersects(s, n, r) {
            rest.push(r)
        } else {
            rest
        }
    }
}

pub open spec fn min(a: int, b: int) -> int {
    if a <= b { a } else { b }
}

pub open spec fn max(a: int, b: int) -> int {
    if a >= b { a } else { b }
}

/// What is left of `r` once a hunk replaces `[s, s + old)` on `path` with
/// `new` lines: the part before the hunk stays, the part after it moves by
/// `new - old`, the part inside it goes.
pub open spec fn survivors(r: OwnedRange, path: usize, s: int, old: int, new: int) -> Seq<OwnedRange> {
    if r.path != path {
        seq![r]
    } else {
        let e = s + old;
        let left = if r.start < s {
            seq![OwnedRange {
                path: r.path,
                start: r.start,
                lines: (min(range_end(r), s) - r.start) as u64,
                stack_id: r.stack_id,
                commit_id: r.commit_id,
            }]
        } else {
            seq![]
        };
        let b = max(r.start as int, e);
        let right = if range_end(r) > e || r.start >= e {
            seq![OwnedRange {
                path: r.path,
                start: (b - old + new) as u64,
                lines: (range_end(r) - b) as u64,
                stack_id: r.stack_id,
                commit_id: r.commit_id,
            }]
        } else {
            seq![]
        };
        left + right
    }
}

pub open spec fn all_survivors(t: Seq<OwnedRange>, path: usize, s: int, old: int, new: int) -> Seq<OwnedRange>
    decreases t.len(),
{
    if t.len() == 0 {
        seq![]
    } else {
        all_survivors(t.drop_last(), path, s, old, new) + survivors(t.last(), path, s, old, new)
    }
}

/// The table after a hunk of commit `commit_id` replaced `[s, s + old)` on
/// `path` with `new` lines, which the commit then owns.
pub open spec fn apply_hunk(
    t: Seq<OwnedRange>,
    path: usize,
    stack_id: u64,
    commit_id: u64,
    s: int,
    old: int,
    new: int,
) -> Seq<OwnedRange> {
    all_survivors(t, path, s, old, new).push(
        OwnedRange { path, start: s as u64, lines: new as u64, stack_id, commit_id },
    )
}

/// Every range ends at or before the position limit.
pub open spec fn bounded(t: Seq<OwnedRange>) -> bool {
    forall|i: int| 0 <= i < t.len() ==> range_end(#[trigger] t[i]) <= POSITION_LIMIT
}

/// Whether a hunk adding `new` lines keeps every range of `t` within the limit.
pub open spec fn has_room(t: Seq<OwnedRange>, new: int) -> bool {
    forall|i: int| 0 <= i < t.len() ==> range_end(#[trigger] t[i]) + new <= POSITION_LIMIT
}

/// Returns the ranges of `table` on `path` that `[start, start + lines)` meets.
pub fn overlapping_ranges(table: &Vec<OwnedRange>, path: usize, start: u64, lines: u64) -> (r: Vec<OwnedRange>)
    ensures
        r@ == overlapping(table@, path, start as int, lines as int),
{
    let mut out: Vec<OwnedRange> = Vec::new();
    let mut i: usize = 0;
    while i < table.len()
        invariant
            i <= table@.len(),
            out@ == overlapping(table@.subrange(0, i as int), path, start as int, lines as int),
        decreases table@.len() - i,
    {
        let r = table[i];
        proof {
            assert(table@.subrange(0, i + 1).drop_last() =~= table@.subrange(0, i as int));
        }
        let hit = if lines == 0 {
            r.start == start
        } else if r.lines == 0 {
            start <= r.start && r.start - start < lines
        } else {
            (r.start >= start && r.start - start < lines) || (r.start < start && start - r.start < r.lines)
        };
        proof {
            assert(hit == intersects(start as int, lines as int, r));
        }
        if r.path == path && hit {
            out.push(r);
        }
        i = i + 1;
    }
    proof {
        assert(table@.subrange(0, table@.len() as int) =~= table@);
    }
    out
}

/// Whether a hunk adding `new` lines leaves every range of `table` within the limit.
pub fn room_for(table: &Vec<OwnedRange>, new: u32) -> (r: bool)
    requires
        bounded(table@),
    ensures
        r == has_room(table@, new as int),
{
    let mut i: usize = 0;
    while i < table.len()
        invariant
            i <= table@.len(),
            bounded(table@),
            has_room(table@.subrange(0, i as int), new as int),
        decreases table@.len() - i,
    {
        let r = table[i];
        assert(range_end(table@[i as int]) <= POSITION_LIMIT);
        if r.start + r.lines + (new as u64) > POSITION_LIMIT {
            return false;
        }
        assert forall|j: int| 0 <= j < i + 1 implies range_end(#[trigger] table@.subrange(0, i + 1)[j]) + new <= POSITION_LIMIT by {
            if j < i {
                assert(table@.subrange(0, i + 1)[j] == table@.subrange(0, i as int)[j]);
            }
        }
        i = i + 1;
    }
    assert(table@.subrange(0, table@.len() as int) =~= table@);
    true
}

/// Replaces `[start, start + old)` on `path` with `new` lines owned by
/// `commit_id`: the lines before the hunk keep their owners and positions,
/// those after it keep their owners and move by `new - old`.
pub fn replace_range(
    table: &Vec<OwnedRange>,
    path: usize,
    stack_id: u64,
    commit_id: u64,
    start: u32,
    old: u32,
    new: u32,
) -> (r: Vec<OwnedRange>)
    requires
        bounded(table@),
        has_room(table@, new as int),
    ensures
        r@ == apply_hunk(table@, path, stack_id, commit_id, start as int, old as int, new as int),
        bounded(r@),
{
    let ghost (s, o, n) = (start as int, old as int, new as int);
    let mut out: Vec<OwnedRange> = Vec::new();
    let s64 = start as u64;
    let e64 = start as u64 + old as u64;
    let mut i: usize = 0;
    while i < table.len()
        invariant
            i <= table@.len(),
            bounded(table@),
            has_room(table@, n),
            s == s64, s + o == e64, o == old, n == new,
            out@ == all_survivors(table@.subrange(0, i as int), path, s, o, n),
            bounded(out@),
        decreases table@.len() - i,
    {
        let r = table[i];
        proof {
            assert(table@.subrange(0, i + 1).drop_last() =~= table@.subrange(0, i as int));
            assert(range_end(table@[i as int]) + n <= POSITION_LIMIT);
        }
        let ghost before = out@;
        if r.path != path {
            out.push(r);
        } else {
            let r_end = r.start + r.lines;
            if r.start < s64 {
                let cut = if r_end <= s64 { r_end } else { s64 };
                out.push(OwnedRange { path: r.path, start: r.start, lines: cut - r.start, stack_id: r.stack_id, commit_id: r.commit_id });
            }
            if r_end > e64 || r.start >= e64 {
                let b = if r.start >= e64 { r.start } else { e64 };
                out.push(OwnedRange { path: r.path, start: b - old as u64 + new as u64, lines: r_end - b, stack_id: r.stack_id, commit_id: r.commit_id });
            }
        }
        proof {
            assert(out@ =~= before + survivors(r, path, s, o, n));
        }
        i = i + 1;
    }
    proof {
        assert(table@.subrange(0, table@.len() as int) =~= table@);
    }
    out.push(OwnedRange { path, start: s64, lines: new as u64, stack_id, commit_id });
    out
}

/// The edges `(commit_id, owner)` that `hits` adds: one to each other commit
/// that owns a range among them.
pub open spec fn edges_from(hits: Seq<OwnedRange>, commit_id: u64) -> Set<(u64, u64)> {
    Set::new(
        |e: (u64, u64)|
            e.0 == commit_id && e.1 != commit_id && exists|i: int|
                0 <= i < hits.len() && (#[trigger] hits[i]).commit_id == e.1,
    )
}

/// Adds `e` to the edge list unless it is there already.
pub fn add_edge(edges: &mut Vec<(u64, u64)>, e: (u64, u64))
    requires
        old(edges)@.no_duplicates(),
    ensures
        final(edges)@.no_duplicates(),
        forall|x: (u64, u64)| #[trigger] final(edges)@.contains(x) <==> (old(edges)@.contains(x) || x == e),
{
    let mut i: usize = 0;
    while i < edges.len()
        invariant
            i <= edges@.len(),
            edges@.no_duplicates(),
            forall|j: int| 0 <= j < i ==> #[trigger] edges@[j] != e,
        decreases edges@.len() - i,
    {
        if edges[i].0 == e.0 && edges[i].1 == e.1 {
            assert(edges@.contains(e));
            assert forall|x: (u64, u64)| #[trigger] edges@.contains(x) <==> (edges@.contains(x) || x == e) by {}
            return;
        }
        i = i + 1;
    }
    let ghost before = edges@;
    edges.push(e);
    assert forall|a: int, b: int| 0 <= a < edges@.len() && 0 <= b < edges@.len() && a != b implies edges@[a] != edges@[b] by {
        if a < before.len() && b < before.len() {
            assert(before[a] != before[b]);
        }
    }
    assert forall|x: (u64, u64)| #[trigger] edges@.contains(x) <==> (before.contains(x) || x == e) by {
        if x == e {
            assert(edges@[before.len() as int] == e);
        }
        if edges@.contains(x) {
            let k = choose|k: int| 0 <= k < edges@.len() && edges@[k] == x;
            if k < before.len() {
                assert(before[k] == x);
            }
        }
        if before.contains(x) {
            let k = choose|k: int| 0 <= k < before.len() && before[k] == x;
            assert(edges@[k] == x);
        }
    }
}

/// Records that `commit_id` depends on every other commit owning a range in `hits`.
pub fn add_edges(edges: &mut Vec<(u64, u64)>, hits: &Vec<OwnedRange>, commit_id: u64)
    requires
        old(edges)@.no_duplicates(),
    ensures
        final(edges)@.no_duplicates(),
        forall|x: (u64, u64)|
            #[trigger] final(edges)@.contains(x) <==> (old(edges)@.contains(x) || edges_from(hits@, commit_id).contains(x)),
{
    let ghost start = edges@;
    let mut i: usize = 0;
    while i < hits.len()
        invariant
            i <= hits@.len(),
            edges@.no_duplicates(),
            forall|x: (u64, u64)|
                #[trigger] edges@.contains(x) <==> (start.contains(x) || edges_from(hits@.subrange(0, i as int), commit_id).contains(x)),
        decreases hits@.len() - i,
    {
        let owner = hits[i].commit_id;
        if owner != commit_id {
            add_edge(edges, (commit_id, owner));
        }
        assert forall|x: (u64, u64)|
            #[trigger] edges@.contains(x) <==> (start.contains(x) || edges_from(hits@.subrange(0, i + 1), commit_id).contains(x)) by {
            let pre = hits@.subrange(0, i as int);
            let cur = hits@.subrange(0, i + 1);
            if edges_from(pre, commit_id).contains(x) {
                let k = choose|k: int| 0 <= k < pre.len() && (#[trigger] pre[k]).commit_id == x.1;
                assert(cur[k] == pre[k]);
            }
            if edges_from(cur, commit_id).contains(x) {
                let k = choose|k: int| 0 <= k < cur.len() && (#[trigger] cur[k]).commit_id == x.1;
                if k < i {
                    assert(cur[k] == pre[k]);
                } else {
                    assert(cur[k] == hits@[i as int]);
                }
            }
            if owner != commit_id && x == (commit_id, owner) {
                assert(cur[i as int].commit_id == owner);
            }
        }
        i = i + 1;
    }
    assert(hits@.subrange(0, hits@.len() as int) =~= hits@);
}

/// Folds one hunk of commit `commit_id` into `table`: `[h.new_start,
/// h.new_start + h.old_lines)` is where the hunk's old lines stand once the
/// earlier hunks of the same commit are applied. Each other commit that owns a
/// range there becomes a dependency. A hunk that would move a range past the
/// position limit is skipped and reported instead.
pub fn add_commit_hunk(
    table: &mut Vec<OwnedRange>,
    edges: &mut Vec<(u64, u64)>,
    errors: &mut Vec<CalculationError>,
    path_bytes: &Vec<u8>,
    path: usize,
    stack_id: u64,
    commit_id: u64,
    h: &InputDiffHunk,
)
    requires
        bounded(old(table)@),
        old(edges)@.no_duplicates(),
    ensures
        bounded(final(table)@),
        final(edges)@.no_duplicates(),
        has_room(old(table)@, h.new_lines as int) ==> {
            &&& final(table)@ == apply_hunk(
                old(table)@, path, stack_id, commit_id, h.new_start as int, h.old_lines as int, h.new_lines as int,
            )
            &&& forall|x: (u64, u64)| #[trigger] final(edges)@.contains(x) <==> (old(edges)@.contains(x)
                || edges_from(overlapping(old(table)@, path, h.new_start as int, h.old_lines as int), commit_id).contains(x))
            &&& final(errors)@ == old(errors)@
        },
        !has_room(old(table)@, h.new_lines as int) ==> {
            &&& final(table)@ == old(table)@
            &&& final(edges)@ == old(edges)@
            &&& final(errors)@.len() == old(errors)@.len() + 1
            &&& final(errors)@.drop_last() == old(errors)@
            &&& crate::model::diagnostic_of(final(errors)@.last())
                == (ErrorKind::OutOfRange, path_bytes@, stack_id, commit_id, h.new_start as u64, h.old_lines as u64)
        },
{
    if !room_for(table, h.new_lines) {
        errors.push(CalculationError {
            kind: ErrorKind::OutOfRange,
            path: copy_bytes(path_bytes),
            stack_id,
            commit_id,
            start: h.new_start as u64,
            lines: h.old_lines as u64,
        });
        assert(errors@.drop_last() =~= old(errors)@);
        return;
    }
    let hits = overlapping_ranges(table, path, h.new_start as u64, h.old_lines as u64);
    add_edges(edges, &hits, commit_id);
    let next = replace_range(table, path, stack_id, commit_id, h.new_start, h.old_lines, h.new_lines);
    *table = next;
}

/// Every range of `t` names a path below `n`.
pub open spec fn paths_below(t: Seq<OwnedRange>, n: int) -> bool {
    forall|i: int| 0 <= i < t.len() ==> (#[trigger] t[i]).path < n
}

proof fn lemma_survivors_paths(t: Seq<OwnedRange>, n: int, path: usize, s: int, old: int, new: int)
    requires
        paths_below(t, n),
    ensures
        paths_below(all_survivors(t, path, s, old, new), n),
    decreases t.len(),
{
    if t.len() > 0 {
        assert(paths_below(t.drop_last(), n)) by {
            assert forall|i: int| 0 <= i < t.drop_last().len() implies (#[trigger] t.drop_last()[i]).path < n by {
                assert(t.drop_last()[i] == t[i]);
            }
        }
        lemma_survivors_paths(t.drop_last(), n, path, s, old, new);
        assert(t.last() == t[t.len() - 1]);
    }
}

/// A range of another stack on the same path that `r` meets, if any.
pub open spec fn claimed(index: Seq<OwnedRange>, r: OwnedRange) -> bool {
    exists|i: int|
        0 <= i < index.len() && (#[trigger] index[i]).path == r.path && index[i].stack_id != r.stack_id
            && intersects(r.start as int, r.lines as int, index[i])
}

fn is_claimed(index: &Vec<OwnedRange>, r: OwnedRange) -> (c: bool)
    ensures
        c == claimed(index@, r),
{
    let hits = overlapping_ranges(index, r.path, r.start, r.lines);
    proof {
        lemma_overlapping_members(index@, r.path, r.start as int, r.lines as int);
    }
    let mut i: usize = 0;
    while i < hits.len()
        invariant
            i <= hits@.len(),
            hits@ == overlapping(index@, r.path, r.start as int, r.lines as int),
            forall|j: int| 0 <= j < i ==> (#[trigger] hits@[j]).stack_id == r.stack_id,
        decreases hits@.len() - i,
    {
        if hits[i].stack_id != r.stack_id {
            proof {
                let x = hits@[i as int];
                lemma_overlapping_members(index@, r.path, r.start as int, r.lines as int);
                assert(hits@.contains(x));
                assert(index@.contains(x));
                let k = choose|k: int| 0 <= k < index@.len() && index@[k] == x;
                assert(index@[k].path == r.path);
            }
            return true;
        }
        i = i + 1;
    }
    assert forall|k: int| 0 <= k < index@.len() && (#[trigger] index@[k]).path == r.path
        && intersects(r.start as int, r.lines as int, index@[k]) implies index@[k].stack_id == r.stack_id by {
        lemma_overlapping_members(index@, r.path, r.start as int, r.lines as int);
        let j = choose|j: int| 0 <= j < hits@.len() && hits@[j] == index@[k];
    }
    false
}

/// A range is among the overlapping ones exactly when it is in the table on
/// that path and meets the interval.
pub proof fn lemma_overlapping_members(t: Seq<OwnedRange>, path: usize, s: int, n: int)
    ensures
        forall|x: OwnedRange| #[trigger] overlapping(t, path, s, n).contains(x) <==> (t.contains(x) && x.path == path && intersects(s, n, x)),
        forall|k: int| 0 <= k < t.len() && (#[trigger] t[k]).path == path && intersects(s, n, t[k])
            ==> exists|j: int| 0 <= j < overlapping(t, path, s, n).len() && overlapping(t, path, s, n)[j] == t[k],
    decreases t.len(),
{
    if t.len() > 0 {
        lemma_overlapping_members(t.drop_last(), path, s, n);
        let rest = overlapping(t.drop_last(), path, s, n);
        assert forall|x: OwnedRange| #[trigger] overlapping(t, path, s, n).contains(x) <==> (t.contains(x) && x.path == path && intersects(s, n, x)) by {
            if t.contains(x) {
                let k = choose|k: int| 0 <= k < t.len() && t[k] == x;
                if k < t.len() - 1 {
                    assert(t.drop_last()[k] == x);
                    assert(t.drop_last().contains(x));
                }
            }
            if t.drop_last().contains(x) {
                let k = choose|k: int| 0 <= k < t.drop_last().len() && t.drop_last()[k] == x;
                assert(t[k] == x);
            }
            if rest.push(t.last()).contains(x) && !rest.contains(x) {
                assert(x == t.last());
                assert(t[t.len() - 1] == x);
            }
            if rest.contains(x) {
                let j = choose|j: int| 0 <= j < rest.len() && rest[j] == x;
                assert(rest.push(t.last())[j] == x);
            }
            if x == t.last() {
                assert(rest.push(t.last())[rest.len() as int] == x);
            }
        }
        assert forall|k: int| 0 <= k < t.len() && (#[trigger] t[k]).path == path && intersects(s, n, t[k])
            implies exists|j: int| 0 <= j < overlapping(t, path, s, n).len() && overlapping(t, path, s, n)[j] == t[k] by {
            let full = overlapping(t, path, s, n);
            if k < t.len() - 1 {
                let d = t.drop_last();
                assert(d[k] == t[k]);
                assert(d[k].path == path && intersects(s, n, d[k]));
                let j = choose|j: int| 0 <= j < rest.len() && rest[j] == d[k];
                if t.last().path == path && intersects(s, n, t.last()) {
                    assert(full == rest.push(t.last()));
                    assert(full[j] == t[k]);
                } else {
                    assert(full == rest);
                    assert(full[j] == t[k]);
                }
            } else {
                assert(t.last() == t[k]);
                assert(full == rest.push(t.last()));
                assert(full[rest.len() as int] == t[k]);
            }
        }
    }
}

/// The ownership tables of all stacks, merged into one index, with the
/// commit dependencies found while building them.
pub struct WorkspaceRanges {
    /// The paths that the index refers to by position.
    pub paths: Vec<Vec<u8>>,
    /// Every owned range of every stack, in workspace coordinates.
    pub ranges: Vec<OwnedRange>,
    /// `(commit, dependency)`: the commit changed lines that the dependency owned.
    pub commit_dependencies: Vec<(u64, u64)>,
    /// Ambiguities and skipped hunks, in the order they were met.
    pub errors: Vec<CalculationError>,
}

impl WorkspaceRanges {
    pub open spec fn wf(&self) -> bool {
        &&& distinct_paths(self.paths@)
        &&& bounded(self.ranges@)
        &&& paths_below(self.ranges@, self.paths@.len() as int)
        &&& self.commit_dependencies@.no_duplicates()
    }

    /// This index holds what the build state `b` holds, but for the walked table.
    pub open spec fn holds(&self, b: BuildState) -> bool {
        &&& path_seqs(self.paths@) == b.paths
        &&& self.ranges@ == b.index
        &&& self.commit_dependencies@.to_set() == b.deps
        &&& diagnostics_of(self.errors@) == b.errors
    }

    /// The build state that this index, with `table` as the walked stack's
    /// table, stands for.
    pub open spec fn state(&self, table: Seq<OwnedRange>) -> BuildState {
        BuildState {
            paths: path_seqs(self.paths@),
            table,
            index: self.ranges@,
            deps: self.commit_dependencies@.to_set(),
            errors: diagnostics_of(self.errors@),
        }
    }

    /// Folds one stack's commits, oldest first, into a table of its own, then
    /// adds that table to the index. A range that meets a range of another
    /// stack on the same path is left out and reported: the earlier stack
    /// keeps the lines.
    fn add_stack(&mut self, stack: &InputStack)
        requires
            old(self).wf(),
        ensures
            final(self).wf(),
            exists|t: Seq<OwnedRange>| final(self).state(t) == stack_step(old(self).state(seq![]), *stack),
    {
        let ghost start = self.state(seq![]);
        let mut table: Vec<OwnedRange> = Vec::new();
        proof {
            assert(stack.commits@.subrange(0, 0) =~= Seq::<InputCommit>::empty());
        }
        let mut c: usize = 0;
        while c < stack.commits.len()
            invariant
                c <= stack.commits@.len(),
                self.wf(),
                bounded(table@),
                paths_below(table@, self.paths@.len() as int),
                self.state(table@) == commits_fold(start, stack.stack_id, stack.commits@.subrange(0, c as int)),
            decreases stack.commits@.len() - c,
        {
            let commit = &stack.commits[c];
            let ghost at_commit = self.state(table@);
            proof {
                assert(stack.commits@.subrange(0, c + 1).drop_last() =~= stack.commits@.subrange(0, c as int));
                assert(commit.files@.subrange(0, 0) =~= Seq::<InputFile>::empty());
            }
            let mut f: usize = 0;
            while f < commit.files.len()
                invariant
                    f <= commit.files@.len(),
                    self.wf(),
                    bounded(table@),
                    paths_below(table@, self.paths@.len() as int),
                    self.state(table@) == files_fold(at_commit, stack.stack_id, commit.commit_id, commit.files@.subrange(0, f as int)),
                decreases commit.files@.len() - f,
            {
                let file = &commit.files[f];
                let ghost at_file = self.state(table@);
                proof {
                    assert(commit.files@.subrange(0, f + 1).drop_last() =~= commit.files@.subrange(0, f as int));
                    assert(file.hunks@.subrange(0, 0) =~= Seq::<InputDiffHunk>::empty());
                }
                let path = intern_path(&mut self.paths, &file.path);
                let ghost interned = self.state(table@);
                proof {
                    assert(interned == BuildState { paths: intern(at_file.paths, file.path@).0, ..at_file });
                    assert(interned.paths[path as int] == file.path@);
                }
                let mut k: usize = 0;
                while k < file.hunks.len()
                    invariant
                        k <= file.hunks@.len(),
                        self.wf(),
                        path < self.paths@.len(),
                        path_seqs(self.paths@) == interned.paths,
                        interned.paths[path as int] == file.path@,
                        bounded(table@),
                        paths_below(table@, self.paths@.len() as int),
                        self.state(table@) == hunks_fold(interned, path as int, stack.stack_id, commit.commit_id, file.hunks@.subrange(0, k as int)),
                    decreases file.hunks@.len() - k,
                {
                    let h = &file.hunks[k];
                    let ghost before = self.state(table@);
                    let ghost t0 = table@;
                    let ghost e0 = self.errors@;
                    proof {
                        assert(file.hunks@.subrange(0, k + 1).drop_last() =~= file.hunks@.subrange(0, k as int));
                    }
                    add_commit_hunk(
                        &mut table,
                        &mut self.commit_dependencies,
                        &mut self.errors,
                        &file.path,
                        path,
                        stack.stack_id,
                        commit.commit_id,
                        h,
                    );
                    proof {
                        let next = hunk_step(before, path as int, stack.stack_id, commit.commit_id, *h);
                        if has_room(t0, h.new_lines as int) {
                            lemma_survivors_paths(t0, self.paths@.len() as int, path, h.new_start as int, h.old_lines as int, h.new_lines as int);
                            let a = all_survivors(t0, path, h.new_start as int, h.old_lines as int, h.new_lines as int);
                            assert forall|i: int| 0 <= i < table@.len() implies (#[trigger] table@[i]).path < self.paths@.len() by {
                                if i < a.len() {
                                    assert(table@[i] == a[i]);
                                }
                            }
                            assert(self.commit_dependencies@.to_set() =~= next.deps);
                        } else {
                            assert(diagnostics_of(self.errors@) =~= diagnostics_of(e0).push(diagnostic_of(self.errors@.last())));
                            assert(diagnostics_of(self.errors@) =~= next.errors);
                        }
                        assert(self.state(table@) == next);
                    }
                    k = k + 1;
                }
                proof {
                    assert(file.hunks@.subrange(0, file.hunks@.len() as int) =~= file.hunks@);
                }
                f = f + 1;
            }
            proof {
                assert(commit.files@.subrange(0, commit.files@.len() as int) =~= commit.files@);
            }
            c = c + 1;
        }
        proof {
            assert(stack.commits@.subrange(0, stack.commits@.len() as int) =~= stack.commits@);
            assert(table@.subrange(0, 0) =~= Seq::<OwnedRange>::empty());
        }
        let ghost walked = self.state(table@);
        let mut i: usize = 0;
        while i < table.len()
            invariant
                i <= table@.len(),
                self.wf(),
                bounded(table@),
                paths_below(table@, self.paths@.len() as int),
                walked.table == table@,
                self.state(table@) == merge_fold(walked, table@.subrange(0, i as int)),
            decreases table@.len() - i,
        {
            let r = table[i];
            let ghost before = self.state(table@);
            proof {
                assert(table@.subrange(0, i + 1).drop_last() =~= table@.subrange(0, i as int));
                assert(table@[i as int] == r);
            }
            assert(r.path < self.paths@.len() && range_end(r) <= POSITION_LIMIT);
            if is_claimed(&self.ranges, r) {
                let ghost e0 = self.errors@;
                self.errors.push(CalculationError {
                    kind: ErrorKind::AmbiguousOwnership,
                    path: copy_bytes(&self.paths[r.path]),
                    stack_id: r.stack_id,
                    commit_id: r.commit_id,
                    start: r.start,
                    lines: r.lines,
                });
                proof {
                    assert(diagnostics_of(self.errors@) =~= diagnostics_of(e0).push(diagnostic_of(self.errors@.last())));
                    assert(self.state(table@) == merge_step(before, r));
                }
            } else {
                let ghost before_ranges = self.ranges@;
                self.ranges.push(r);
                assert forall|j: int| 0 <= j < self.ranges@.len() implies (#[trigger] self.ranges@[j]).path < self.paths@.len()
                    && range_end(self.ranges@[j]) <= POSITION_LIMIT by {
                    if j < before_ranges.len() {
                        assert(self.ranges@[j] == before_ranges[j]);
                    }
                }
                assert(self.state(table@) == merge_step(before, r));
            }
            i = i + 1;
        }
        proof {
            assert(table@.subrange(0, table@.len() as int) =~= table@);
            assert(walked == commits_fold(BuildState { table: seq![], ..start }, stack.stack_id, stack.commits@));
        }
    }

    /// Builds the index from `stacks`. Two stacks with one id end the whole
    /// build; everything else that cannot be attributed becomes an entry of
    /// `errors`.
    pub fn try_from_stacks(stacks: Vec<InputStack>) -> (r: Result<WorkspaceRanges, StackError>)
        ensures
            match r {
                Ok(w) => w.wf() && !has_duplicate_ids(stacks@) && w.holds(build(stacks@)),
                Err(StackError::DuplicateStackId(id)) => has_duplicate_ids(stacks@)
                    && exists|i: int, j: int| 0 <= i < j < stacks@.len() && stacks@[i].stack_id == id && stacks@[j].stack_id == id,
            },
    {
        let mut i: usize = 0;
        while i < stacks.len()
            invariant
                i <= stacks@.len(),
                forall|a: int, b: int| 0 <= a < b < i ==> (#[trigger] stacks@[a]).stack_id != (#[trigger] stacks@[b]).stack_id,
            decreases stacks@.len() - i,
        {
            let mut j: usize = 0;
            while j < i
                invariant
                    j <= i < stacks@.len(),
                    forall|a: int| 0 <= a < j ==> (#[trigger] stacks@[a]).stack_id != stacks@[i as int].stack_id,
                decreases i - j,
            {
                if stacks[j].stack_id == stacks[i].stack_id {
                    return Err(StackError::DuplicateStackId(stacks[i].stack_id));
                }
                j = j + 1;
            }
            i = i + 1;
        }
        let mut w = WorkspaceRanges {
            paths: Vec::new(),
            ranges: Vec::new(),
            commit_dependencies: Vec::new(),
            errors: Vec::new(),
        };
        proof {
            assert(!has_duplicate_ids(stacks@));
            assert(stacks@.subrange(0, 0) =~= Seq::<InputStack>::empty());
            assert(path_seqs(w.paths@) =~= Seq::<Seq<u8>>::empty());
            assert(w.commit_dependencies@.to_set() =~= Set::<(u64, u64)>::empty());
            assert(diagnostics_of(w.errors@) =~= Seq::<Diagnostic>::empty());
        }
        let mut s: usize = 0;
        while s < stacks.len()
            invariant
                s <= stacks@.len(),
                w.wf(),
                !has_duplicate_ids(stacks@),
                w.holds(stacks_fold(build(seq![]), stacks@.subrange(0, s as int))),
            decreases stacks@.len() - s,
        {
            let ghost before = stacks_fold(build(seq![]), stacks@.subrange(0, s as int));
            proof {
                assert(stacks@.subrange(0, s + 1).drop_last() =~= stacks@.subrange(0, s as int));
                assert(w.state(seq![]) == BuildState { table: seq![], ..before });
            }
            w.add_stack(&stacks[s]);
            s = s + 1;
        }
        proof {
            assert(stacks@.subrange(0, stacks@.len() as int) =~= stacks@);
        }
        Ok(w)
    }

    /// The ranges on `path` that `[start, start + lines)` meets; `None` where
    /// there are none, that is where the interval holds no committed line.
    pub fn intersection(&self, path: &Vec<u8>, start: u32, lines: u32) -> (r: Option<Vec<OwnedRange>>)
        requires
            self.wf(),
        ensures
            match r {
                Some(v) => v@.len() > 0 && v@ == hits(self.state(seq![]), path@, start as int, lines as int),
                None => hits(self.state(seq![]), path@, start as int, lines as int).len() == 0,
            },
    {
        match crate::paths::find_path(&self.paths, path) {
            None => {
                proof {
                    let ps = path_seqs(self.paths@);
                    assert forall|k: int| 0 <= k < ps.len() implies ps[k] != path@ by {
                        assert(ps[k] == self.paths@[k]@);
                    }
                }
                None
            },
            Some(i) => {
                let v = overlapping_ranges(&self.ranges, i, start as u64, lines as u64);
                proof {
                    let ps = path_seqs(self.paths@);
                    assert(ps[i as int] == path@);
                    assert forall|a: int, b: int| 0 <= a < b < ps.len() implies ps[a] != ps[b] by {
                        assert(ps[a] == self.paths@[a]@ && ps[b] == self.paths@[b]@);
                    }
                    lemma_hits_at(self.state(seq![]), path@, i as int, start as int, lines as int);
                }
                if v.len() == 0 {
                    None
                } else {
                    Some(v)
                }
            },
        }
    }
}

/// Two stacks share an id.
pub open spec fn has_duplicate_ids(stacks: Seq<InputStack>) -> bool {
    exists|i: int, j: int| 0 <= i < j < stacks.len() && (#[trigger] stacks[i]).stack_id == (#[trigger] stacks[j]).stack_id
}

} // verus!
