use but_hunk_dependency::hashing::{extract_changed_lines, hash_lines};
use but_hunk_dependency::ranges::{add_commit_hunk, room_for, POSITION_LIMIT};
use but_hunk_dependency::OwnedRange;
use but_hunk_dependency::{
    calculate, ErrorKind, HunkLock, InputCommit, InputDiffHunk, InputFile, InputStack, StackError,
    WorkspaceRanges, WorktreeChange,
};

fn hunk(old_start: u32, old_lines: u32, new_start: u32, new_lines: u32, diff: &str) -> InputDiffHunk {
    InputDiffHunk { old_start, old_lines, new_start, new_lines, diff: diff.as_bytes().to_vec() }
}

fn file(path: &str, hunks: Vec<InputDiffHunk>) -> InputFile {
    InputFile { path: path.as_bytes().to_vec(), hunks }
}

fn commit(commit_id: u64, files: Vec<InputFile>) -> InputCommit {
    InputCommit { commit_id, files }
}

fn stack(stack_id: u64, commits: Vec<InputCommit>) -> InputStack {
    InputStack { stack_id, commits }
}

fn change(path: &str, hunks: Vec<InputDiffHunk>) -> WorktreeChange {
    WorktreeChange { path: path.as_bytes().to_vec(), hunks: Some(hunks) }
}

fn owners(w: &WorkspaceRanges, path: &str, start: u32, lines: u32) -> Vec<u64> {
    match w.intersection(&path.as_bytes().to_vec(), start, lines) {
        None => vec![],
        Some(v) => v.iter().map(|r| r.commit_id).collect(),
    }
}

fn two_hunk_stack() -> Vec<InputStack> {
    vec![stack(
        1,
        vec![commit(
            10,
            vec![file("a.rs", vec![hunk(5, 0, 5, 3, "+a\n+b\n+c\n"), hunk(20, 0, 23, 2, "+d\n+e\n")])],
        )],
    )]
}

#[test]
fn query_inside_a_hunk_finds_its_commit() {
    let w = WorkspaceRanges::try_from_stacks(two_hunk_stack()).unwrap();
    assert_eq!(owners(&w, "a.rs", 5, 3), vec![10]);
    assert_eq!(owners(&w, "a.rs", 6, 1), vec![10]);
    assert_eq!(owners(&w, "a.rs", 23, 2), vec![10]);
    assert_eq!(owners(&w, "a.rs", 24, 1), vec![10]);
}

#[test]
fn query_between_hunks_finds_nothing() {
    let w = WorkspaceRanges::try_from_stacks(two_hunk_stack()).unwrap();
    assert_eq!(owners(&w, "a.rs", 8, 15), Vec::<u64>::new());
    assert_eq!(owners(&w, "a.rs", 1, 4), Vec::<u64>::new());
    assert_eq!(owners(&w, "b.rs", 5, 3), Vec::<u64>::new());
}

#[test]
fn insertion_point_meets_only_a_range_starting_there() {
    let w = WorkspaceRanges::try_from_stacks(two_hunk_stack()).unwrap();
    assert_eq!(owners(&w, "a.rs", 5, 0), vec![10]);
    assert_eq!(owners(&w, "a.rs", 6, 0), Vec::<u64>::new());
    assert_eq!(owners(&w, "a.rs", 8, 0), Vec::<u64>::new());
}

#[test]
fn later_commit_moves_earlier_ranges() {
    // A inserts 3 lines at 10; B edits line 20 of A's result.
    let stacks = vec![stack(
        1,
        vec![
            commit(100, vec![file("f.txt", vec![hunk(10, 0, 10, 3, "+x\n+y\n+z\n")])]),
            commit(200, vec![file("f.txt", vec![hunk(20, 1, 20, 1, "-old\n+new\n")])]),
        ],
    )];
    let w = WorkspaceRanges::try_from_stacks(stacks).unwrap();
    assert_eq!(owners(&w, "f.txt", 20, 1), vec![200]);
    assert_eq!(owners(&w, "f.txt", 10, 3), vec![100]);
    assert!(w.commit_dependencies.is_empty());
}

#[test]
fn edit_inside_a_range_splits_it() {
    let stacks = vec![stack(
        1,
        vec![
            commit(1, vec![file("f", vec![hunk(1, 0, 1, 10, "+1\n")])]),
            commit(2, vec![file("f", vec![hunk(5, 1, 5, 3, "-5\n+a\n+b\n+c\n")])]),
        ],
    )];
    let w = WorkspaceRanges::try_from_stacks(stacks).unwrap();
    assert_eq!(owners(&w, "f", 1, 4), vec![1]);
    assert_eq!(owners(&w, "f", 5, 3), vec![2]);
    assert_eq!(owners(&w, "f", 8, 5), vec![1]);
    assert_eq!(owners(&w, "f", 13, 1), Vec::<u64>::new());
    assert_eq!(w.commit_dependencies, vec![(2, 1)]);
}

#[test]
fn end_to_end_example() {
    let stacks = vec![stack(
        7,
        vec![
            commit(0xA, vec![file("f.txt", vec![hunk(1, 0, 1, 2, "+one\n+two\n")])]),
            commit(0xB, vec![file("f.txt", vec![hunk(1, 2, 1, 1, "-one\n-two\n+both\n")])]),
        ],
    )];
    let w = WorkspaceRanges::try_from_stacks(stacks).unwrap();
    assert_eq!(owners(&w, "f.txt", 1, 1), vec![0xB]);

    let stacks = vec![stack(
        7,
        vec![
            commit(0xA, vec![file("f.txt", vec![hunk(1, 0, 1, 2, "+one\n+two\n")])]),
            commit(0xB, vec![file("f.txt", vec![hunk(1, 2, 1, 1, "-one\n-two\n+both\n")])]),
        ],
    )];
    let body = "-both\n+changed\n";
    let d = calculate(vec![change("f.txt", vec![hunk(1, 1, 1, 1, body)])], stacks).unwrap();
    let h = hash_lines(&body.as_bytes().to_vec());
    assert_eq!(d.diffs, vec![(h, HunkLock { stack_id: 7, commit_id: 0xB })]);
    assert_eq!(d.commit_dependent_diffs, vec![(7, 0xB, h)]);
    assert_eq!(d.commit_dependencies, vec![(0xB, 0xA)]);
    assert_eq!(d.inverse_commit_dependencies, vec![(0xA, 0xB)]);
    assert!(d.errors.is_empty());
}

#[test]
fn worktree_hunk_at_shifted_position_locks_child_commit() {
    let stacks = vec![stack(
        1,
        vec![
            commit(100, vec![file("f.txt", vec![hunk(10, 0, 10, 3, "+x\n+y\n+z\n")])]),
            commit(200, vec![file("f.txt", vec![hunk(20, 1, 20, 1, "-old\n+new\n")])]),
        ],
    )];
    let d = calculate(vec![change("f.txt", vec![hunk(20, 1, 20, 1, "-new\n+newer\n")])], stacks).unwrap();
    assert_eq!(d.diffs.len(), 1);
    assert_eq!(d.diffs[0].1, HunkLock { stack_id: 1, commit_id: 200 });
}

#[test]
fn equal_content_shares_one_hash() {
    let stacks = vec![stack(
        3,
        vec![
            commit(1, vec![file("a", vec![hunk(1, 0, 1, 5, "+a\n")])]),
            commit(2, vec![file("b", vec![hunk(1, 0, 1, 5, "+b\n")])]),
        ],
    )];
    let changes = vec![
        change("a", vec![hunk(2, 1, 2, 1, " ctx\n-gone\n+same\n")]),
        change("b", vec![hunk(4, 1, 4, 1, " other\n-gone\n+same\n")]),
    ];
    let d = calculate(changes, stacks).unwrap();
    assert_eq!(d.diffs.len(), 2);
    assert_eq!(d.diffs[0].0, d.diffs[1].0);
    assert_eq!(d.diffs[0].1, HunkLock { stack_id: 3, commit_id: 1 });
    assert_eq!(d.diffs[1].1, HunkLock { stack_id: 3, commit_id: 2 });
    assert_eq!(d.commit_dependent_diffs.len(), 2);
}

#[test]
fn untouched_region_leaves_no_record() {
    let stacks = vec![stack(1, vec![commit(1, vec![file("a", vec![hunk(1, 0, 1, 2, "+a\n+b\n")])])])];
    let changes = vec![
        change("a", vec![hunk(50, 0, 50, 2, "+new\n+lines\n")]),
        change("elsewhere", vec![hunk(1, 0, 1, 1, "+x\n")]),
        WorktreeChange { path: b"a".to_vec(), hunks: None },
    ];
    let d = calculate(changes, stacks).unwrap();
    assert!(d.diffs.is_empty());
    assert!(d.commit_dependent_diffs.is_empty());
    assert!(d.commit_dependencies.is_empty());
}

#[test]
fn cross_stack_overlap_is_one_diagnostic() {
    let stacks = vec![
        stack(1, vec![commit(11, vec![file("shared", vec![hunk(1, 0, 1, 4, "+a\n")]), file("one", vec![hunk(1, 0, 1, 1, "+o\n")])])]),
        stack(2, vec![commit(22, vec![file("shared", vec![hunk(2, 0, 2, 2, "+b\n")]), file("two", vec![hunk(3, 0, 3, 1, "+t\n")])])]),
    ];
    let changes = vec![
        change("one", vec![hunk(1, 1, 1, 1, "-o\n+p\n")]),
        change("two", vec![hunk(3, 1, 3, 1, "-t\n+u\n")]),
    ];
    let d = calculate(changes, stacks).unwrap();
    assert_eq!(d.errors.len(), 1);
    assert_eq!(d.errors[0].kind, ErrorKind::AmbiguousOwnership);
    assert_eq!(d.errors[0].path, b"shared".to_vec());
    assert_eq!(d.errors[0].commit_id, 22);
    assert_eq!(d.errors[0].stack_id, 2);
    assert_eq!(d.diffs.len(), 2);
    assert_eq!(d.diffs[0].1, HunkLock { stack_id: 1, commit_id: 11 });
    assert_eq!(d.diffs[1].1, HunkLock { stack_id: 2, commit_id: 22 });
}

#[test]
fn repeated_calls_agree() {
    let mk = || {
        vec![stack(
            1,
            vec![
                commit(1, vec![file("f", vec![hunk(1, 0, 1, 3, "+a\n")])]),
                commit(2, vec![file("f", vec![hunk(2, 1, 2, 1, "-b\n+c\n")])]),
            ],
        )]
    };
    let ch = || vec![change("f", vec![hunk(1, 3, 1, 1, "-a\n-c\n-d\n+e\n")])];
    let a = calculate(ch(), mk()).unwrap();
    let b = calculate(ch(), mk()).unwrap();
    assert_eq!(a.diffs, b.diffs);
    assert_eq!(a.commit_dependencies, b.commit_dependencies);
    assert_eq!(a.inverse_commit_dependencies, b.inverse_commit_dependencies);
    assert_eq!(a.commit_dependent_diffs, b.commit_dependent_diffs);
    assert_eq!(a.diffs.len(), 2);
}

#[test]
fn duplicate_stack_ids_fail() {
    let stacks = vec![stack(5, vec![]), stack(6, vec![]), stack(5, vec![])];
    match calculate(vec![], stacks) {
        Err(e) => assert_eq!(e, StackError::DuplicateStackId(5)),
        Ok(_) => panic!("duplicate ids were accepted"),
    }
}

#[test]
fn oversized_hunk_is_reported_and_skipped() {
    let far = OwnedRange { path: 0, start: POSITION_LIMIT - 10, lines: 4, stack_id: 1, commit_id: 1 };
    let mut table = vec![far];
    assert!(room_for(&table, 6));
    assert!(!room_for(&table, 7));
    let mut edges = Vec::new();
    let mut errors = Vec::new();
    let h = hunk(1, 0, 1, 7, "+x\n");
    add_commit_hunk(&mut table, &mut edges, &mut errors, &b"f".to_vec(), 0, 1, 2, &h);
    assert_eq!(table, vec![far]);
    assert!(edges.is_empty());
    assert_eq!(errors.len(), 1);
    assert_eq!(errors[0].kind, ErrorKind::OutOfRange);
    assert_eq!(errors[0].commit_id, 2);
    let h = hunk(1, 0, 1, 6, "+x\n");
    add_commit_hunk(&mut table, &mut edges, &mut errors, &b"f".to_vec(), 0, 1, 2, &h);
    assert_eq!(errors.len(), 1);
    assert_eq!(table.len(), 2);
    assert_eq!(table[0].start, POSITION_LIMIT - 4);
    assert_eq!(table[1], OwnedRange { path: 0, start: 1, lines: 6, stack_id: 1, commit_id: 2 });
}

#[test]
fn hash_ignores_context_and_position() {
    let a = hash_lines(&b" ctx\n-x\n+y\n".to_vec());
    let b = hash_lines(&b" other\n-x\n more\n+y\n".to_vec());
    let c = hash_lines(&b"-x\n+z\n".to_vec());
    assert_eq!(a, b);
    assert_ne!(a, c);
}

#[test]
fn changed_lines_keep_only_added_and_removed() {
    assert_eq!(extract_changed_lines(&b" a\n-b\n c\n+d\n".to_vec()), b"-b\n+d\n".to_vec());
    assert_eq!(extract_changed_lines(&b"".to_vec()), Vec::<u8>::new());
    assert_eq!(extract_changed_lines(&b" only context\n".to_vec()), Vec::<u8>::new());
}

#[test]
fn empty_input_gives_empty_result() {
    let d = calculate(vec![], vec![]).unwrap();
    assert!(d.diffs.is_empty());
    assert!(d.commit_dependencies.is_empty());
    assert!(d.inverse_commit_dependencies.is_empty());
    assert!(d.commit_dependent_diffs.is_empty());
    assert!(d.errors.is_empty());
}

#[test]
fn deletion_point_is_met_by_a_covering_hunk() {
    // The commit removes lines 4..6 of its parent: it owns the point 4.
    let stacks = vec![stack(9, vec![commit(90, vec![file("d", vec![hunk(4, 2, 4, 0, "-x\n-y\n")])])])];
    let w = WorkspaceRanges::try_from_stacks(stacks).unwrap();
    assert_eq!(owners(&w, "d", 3, 2), vec![90]);
    assert_eq!(owners(&w, "d", 4, 0), vec![90]);
    assert_eq!(owners(&w, "d", 5, 3), Vec::<u64>::new());
    assert_eq!(owners(&w, "d", 1, 3), Vec::<u64>::new());
}

#[test]
fn pure_insertion_does_not_split_but_moves() {
    let stacks = vec![stack(
        1,
        vec![
            commit(1, vec![file("f", vec![hunk(1, 0, 1, 4, "+a\n")])]),
            commit(2, vec![file("f", vec![hunk(3, 0, 3, 2, "+b\n+c\n")])]),
        ],
    )];
    let w = WorkspaceRanges::try_from_stacks(stacks).unwrap();
    assert_eq!(owners(&w, "f", 1, 2), vec![1]);
    assert_eq!(owners(&w, "f", 3, 2), vec![2]);
    assert_eq!(owners(&w, "f", 5, 2), vec![1]);
    assert_eq!(owners(&w, "f", 7, 1), Vec::<u64>::new());
    assert!(w.commit_dependencies.is_empty());
}

#[test]
fn dependency_on_several_owners() {
    let stacks = vec![stack(
        1,
        vec![
            commit(1, vec![file("f", vec![hunk(1, 0, 1, 2, "+a\n")])]),
            commit(2, vec![file("f", vec![hunk(3, 0, 3, 2, "+b\n")])]),
            commit(3, vec![file("f", vec![hunk(2, 2, 2, 1, "-a\n-b\n+c\n")])]),
        ],
    )];
    let d = calculate(vec![], stacks).unwrap();
    assert_eq!(d.commit_dependencies, vec![(3, 1), (3, 2)]);
    assert_eq!(d.inverse_commit_dependencies, vec![(1, 3), (2, 3)]);
}

#[test]
fn dependency_graph_points_to_earlier_commits() {
    let order = [11u64, 12, 13, 14, 15];
    let stacks = vec![stack(
        1,
        vec![
            commit(11, vec![file("f", vec![hunk(1, 0, 1, 6, "+a\n")]), file("g", vec![hunk(1, 0, 1, 2, "+g\n")])]),
            commit(12, vec![file("f", vec![hunk(2, 2, 2, 3, "-b\n+c\n")])]),
            commit(13, vec![file("f", vec![hunk(1, 4, 1, 1, "-d\n+e\n")]), file("g", vec![hunk(2, 1, 2, 1, "-h\n+i\n")])]),
            commit(14, vec![file("g", vec![hunk(1, 2, 1, 2, "-j\n+k\n")])]),
            commit(15, vec![file("f", vec![hunk(1, 5, 1, 0, "-l\n")])]),
        ],
    )];
    let d = calculate(vec![], stacks).unwrap();
    assert!(!d.commit_dependencies.is_empty());
    let pos = |c: u64| order.iter().position(|&x| x == c).unwrap();
    for (commit_id, dependency) in &d.commit_dependencies {
        assert!(pos(*dependency) < pos(*commit_id));
    }
    assert!(d.commit_dependencies.contains(&(12, 11)));
    assert!(d.commit_dependencies.contains(&(13, 12)));
    assert!(d.commit_dependencies.contains(&(14, 13)));
    assert!(d.commit_dependencies.contains(&(15, 13)));
}
