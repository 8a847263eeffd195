use gitlapse::analyzer::{analyze, CommitInput, DiffEvent, HunkInput, LineKind};

fn commit(timestamp: i64, author: &str, events: Vec<DiffEvent>) -> CommitInput {
    CommitInput { timestamp, author: Some(author.to_string()), events }
}

fn add(path: &str, line_count: usize) -> DiffEvent {
    DiffEvent::Added { path: path.to_string(), line_count }
}

fn modify(path: &str, line_count: usize, hunks: Vec<HunkInput>) -> DiffEvent {
    DiffEvent::Modified { path: path.to_string(), line_count, hunks }
}

#[test]
fn identity_count_equals_add_events() {
    let analysis = analyze(vec![
        commit(0, "alice", vec![add("a.txt", 3), add("b.txt", 1)]),
        commit(
            60,
            "bob",
            vec![
                DiffEvent::Deleted { path: "b.txt".to_string() },
                add("c.txt", 2),
                DiffEvent::Renamed {
                    old_path: "a.txt".to_string(),
                    new_path: "d.txt".to_string(),
                },
            ],
        ),
    ]);
    // Three add events were observed, so exactly three identities exist.
    assert_eq!(analysis.files.len(), 3);
    assert_eq!(analysis.files[0].id, 0);
    assert_eq!(analysis.files[1].id, 1);
    assert_eq!(analysis.files[2].id, 2);
}

#[test]
fn rename_keeps_identity_and_provenance() {
    let hunk = HunkInput { new_start: 1, lines: vec![LineKind::Added] };
    let analysis = analyze(vec![
        commit(0, "alice", vec![add("a.txt", 1)]),
        commit(10, "bob", vec![modify("a.txt", 1, vec![hunk])]),
        commit(
            20,
            "carol",
            vec![DiffEvent::Renamed {
                old_path: "a.txt".to_string(),
                new_path: "c.txt".to_string(),
            }],
        ),
    ]);
    // Same identity, new path, lifetime untouched.
    assert_eq!(analysis.files.len(), 1);
    assert_eq!(analysis.files[0].id, 0);
    assert_eq!(analysis.files[0].path, "c.txt");
    assert_eq!(analysis.files[0].birth_time, 0);
    assert_eq!(analysis.files[0].death_time, None);
    // The provenance map is keyed by identity: the lookup answers the
    // same immediately before (t=15) and after (t=25) the rename.
    assert_eq!(analysis.changes.last_committer_at(0, 1, 15), Some(1));
    assert_eq!(analysis.changes.last_committer_at(0, 1, 25), Some(1));
    assert_eq!(analysis.changes.heat_count(0, 1, 0, 15), 1);
    assert_eq!(analysis.changes.heat_count(0, 1, 0, 25), 1);
}

#[test]
fn line_counts_are_a_step_function() {
    let analysis = analyze(vec![
        commit(0, "alice", vec![add("a.txt", 3)]),
        commit(100, "alice", vec![modify("a.txt", 5, vec![])]),
        commit(200, "alice", vec![modify("a.txt", 4, vec![])]),
    ]);
    let f = &analysis.files[0];
    assert_eq!(f.line_count_at(-1), 0);
    assert_eq!(f.line_count_at(0), 3);
    assert_eq!(f.line_count_at(50), 3);
    assert_eq!(f.line_count_at(100), 5);
    assert_eq!(f.line_count_at(199), 5);
    assert_eq!(f.line_count_at(200), 4);
    assert_eq!(f.line_count_at(1_000_000), 4);
}

#[test]
fn heat_counts_entries_in_window_and_widening_never_shrinks_it() {
    let h1 = HunkInput { new_start: 1, lines: vec![LineKind::Added] };
    let h2 = HunkInput { new_start: 1, lines: vec![LineKind::Added] };
    let analysis = analyze(vec![
        commit(0, "alice", vec![add("a.txt", 1)]),
        commit(10, "bob", vec![modify("a.txt", 1, vec![h1])]),
        commit(100, "carol", vec![modify("a.txt", 1, vec![h2])]),
    ]);
    let c = &analysis.changes;
    assert_eq!(c.heat_count(0, 1, 50, 150), 1);
    assert_eq!(c.heat_count(0, 1, 0, 150), 2);
    assert_eq!(c.heat_count(0, 1, 101, 150), 0);
    // Doubling the window length can only raise the count.
    assert!(c.heat_count(0, 1, 150 - 200, 150) >= c.heat_count(0, 1, 150 - 100, 150));
    // Entries outside any window are never counted.
    assert_eq!(c.heat_count(0, 1, 11, 99), 0);
}

#[test]
fn hunk_cursor_walks_like_a_unified_diff() {
    // Start at output line 5: an insertion lands at 5, the cursor walks
    // a kept line, a removal lands at 7 without advancing, and a second
    // touch lands at 7 again.
    let hunk = HunkInput {
        new_start: 5,
        lines: vec![LineKind::Added, LineKind::Context, LineKind::Removed, LineKind::Added],
    };
    let analysis = analyze(vec![
        commit(0, "alice", vec![add("a.txt", 9)]),
        commit(60, "bob", vec![modify("a.txt", 9, vec![hunk])]),
    ]);
    let c = &analysis.changes;
    assert_eq!(c.heat_count(0, 5, 0, 100), 1);
    assert_eq!(c.heat_count(0, 6, 0, 100), 0);
    assert_eq!(c.heat_count(0, 7, 0, 100), 2);
    assert_eq!(c.heat_count(0, 8, 0, 100), 0);
}

#[test]
fn committer_registry_is_first_seen_and_dense() {
    let analysis = analyze(vec![
        commit(0, "alice", vec![add("a.txt", 1)]),
        commit(10, "bob", vec![modify("a.txt", 1, vec![])]),
        commit(20, "alice", vec![modify("a.txt", 1, vec![])]),
        CommitInput { timestamp: 30, author: None, events: vec![] },
    ]);
    assert_eq!(analysis.committers, vec!["alice", "bob", "Unknown"]);
}

#[test]
fn commits_are_sorted_and_ties_keep_incoming_order() {
    // Handed newest first: the analyzer sorts them ascending.
    let analysis = analyze(vec![
        commit(100, "alice", vec![add("b.txt", 1)]),
        commit(0, "alice", vec![add("a.txt", 1)]),
    ]);
    assert_eq!(analysis.commits, vec![0, 100]);
    assert_eq!(analysis.start_time, 0);
    assert_eq!(analysis.end_time, 100);
    assert_eq!(analysis.files[0].path, "a.txt");
    assert_eq!(analysis.files[1].path, "b.txt");

    // Two commits share a timestamp: they apply in incoming order, so
    // the delete lands after the add and the file is dead.
    let tie = analyze(vec![
        commit(0, "alice", vec![add("a.txt", 1)]),
        commit(0, "bob", vec![DiffEvent::Deleted { path: "a.txt".to_string() }]),
    ]);
    assert_eq!(tie.files.len(), 1);
    assert_eq!(tie.files[0].death_time, Some(0));
}

#[test]
fn sorting_commits_is_stable_by_timestamp() {
    let c = |t: i64, who: &str| commit(t, who, vec![]);
    let sorted = gitlapse::analyzer::sort_commits(vec![
        c(50, "carol"),
        c(10, "alice"),
        c(50, "bob"),
        c(0, "dan"),
    ]);
    let order: Vec<(i64, Option<String>)> =
        sorted.into_iter().map(|x| (x.timestamp, x.author)).collect();
    assert_eq!(
        order,
        vec![
            (0, Some("dan".to_string())),
            (10, Some("alice".to_string())),
            (50, Some("carol".to_string())),
            (50, Some("bob".to_string())),
        ]
    );
}

#[test]
fn unknown_paths_are_no_ops_not_errors() {
    let analysis = analyze(vec![commit(
        0,
        "alice",
        vec![
            DiffEvent::Deleted { path: "ghost.txt".to_string() },
            modify("ghost.txt", 7, vec![HunkInput { new_start: 1, lines: vec![LineKind::Added] }]),
            DiffEvent::Renamed {
                old_path: "ghost.txt".to_string(),
                new_path: "other.txt".to_string(),
            },
        ],
    )]);
    assert_eq!(analysis.files.len(), 0);
    assert_eq!(analysis.changes.heat_count(0, 1, 0, 100), 0);
}

#[test]
fn empty_history_analyzes_to_an_empty_model() {
    let analysis = analyze(vec![]);
    assert_eq!(analysis.files.len(), 0);
    assert_eq!(analysis.committers.len(), 0);
    assert_eq!(analysis.commits.len(), 0);
    assert_eq!(analysis.start_time, 0);
    assert_eq!(analysis.end_time, 0);
}

#[test]
fn reanalyzing_the_same_history_gives_an_identical_model() {
    let history = || {
        vec![
            commit(0, "alice", vec![add("a.txt", 3), add("b.txt", 2)]),
            commit(
                120,
                "bob",
                vec![modify(
                    "a.txt",
                    2,
                    vec![HunkInput {
                        new_start: 1,
                        lines: vec![LineKind::Context, LineKind::Removed, LineKind::Context],
                    }],
                )],
            ),
            commit(500, "carol", vec![DiffEvent::Deleted { path: "b.txt".to_string() }]),
        ]
    };
    let first = analyze(history());
    let second = analyze(history());
    assert_eq!(format!("{:?}", first), format!("{:?}", second));
}
