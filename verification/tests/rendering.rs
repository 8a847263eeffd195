use gitlapse::analyzer::{analyze, CommitInput, DiffEvent, HunkInput, LineKind};
use gitlapse::cli::{Args, Mode};
use gitlapse::renderer::{
    active_commit_time, frame_count, frame_time, paint_frame, render_frame, window_seconds, Cell,
    Frame,
};

fn commit(timestamp: i64, author: &str, events: Vec<DiffEvent>) -> CommitInput {
    CommitInput { timestamp, author: Some(author.to_string()), events }
}

fn add(path: &str, line_count: usize) -> DiffEvent {
    DiffEvent::Added { path: path.to_string(), line_count }
}

fn modify(path: &str, line_count: usize, hunks: Vec<HunkInput>) -> DiffEvent {
    DiffEvent::Modified { path: path.to_string(), line_count, hunks }
}

fn args(width: u32, height: u32, window_days: u64, mode: Mode) -> Args {
    Args {
        repo: ".".to_string(),
        output: "frames".to_string(),
        width,
        height,
        window_days,
        mode,
    }
}

#[test]
fn deleting_a_line_warms_exactly_one_row() {
    // One commit adds a three-line file at t=0; a second at t=120
    // deletes its second line. At t=150 with a one-day window the file
    // measures two lines, and exactly one pixel row is warm: the row at
    // the deleted line's pre-edit number.
    let analysis = analyze(vec![
        commit(0, "alice", vec![add("a.txt", 3)]),
        commit(
            120,
            "bob",
            vec![modify(
                "a.txt",
                2,
                vec![HunkInput {
                    new_start: 1,
                    lines: vec![LineKind::Context, LineKind::Removed, LineKind::Context],
                }],
            )],
        ),
    ]);
    assert_eq!(analysis.files[0].line_count_at(150), 2);
    let frame = render_frame(&analysis, &args(1, 2, 1, Mode::HotCold), 150);
    assert_eq!(frame.cells, vec![Cell::Background, Cell::Heat(1)]);
    let warmed = frame.cells.iter().filter(|c| matches!(c, Cell::Heat(_))).count();
    assert_eq!(warmed, 1);
}

#[test]
fn a_dead_file_leaves_every_later_frame() {
    // a.txt is born at t=0 and deleted at t=500; b.txt lives on. Before
    // t=500 a.txt owns a column (its edited line shows its committer);
    // from t=500 on no frame shows it.
    let history = vec![
        commit(0, "alice", vec![add("a.txt", 1), add("b.txt", 2)]),
        commit(
            10,
            "bob",
            vec![modify(
                "a.txt",
                1,
                vec![HunkInput { new_start: 1, lines: vec![LineKind::Added] }],
            )],
        ),
        commit(500, "carol", vec![DiffEvent::Deleted { path: "a.txt".to_string() }]),
    ];
    let analysis = analyze(history);
    let cfg = args(2, 2, 1, Mode::Committer);

    // In every frame before the deletion, a.txt's column shows bob.
    for t in [0i64, 10, 250, 499] {
        let frame = render_frame(&analysis, &cfg, t);
        if t >= 10 {
            assert_eq!(frame.cells[0], Cell::Committer(1), "at time {}", t);
        }
        assert!(frame.cells.len() == 4);
    }
    // From the deletion on, no cell traces back to a.txt.
    for t in [500i64, 501, 100_000] {
        let frame = render_frame(&analysis, &cfg, t);
        assert!(
            frame.cells.iter().all(|c| *c == Cell::Background),
            "a.txt still visible at time {}",
            t
        );
    }
}

#[test]
fn columns_partition_the_width_evenly() {
    // Three live files, ten pixels wide: columns 0-3 belong to the
    // first file, 4-6 to the second, 7-9 to the third.
    let analysis = analyze(vec![
        commit(0, "alice", vec![add("a.txt", 1)]),
        commit(
            1,
            "bob",
            vec![
                add("b.txt", 1),
                modify("a.txt", 1, vec![HunkInput { new_start: 1, lines: vec![LineKind::Added] }]),
            ],
        ),
        commit(
            2,
            "carol",
            vec![
                add("c.txt", 1),
                modify("b.txt", 1, vec![HunkInput { new_start: 1, lines: vec![LineKind::Added] }]),
                modify("c.txt", 1, vec![HunkInput { new_start: 1, lines: vec![LineKind::Added] }]),
            ],
        ),
    ]);
    let frame = render_frame(&analysis, &args(10, 1, 1, Mode::Committer), 2);
    assert_eq!(frame.cells.len(), 10);
    // x*3/10 maps pixels 0-3 to the first file, 4-6 to the second and
    // 7-9 to the third; a.txt was last touched by bob (id 1), b.txt and
    // c.txt by carol (id 2).
    for x in 0..4 {
        assert_eq!(frame.cells[x], Cell::Committer(1), "column {}", x);
    }
    for x in 4..10 {
        assert_eq!(frame.cells[x], Cell::Committer(2), "column {}", x);
    }
}

#[test]
fn active_commit_time_is_the_latest_at_or_before() {
    let commits = vec![0i64, 100, 200];
    assert_eq!(active_commit_time(&commits, -5, 0), 0);
    assert_eq!(active_commit_time(&commits, 0, 0), 0);
    assert_eq!(active_commit_time(&commits, 99, 0), 0);
    assert_eq!(active_commit_time(&commits, 100, 0), 100);
    assert_eq!(active_commit_time(&commits, 150, 0), 100);
    assert_eq!(active_commit_time(&commits, 5000, 0), 200);
    assert_eq!(active_commit_time(&Vec::new(), 42, 7), 7);
}

#[test]
fn one_frame_per_minute_inclusive() {
    let analysis = analyze(vec![
        commit(0, "alice", vec![add("a.txt", 1)]),
        commit(600, "alice", vec![modify("a.txt", 2, vec![])]),
    ]);
    assert_eq!(frame_count(&analysis), 11);
    assert_eq!(frame_time(&analysis, 0), 0);
    assert_eq!(frame_time(&analysis, 10), 600);
    assert_eq!(window_seconds(30), 30 * 86400);
}

#[test]
fn the_longest_window_still_counts_in_seconds() {
    assert_eq!(window_seconds(0), 0);
    assert_eq!(
        window_seconds(gitlapse::renderer::MAX_WINDOW_DAYS),
        9_223_372_036_828_800
    );
}

#[test]
fn painting_maps_cells_through_the_tables() {
    let heat_table: Vec<(u8, u8, u8)> =
        (0..11).map(|i| (i as u8, 10 + i as u8, 20 + i as u8)).collect();
    let committer_colors = vec![(200u8, 201u8, 202u8)];
    let background = (8u8, 8u8, 12u8);
    let frame = Frame {
        width: 5,
        height: 1,
        cells: vec![
            Cell::Background,
            Cell::Heat(1),
            Cell::Heat(12),
            Cell::Committer(0),
            Cell::Committer(5),
        ],
    };
    let buf = paint_frame(&frame, &heat_table, &committer_colors, background);
    assert_eq!(buf.len(), 15);
    // Background, heat 1, heat clamped to the hottest stop, a known
    // committer, and an unknown committer falling back to background.
    assert_eq!(&buf[0..3], &[8, 8, 12]);
    assert_eq!(&buf[3..6], &[1, 11, 21]);
    assert_eq!(&buf[6..9], &[10, 20, 30]);
    assert_eq!(&buf[9..12], &[200, 201, 202]);
    assert_eq!(&buf[12..15], &[8, 8, 12]);
}

#[test]
fn rerendering_is_pixel_identical() {
    let history = || {
        vec![
            commit(0, "alice", vec![add("a.txt", 3)]),
            commit(
                120,
                "bob",
                vec![modify(
                    "a.txt",
                    2,
                    vec![HunkInput {
                        new_start: 1,
                        lines: vec![LineKind::Context, LineKind::Removed, LineKind::Context],
                    }],
                )],
            ),
        ]
    };
    let heat_table: Vec<(u8, u8, u8)> = (0..11).map(|i| (i as u8, i as u8, i as u8)).collect();
    let colors = vec![(1u8, 2u8, 3u8), (4u8, 5u8, 6u8)];
    let bg = (8u8, 8u8, 12u8);
    let cfg = args(16, 9, 30, Mode::HotCold);

    let a1 = analyze(history());
    let a2 = analyze(history());
    for i in 0..frame_count(&a1) {
        let t1 = frame_time(&a1, i);
        let t2 = frame_time(&a2, i);
        assert_eq!(t1, t2);
        let b1 = paint_frame(&render_frame(&a1, &cfg, t1), &heat_table, &colors, bg);
        let b2 = paint_frame(&render_frame(&a2, &cfg, t2), &heat_table, &colors, bg);
        assert_eq!(b1, b2, "frame {} differs between runs", i);
    }
}

#[test]
fn an_empty_model_renders_pure_background() {
    let analysis = analyze(vec![]);
    let frame = render_frame(&analysis, &args(4, 3, 1, Mode::HotCold), 0);
    assert_eq!(frame.cells.len(), 12);
    assert!(frame.cells.iter().all(|c| *c == Cell::Background));
}

#[test]
fn rows_beyond_a_files_line_count_are_background() {
    // Two files: one 4 lines tall, one 1 line tall, both edited. The
    // short file's column is blank below its single line.
    let analysis = analyze(vec![
        commit(0, "alice", vec![add("tall.txt", 4), add("short.txt", 1)]),
        commit(
            10,
            "bob",
            vec![
                modify(
                    "tall.txt",
                    4,
                    vec![HunkInput {
                        new_start: 1,
                        lines: vec![
                            LineKind::Added,
                            LineKind::Added,
                            LineKind::Added,
                            LineKind::Added,
                        ],
                    }],
                ),
                modify(
                    "short.txt",
                    1,
                    vec![HunkInput { new_start: 1, lines: vec![LineKind::Added] }],
                ),
            ],
        ),
    ]);
    let frame = render_frame(&analysis, &args(2, 4, 1, Mode::HotCold), 10);
    // Row-major, two columns: the tall file is warm in all four rows,
    // the short one only in the top row.
    assert_eq!(frame.cells[0], Cell::Heat(1));
    assert_eq!(frame.cells[1], Cell::Heat(1));
    for y in 1..4 {
        assert_eq!(frame.cells[y * 2], Cell::Heat(1), "tall row {}", y);
        assert_eq!(frame.cells[y * 2 + 1], Cell::Background, "short row {}", y);
    }
}
