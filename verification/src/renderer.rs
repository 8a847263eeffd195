//! The frame renderer: for any simulated instant it decides, pixel by
//! pixel, whether a cell shows background, a heat count, or a committer
//! identity, and turns a decided frame into raw color bytes.
//!
//! Each frame is a pure function of the immutable analysis, the
//! configuration and its own timestamp, so frames can be produced in any
//! order, or in parallel, and always come out the same.

use crate::cli::{Args, Mode};
use crate::model::{
    spec_heat, spec_last_committer, spec_latest_count, AnalysisResult, FileInfo,
};
use vstd::arithmetic::div_mod::{lemma_multiply_divide_le, lemma_multiply_divide_lt};
use vstd::arithmetic::mul::{lemma_mul_inequality, lemma_mul_strict_inequality};
use vstd::prelude::*;

verus! {

/// What one pixel row of one file column shows at one instant.
#[derive(Debug, Clone, Copy, PartialEq, Eq, Structural)]
pub enum Cell {
    /// No file, no line, or no recorded history: the dark backdrop.
    Background,
    /// The line's heat: how many recorded changes fall inside the
    /// sliding window. Never zero; zero heat renders as background.
    Heat(usize),
    /// The dense id of the last committer to touch the line.
    Committer(usize),
}

/// One decided frame: `width * height` cells in row-major order.
#[derive(Debug, Clone)]
pub struct Frame {
    pub width: usize,
    pub height: usize,
    pub cells: Vec<Cell>,
}

/// The latest commit timestamp at or before `t`, scanning the sorted
/// commit list from its recent end; `fallback` when every commit is
/// later than `t`.
pub open spec fn spec_active_time(commits: Seq<i64>, t: i64, fallback: i64) -> i64
    decreases commits.len(),
{
    if commits.len() == 0 {
        fallback
    } else if commits.last() <= t {
        commits.last()
    } else {
        spec_active_time(commits.drop_last(), t, fallback)
    }
}

/// A file is visible at the active commit time: already born, and not
/// yet dead (death at exactly the active time hides it).
pub open spec fn spec_is_active(f: FileInfo, act: i64) -> bool {
    f.birth_time <= act && match f.death_time {
        Some(d) => d > act,
        None => true,
    }
}

/// The identities of the files visible at the active commit time, in
/// model order.
pub open spec fn spec_active_ids(files: Seq<FileInfo>, act: i64) -> Seq<int>
    decreases files.len(),
{
    if files.len() == 0 {
        Seq::<int>::empty()
    } else {
        let rest = spec_active_ids(files.drop_last(), act);
        if spec_is_active(files.last(), act) {
            rest.push(files.len() - 1)
        } else {
            rest
        }
    }
}

/// The tallest visible file's line count at the active commit time: it
/// sets the vertical scale of the frame.
pub open spec fn spec_max_lines(files: Seq<FileInfo>, ids: Seq<int>, act: i64) -> usize
    decreases ids.len(),
{
    if ids.len() == 0 {
        0
    } else {
        let rest = spec_max_lines(files, ids.drop_last(), act);
        let cand = spec_latest_count(files[ids.last()].line_counts@, act);
        if cand > rest {
            cand
        } else {
            rest
        }
    }
}

/// The seconds a window of `days` days spans.
pub open spec fn spec_window_seconds(days: u64) -> i64 {
    (days * 86400) as i64
}

/// The largest accepted sliding-window length: a window of this many
/// days still counts in signed 64-bit milliseconds, the range shared by
/// the usual duration types, so every window computation stays far from
/// overflow.
pub const MAX_WINDOW_DAYS: u64 = 106751991167;

/// What the pixel at column `x`, row `y` shows at simulated time `t`,
/// with `[ws, t]` the heat window: the pixel's column picks a visible
/// file by even partition of the width, its row picks a line by
/// proportional scaling of the height to the tallest visible file, and
/// the line's history decides the cell. Pixels past the file's own line
/// count, lines with no heat and lines with no history show background.
pub open spec fn spec_cell(
    a: AnalysisResult,
    mode: Mode,
    width: int,
    height: int,
    ws: i64,
    t: i64,
    x: int,
    y: int,
) -> Cell {
    let act = spec_active_time(a.commits@, t, a.start_time);
    let ids = spec_active_ids(a.files@, act);
    if ids.len() == 0 {
        Cell::Background
    } else {
        let fi = x * ids.len() / width;
        let f = a.files@[ids[fi]];
        let maxl = spec_max_lines(a.files@, ids, act);
        let line0 = y * maxl / height;
        if line0 >= spec_latest_count(f.line_counts@, act) {
            Cell::Background
        } else {
            let key = (f.id as int, line0 + 1);
            match mode {
                Mode::HotCold => {
                    let h = spec_heat(a.changes@[key], ws, t);
                    if h == 0 {
                        Cell::Background
                    } else {
                        Cell::Heat(h as usize)
                    }
                },
                Mode::Committer => match spec_last_committer(a.changes@[key], t) {
                    Some(c) => Cell::Committer(c),
                    None => Cell::Background,
                },
            }
        }
    }
}

/// The seconds a window of `days` days spans; callers keep `days`
/// within `MAX_WINDOW_DAYS` so the span fits a signed 64-bit count.
pub fn window_seconds(days: u64) -> (s: i64)
    requires
        days <= MAX_WINDOW_DAYS,
    ensures
        s == spec_window_seconds(days),
        0 <= s,
{
    (days * 86400) as i64
}

/// The latest commit timestamp at or before `t`; `fallback` when every
/// commit is later.
pub fn active_commit_time(commits: &Vec<i64>, t: i64, fallback: i64) -> (act: i64)
    ensures
        act == spec_active_time(commits@, t, fallback),
{
    let mut j: usize = commits.len();
    proof {
        assert(commits@.take(j as int) =~= commits@);
    }
    while j > 0
        invariant
            j <= commits@.len(),
            spec_active_time(commits@, t, fallback) == spec_active_time(
                commits@.take(j as int),
                t,
                fallback,
            ),
        decreases j,
    {
        let ts = commits[j - 1];
        if ts <= t {
            proof {
                assert(commits@.take(j as int).last() == ts);
            }
            return ts;
        }
        proof {
            assert(commits@.take(j as int).drop_last() =~= commits@.take(j as int - 1));
        }
        j = j - 1;
    }
    fallback
}

/// How many frames a run produces: one per simulated minute from the
/// first to the last commit timestamp, ends included.
pub fn frame_count(analysis: &AnalysisResult) -> (n: i64)
    requires
        analysis.wf(),
    ensures
        n == (analysis.end_time - analysis.start_time) / 60 + 1,
        1 <= n,
{
    let total_minutes = ((analysis.end_time as i128 - analysis.start_time as i128) / 60) as i64;
    proof {
        let d = analysis.end_time - analysis.start_time;
        lemma_multiply_divide_le(d, 60, 0x7fff_ffff_ffff_ffff);
    }
    total_minutes + 1
}

/// Decide one whole frame for simulated time `t`: every cell of the
/// `width * height` grid, in row-major order, exactly as `spec_cell`
/// reads it off the analysis.
#[verifier::loop_isolation(false)]
pub fn render_frame(analysis: &AnalysisResult, args: &Args, t: i64) -> (frame: Frame)
    requires
        analysis.wf(),
        1 <= args.width,
        1 <= args.height,
        args.width * args.height <= usize::MAX,
        args.window_days <= MAX_WINDOW_DAYS,
        i64::MIN + spec_window_seconds(args.window_days) <= t,
    ensures
        frame.width == args.width,
        frame.height == args.height,
        frame.cells@.len() == args.width * args.height,
        forall|x: int, y: int|
            #![trigger spec_cell(*analysis, args.mode, args.width as int, args.height as int, (t - spec_window_seconds(args.window_days)) as i64, t, x, y)]
            0 <= x < args.width && 0 <= y < args.height ==> frame.cells@[y * args.width + x]
                == spec_cell(
                *analysis,
                args.mode,
                args.width as int,
                args.height as int,
                (t - spec_window_seconds(args.window_days)) as i64,
                t,
                x,
                y,
            ),
{
    let w = args.width as usize;
    let h = args.height as usize;
    let ws = t - window_seconds(args.window_days);
    let act = active_commit_time(&analysis.commits, t, analysis.start_time);
    let ghost idsg = spec_active_ids(analysis.files@, act);

    // Select the visible files, in model order.
    let mut active_ids: Vec<usize> = Vec::new();
    let mut i: usize = 0;
    proof {
        assert(analysis.files@.take(0) =~= Seq::<FileInfo>::empty());
    }
    while i < analysis.files.len()
        invariant
            i <= analysis.files@.len(),
            active_ids@.map_values(|u: usize| u as int) == spec_active_ids(
                analysis.files@.take(i as int),
                act,
            ),
            forall|j: int| 0 <= j < active_ids@.len() ==> #[trigger] active_ids@[j] < i,
        decreases analysis.files@.len() - i,
    {
        let f = &analysis.files[i];
        let alive = f.birth_time <= act && match f.death_time {
            Some(d) => d > act,
            None => true,
        };
        proof {
            assert(analysis.files@.take(i as int + 1).drop_last() =~= analysis.files@.take(
                i as int,
            ));
            assert(analysis.files@.take(i as int + 1).last() == analysis.files@[i as int]);
            assert(alive == spec_is_active(analysis.files@[i as int], act));
        }
        if alive {
            active_ids.push(i);
            proof {
                assert(active_ids@.map_values(|u: usize| u as int) =~= spec_active_ids(
                    analysis.files@.take(i as int + 1),
                    act,
                ));
            }
        }
        i = i + 1;
    }
    proof {
        assert(analysis.files@.take(analysis.files@.len() as int) =~= analysis.files@);
        assert(active_ids@.map_values(|u: usize| u as int) == idsg);
        assert forall|j: int| 0 <= j < idsg.len() implies idsg[j] == active_ids@[j] as int by {
            assert(idsg[j] == active_ids@.map_values(|u: usize| u as int)[j]);
        }
    }
    let n = active_ids.len();

    // The vertical scale: the tallest visible file's line count.
    let mut maxl: usize = 0;
    let mut j: usize = 0;
    proof {
        assert(idsg.take(0) =~= Seq::<int>::empty());
    }
    while j < n
        invariant
            j <= n,
            maxl == spec_max_lines(analysis.files@, idsg.take(j as int), act),
        decreases n - j,
    {
        proof {
            assert(idsg.take(j as int + 1).drop_last() =~= idsg.take(j as int));
            assert(idsg.take(j as int + 1).last() == idsg[j as int]);
        }
        let fid = active_ids[j];
        let cand = analysis.files[fid].line_count_at(act);
        if cand > maxl {
            maxl = cand;
        }
        j = j + 1;
    }
    proof {
        assert(idsg.take(n as int) =~= idsg);
    }

    // Decide every pixel, row by row.
    let mut cells: Vec<Cell> = Vec::new();
    let mut y: usize = 0;
    while y < h
        invariant
            y <= h,
            cells@.len() == y * w,
            forall|x2: int, y2: int|
                #![trigger spec_cell(*analysis, args.mode, w as int, h as int, ws, t, x2, y2)]
                0 <= x2 < w && 0 <= y2 < y ==> cells@[y2 * w + x2] == spec_cell(
                    *analysis,
                    args.mode,
                    w as int,
                    h as int,
                    ws,
                    t,
                    x2,
                    y2,
                ),
        decreases h - y,
    {
        let mut x: usize = 0;
        while x < w
            invariant
                x <= w,
                cells@.len() == y * w + x,
                forall|x2: int, y2: int|
                    #![trigger spec_cell(*analysis, args.mode, w as int, h as int, ws, t, x2, y2)]
                    0 <= x2 < w && 0 <= y2 < y ==> cells@[y2 * w + x2] == spec_cell(
                        *analysis,
                        args.mode,
                        w as int,
                        h as int,
                        ws,
                        t,
                        x2,
                        y2,
                    ),
                forall|x2: int|
                    #![trigger spec_cell(*analysis, args.mode, w as int, h as int, ws, t, x2, y as int)]
                    0 <= x2 < x ==> cells@[y * w + x2] == spec_cell(
                        *analysis,
                        args.mode,
                        w as int,
                        h as int,
                        ws,
                        t,
                        x2,
                        y as int,
                    ),
            decreases w - x,
        {
            let cell: Cell = if n == 0 {
                Cell::Background
            } else {
                proof {
                    lemma_mul_strict_inequality(x as int, w as int, n as int);
                    lemma_multiply_divide_lt((x as int) * (n as int), w as int, n as int);
                    assert((x as int) * (n as int) < (w as int) * (n as int));
                    assert((x as int) * (n as int) / (w as int) < n as int);
                    assert((x as int) * (n as int) <= 0xffff_ffff * 0xffff_ffff_ffff_ffff)
                        by (nonlinear_arith)
                        requires
                            0 <= x < 0x1_0000_0000,
                            0 <= n <= 0xffff_ffff_ffff_ffff,
                    ;
                }
                let fi = (((x as u128) * (n as u128)) / (w as u128)) as usize;
                proof {
                    assert(fi == (x as int) * (n as int) / (w as int));
                    assert(idsg[fi as int] == active_ids@[fi as int]);
                }
                let fid = active_ids[fi];
                let f = &analysis.files[fid];
                let line0: usize = if maxl == 0 {
                    proof {
                        assert((y as int) * (maxl as int) == 0) by (nonlinear_arith)
                            requires
                                maxl == 0,
                        ;
                        vstd::arithmetic::div_mod::lemma_div_of0(h as int);
                    }
                    0
                } else {
                    proof {
                        lemma_mul_strict_inequality(y as int, h as int, maxl as int);
                        lemma_multiply_divide_lt((y as int) * (maxl as int), h as int, maxl as int);
                        assert((y as int) * (maxl as int) <= 0xffff_ffff * 0xffff_ffff_ffff_ffff)
                            by (nonlinear_arith)
                            requires
                                0 <= y < 0x1_0000_0000,
                                0 <= maxl <= 0xffff_ffff_ffff_ffff,
                        ;
                    }
                    (((y as u128) * (maxl as u128)) / (h as u128)) as usize
                };
                proof {
                    assert(line0 == (y as int) * (maxl as int) / (h as int));
                }
                let count = f.line_count_at(act);
                if line0 >= count {
                    Cell::Background
                } else {
                    match args.mode {
                        Mode::HotCold => {
                            let heat = analysis.changes.heat_count(f.id, line0 + 1, ws, t);
                            if heat == 0 {
                                Cell::Background
                            } else {
                                Cell::Heat(heat)
                            }
                        },
                        Mode::Committer => {
                            match analysis.changes.last_committer_at(f.id, line0 + 1, t) {
                                Some(c) => Cell::Committer(c),
                                None => Cell::Background,
                            }
                        },
                    }
                }
            };
            proof {
                assert(cell == spec_cell(
                    *analysis,
                    args.mode,
                    w as int,
                    h as int,
                    ws,
                    t,
                    x as int,
                    y as int,
                ));
            }
            cells.push(cell);
            proof {
                assert forall|x2: int, y2: int|
                    #![trigger spec_cell(*analysis, args.mode, w as int, h as int, ws, t, x2, y2)]
                    0 <= x2 < w && 0 <= y2 < y implies cells@[y2 * w + x2] == spec_cell(
                    *analysis,
                    args.mode,
                    w as int,
                    h as int,
                    ws,
                    t,
                    x2,
                    y2,
                ) by {
                    assert(y2 * (w as int) + x2 < (y as int) * (w as int)) by (nonlinear_arith)
                        requires
                            0 <= x2 < w as int,
                            0 <= y2,
                            y2 < y as int,
                    ;
                }
            }
            x = x + 1;
        }
        y = y + 1;
        proof {
            assert(cells@.len() == (y - 1) * w + w);
            assert((y - 1) * w + w == y * w) by (nonlinear_arith);
        }
    }
    proof {
        assert((h as int) * (w as int) == (w as int) * (h as int)) by (nonlinear_arith);
    }
    Frame { width: w, height: h, cells }
}

/// The color a cell shows, given the sampled heat gradient (one color
/// per heat count, the last one for every count of ten or more), the
/// per-committer color table, and the background color. A committer id
/// outside the table falls back to background.
pub open spec fn spec_color(
    c: Cell,
    heat_table: Seq<(u8, u8, u8)>,
    committer_colors: Seq<(u8, u8, u8)>,
    background: (u8, u8, u8),
) -> (u8, u8, u8) {
    match c {
        Cell::Background => background,
        Cell::Heat(heat) => if heat < 10 {
            heat_table[heat as int]
        } else {
            heat_table[10]
        },
        Cell::Committer(id) => if id < committer_colors.len() {
            committer_colors[id as int]
        } else {
            background
        },
    }
}

/// Turn a decided frame into raw bytes, three per pixel in row-major
/// order, through the given color tables. `heat_table` samples the heat
/// gradient at counts zero through ten; counts past ten clamp to its
/// hottest entry.
#[verifier::loop_isolation(false)]
pub fn paint_frame(
    frame: &Frame,
    heat_table: &Vec<(u8, u8, u8)>,
    committer_colors: &Vec<(u8, u8, u8)>,
    background: (u8, u8, u8),
) -> (buf: Vec<u8>)
    requires
        heat_table@.len() == 11,
        frame.cells@.len() * 3 <= usize::MAX,
    ensures
        buf@.len() == frame.cells@.len() * 3,
        forall|i: int|
            #![trigger frame.cells@[i]]
            0 <= i < frame.cells@.len() ==> {
                let c = spec_color(frame.cells@[i], heat_table@, committer_colors@, background);
                buf@[3 * i] == c.0 && buf@[3 * i + 1] == c.1 && buf@[3 * i + 2] == c.2
            },
{
    let mut buf: Vec<u8> = Vec::new();
    let mut i: usize = 0;
    while i < frame.cells.len()
        invariant
            i <= frame.cells@.len(),
            buf@.len() == 3 * i,
            forall|j: int|
                #![trigger frame.cells@[j]]
                0 <= j < i ==> {
                    let c = spec_color(
                        frame.cells@[j],
                        heat_table@,
                        committer_colors@,
                        background,
                    );
                    buf@[3 * j] == c.0 && buf@[3 * j + 1] == c.1 && buf@[3 * j + 2] == c.2
                },
        decreases frame.cells@.len() - i,
    {
        let (r, g, b): (u8, u8, u8) = match frame.cells[i] {
            Cell::Background => background,
            Cell::Heat(heat) => {
                if heat < 10 {
                    heat_table[heat]
                } else {
                    heat_table[10]
                }
            },
            Cell::Committer(id) => {
                if id < committer_colors.len() {
                    committer_colors[id]
                } else {
                    background
                }
            },
        };
        buf.push(r);
        buf.push(g);
        buf.push(b);
        i = i + 1;
    }
    buf
}

/// The simulated wall-clock time of frame `i`.
pub fn frame_time(analysis: &AnalysisResult, i: i64) -> (t: i64)
    requires
        analysis.wf(),
        0 <= i <= (analysis.end_time - analysis.start_time) / 60,
    ensures
        t == analysis.start_time + i * 60,
        analysis.start_time <= t <= analysis.end_time,
{
    proof {
        let d = analysis.end_time - analysis.start_time;
        vstd::arithmetic::div_mod::lemma_fundamental_div_mod(d, 60);
        lemma_mul_inequality(i as int, d / 60, 60);
    }
    ((analysis.start_time as i128) + (i as i128) * 60) as i64
}

} // verus!
