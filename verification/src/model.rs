//! The immutable data model produced by the history analyzer and read by
//! the frame renderer.

use vstd::prelude::*;

verus! {

/// One recorded edit to a line: the commit's timestamp paired with the
/// dense id of the committer who made it.
#[derive(Debug, Clone, Copy, PartialEq, Eq, Structural)]
pub struct LineChange {
    pub timestamp: i64,
    pub committer_id: usize,
}

/// One logical file across its whole lifetime. The identity survives
/// renames; only `path` changes then.
#[derive(Debug, Clone)]
pub struct FileInfo {
    /// Stable identity, assigned at creation and never reused.
    pub id: usize,
    /// Most recent known path.
    pub path: String,
    /// Timestamp of the commit that introduced the file.
    pub birth_time: i64,
    /// Timestamp of the commit that removed it; `None` while alive.
    pub death_time: Option<i64>,
    /// Line count as of each commit that touched the file, in commit order:
    /// a step function from timestamp to line count.
    pub line_counts: Vec<(i64, usize)>,
}

/// The count recorded by the latest entry of `counts` whose timestamp is
/// at most `t`, scanning from the most recent entry backwards; `0` when no
/// entry is that old.
pub open spec fn spec_latest_count(counts: Seq<(i64, usize)>, t: i64) -> usize
    decreases counts.len(),
{
    if counts.len() == 0 {
        0
    } else if counts.last().0 <= t {
        counts.last().1
    } else {
        spec_latest_count(counts.drop_last(), t)
    }
}

/// Timestamps strictly increase along `counts`, so it denotes a step
/// function of time.
pub open spec fn counts_sorted(counts: Seq<(i64, usize)>) -> bool {
    forall|i: int, j: int| 0 <= i < j < counts.len() ==> counts[i].0 < counts[j].0
}

impl FileInfo {
    /// A well-formed record keeps its line counts in strictly increasing
    /// time order and is born no later than it dies.
    pub open spec fn wf(self) -> bool {
        &&& counts_sorted(self.line_counts@)
        &&& forall|i: int|
            0 <= i < self.line_counts@.len() ==> self.birth_time <= #[trigger] self.line_counts@[i].0
    }

    /// The file's line count as of time `t`: the count recorded by the
    /// latest commit at or before `t`, never interpolated.
    pub fn line_count_at(&self, t: i64) -> (count: usize)
        ensures
            count == spec_latest_count(self.line_counts@, t),
    {
        let mut j: usize = self.line_counts.len();
        proof {
            assert(self.line_counts@.take(j as int) =~= self.line_counts@);
        }
        while j > 0
            invariant
                j <= self.line_counts.len(),
                spec_latest_count(self.line_counts@, t) == spec_latest_count(
                    self.line_counts@.take(j as int),
                    t,
                ),
            decreases j,
        {
            let (ts, c) = self.line_counts[j - 1];
            if ts <= t {
                proof {
                    assert(self.line_counts@.take(j as int).last() == (ts, c));
                }
                return c;
            }
            proof {
                assert(self.line_counts@.take(j as int).drop_last() =~= self.line_counts@.take(
                    j as int - 1,
                ));
            }
            j = j - 1;
        }
        0
    }
}

/// The recorded edit history of one line of one file identity.
#[derive(Debug, Clone)]
pub struct ChangeEntry {
    pub file_id: usize,
    pub line: usize,
    pub history: Vec<LineChange>,
}

/// The line provenance map: for each (file identity, 1-based line number)
/// pair, the history of edits recorded for it, in the order the commits
/// were processed. Pairs never touched have an empty history.
#[derive(Debug, Clone)]
pub struct ChangeMap {
    pub entries: Vec<ChangeEntry>,
}

/// The mathematical reading of an entry list: a total map from (file
/// identity, line number) to history, empty for pairs without an entry.
pub open spec fn change_map_view(entries: Seq<ChangeEntry>) -> Map<(int, int), Seq<LineChange>>
    decreases entries.len(),
{
    if entries.len() == 0 {
        Map::new(|k: (int, int)| true, |k: (int, int)| Seq::<LineChange>::empty())
    } else {
        change_map_view(entries.drop_last()).insert(
            (entries.last().file_id as int, entries.last().line as int),
            entries.last().history@,
        )
    }
}

impl View for ChangeMap {
    type V = Map<(int, int), Seq<LineChange>>;

    open spec fn view(&self) -> Map<(int, int), Seq<LineChange>> {
        change_map_view(self.entries@)
    }
}

/// No two entries are for the same (file identity, line number) pair.
pub open spec fn change_entries_distinct(entries: Seq<ChangeEntry>) -> bool {
    forall|i: int, j: int|
        0 <= i < j < entries.len() ==> !(entries[i].file_id == entries[j].file_id
            && entries[i].line == entries[j].line)
}

/// A pair without an entry reads as the empty history.
proof fn lemma_change_view_absent(entries: Seq<ChangeEntry>, f: int, l: int)
    requires
        forall|i: int|
            0 <= i < entries.len() ==> !(entries[i].file_id == f && entries[i].line == l),
    ensures
        change_map_view(entries)[(f, l)] == Seq::<LineChange>::empty(),
    decreases entries.len(),
{
    if entries.len() > 0 {
        assert(forall|i: int|
            0 <= i < entries.drop_last().len() ==> entries.drop_last()[i] == entries[i]);
        lemma_change_view_absent(entries.drop_last(), f, l);
    }
}

/// A pair with an entry reads as that entry's history.
proof fn lemma_change_view_entry(entries: Seq<ChangeEntry>, i: int)
    requires
        change_entries_distinct(entries),
        0 <= i < entries.len(),
    ensures
        change_map_view(entries)[(entries[i].file_id as int, entries[i].line as int)]
            == entries[i].history@,
    decreases entries.len(),
{
    if i < entries.len() - 1 {
        assert(entries.drop_last()[i] == entries[i]);
        lemma_change_view_entry(entries.drop_last(), i);
    }
}

/// Replacing the history of the entry at `i` reads as a map update at its
/// own pair and leaves every other pair unchanged.
proof fn lemma_change_view_update(entries: Seq<ChangeEntry>, i: int, e: ChangeEntry)
    requires
        change_entries_distinct(entries),
        0 <= i < entries.len(),
        e.file_id == entries[i].file_id,
        e.line == entries[i].line,
    ensures
        change_map_view(entries.update(i, e)) == change_map_view(entries).insert(
            (e.file_id as int, e.line as int),
            e.history@,
        ),
    decreases entries.len(),
{
    let k = (e.file_id as int, e.line as int);
    if i == entries.len() - 1 {
        assert(entries.update(i, e).drop_last() =~= entries.drop_last());
        assert(entries.update(i, e).last() == e);
        assert(change_map_view(entries.update(i, e)) =~= change_map_view(entries).insert(
            k,
            e.history@,
        ));
    } else {
        let last = entries.last();
        assert(entries.update(i, e).drop_last() =~= entries.drop_last().update(i, e));
        assert(entries.update(i, e).last() == last);
        assert(forall|a: int, b: int|
            0 <= a < b < entries.drop_last().len() ==> entries.drop_last()[a] == entries[a]
                && entries.drop_last()[b] == entries[b]);
        lemma_change_view_update(entries.drop_last(), i, e);
        // The final inserted pair differs from `k`, so the two inserts commute.
        assert(!(last.file_id == entries[i].file_id && last.line == entries[i].line));
        assert(change_map_view(entries.update(i, e)) =~= change_map_view(entries).insert(
            k,
            e.history@,
        ));
    }
}

/// Change records of one line sit in chronological order.
pub open spec fn history_sorted(h: Seq<LineChange>) -> bool {
    forall|a: int, b: int| 0 <= a < b < h.len() ==> h[a].timestamp <= h[b].timestamp
}

/// Every change record of one line names a registered committer.
pub open spec fn history_bounded(h: Seq<LineChange>, n: int) -> bool {
    forall|a: int| 0 <= a < h.len() ==> (#[trigger] h[a]).committer_id < n
}

/// Every change record of one line is stamped at or before `t`.
pub open spec fn history_le(h: Seq<LineChange>, t: i64) -> bool {
    forall|a: int| 0 <= a < h.len() ==> (#[trigger] h[a]).timestamp <= t
}

/// How many of the changes in `h` carry a timestamp inside the closed
/// window `[a, b]`.
pub open spec fn spec_heat(h: Seq<LineChange>, a: i64, b: i64) -> nat
    decreases h.len(),
{
    if h.len() == 0 {
        0
    } else {
        spec_heat(h.drop_last(), a, b) + (if a <= h.last().timestamp <= b {
            1nat
        } else {
            0nat
        })
    }
}

/// The committer of the latest change in `h` stamped at or before `t`,
/// scanning from the most recent record backwards; `None` when every
/// record is later than `t`.
pub open spec fn spec_last_committer(h: Seq<LineChange>, t: i64) -> Option<usize>
    decreases h.len(),
{
    if h.len() == 0 {
        None
    } else if h.last().timestamp <= t {
        Some(h.last().committer_id)
    } else {
        spec_last_committer(h.drop_last(), t)
    }
}

impl ChangeMap {
    /// Every (file, line) pair has at most one entry.
    pub open spec fn wf(self) -> bool {
        change_entries_distinct(self.entries@)
    }

    /// The history recorded for a (file, line) pair; empty when the pair
    /// was never touched.
    pub open spec fn spec_history(self, file_id: int, line: int) -> Seq<LineChange> {
        self@[(file_id, line)]
    }

    /// The heat of a line: how many of its recorded changes fall inside
    /// the closed window `[window_start, end]`. A pair with no history has
    /// heat zero.
    pub fn heat_count(&self, file_id: usize, line: usize, window_start: i64, end: i64) -> (heat:
        usize)
        requires
            self.wf(),
        ensures
            heat == spec_heat(self.spec_history(file_id as int, line as int), window_start, end),
    {
        let ghost hist = self.spec_history(file_id as int, line as int);
        match self.find(file_id, line) {
            None => {
                proof {
                    lemma_change_view_absent(self.entries@, file_id as int, line as int);
                }
                0
            },
            Some(i) => {
                proof {
                    lemma_change_view_entry(self.entries@, i as int);
                }
                let h = &self.entries[i].history;
                let mut heat: usize = 0;
                let mut j: usize = 0;
                proof {
                    assert(h@.take(0) =~= Seq::<LineChange>::empty());
                }
                while j < h.len()
                    invariant
                        j <= h@.len(),
                        heat <= j,
                        heat == spec_heat(h@.take(j as int), window_start, end),
                    decreases h@.len() - j,
                {
                    let c = h[j];
                    proof {
                        assert(h@.take(j as int + 1).drop_last() =~= h@.take(j as int));
                        assert(h@.take(j as int + 1).last() == c);
                    }
                    if window_start <= c.timestamp && c.timestamp <= end {
                        heat = heat + 1;
                    }
                    j = j + 1;
                }
                proof {
                    assert(h@.take(j as int) =~= h@);
                }
                heat
            },
        }
    }

    /// The committer id selected in committer mode: the latest change of
    /// the line stamped at or before `t`, or `None` when the line has no
    /// history that old.
    pub fn last_committer_at(&self, file_id: usize, line: usize, t: i64) -> (r: Option<usize>)
        requires
            self.wf(),
        ensures
            r == spec_last_committer(self.spec_history(file_id as int, line as int), t),
    {
        match self.find(file_id, line) {
            None => {
                proof {
                    lemma_change_view_absent(self.entries@, file_id as int, line as int);
                }
                None
            },
            Some(i) => {
                proof {
                    lemma_change_view_entry(self.entries@, i as int);
                }
                let h = &self.entries[i].history;
                let mut j: usize = h.len();
                proof {
                    assert(h@.take(j as int) =~= h@);
                }
                while j > 0
                    invariant
                        j <= h@.len(),
                        self.spec_history(file_id as int, line as int) == h@,
                        spec_last_committer(h@, t) == spec_last_committer(h@.take(j as int), t),
                    decreases j,
                {
                    let c = h[j - 1];
                    proof {
                        assert(h@.take(j as int).last() == c);
                        assert(h@.take(j as int).drop_last() =~= h@.take(j as int - 1));
                    }
                    if c.timestamp <= t {
                        proof {
                            assert(h@.take(j as int).len() > 0);
                            assert(spec_last_committer(h@.take(j as int), t) == Some(
                                c.committer_id,
                            ));
                        }
                        return Some(c.committer_id);
                    }
                    j = j - 1;
                }
                None
            },
        }
    }

    /// An empty provenance map: every pair reads as the empty history.
    pub fn new() -> (r: ChangeMap)
        ensures
            r.wf(),
            r@ == Map::new(|k: (int, int)| true, |k: (int, int)| Seq::<LineChange>::empty()),
    {
        let r = ChangeMap { entries: Vec::new() };
        proof {
            assert(r@ =~= Map::new(
                |k: (int, int)| true,
                |k: (int, int)| Seq::<LineChange>::empty(),
            ));
        }
        r
    }

    /// The index of the entry for (`file_id`, `line`), if there is one.
    fn find(&self, file_id: usize, line: usize) -> (r: Option<usize>)
        ensures
            match r {
                Some(i) => i < self.entries@.len() && self.entries@[i as int].file_id == file_id
                    && self.entries@[i as int].line == line,
                None => forall|i: int|
                    0 <= i < self.entries@.len() ==> !(self.entries@[i].file_id == file_id
                        && self.entries@[i].line == line),
            },
    {
        let mut i: usize = 0;
        while i < self.entries.len()
            invariant
                i <= self.entries@.len(),
                forall|j: int|
                    0 <= j < i ==> !(self.entries@[j].file_id == file_id && self.entries@[j].line
                        == line),
            decreases self.entries@.len() - i,
        {
            if self.entries[i].file_id == file_id && self.entries[i].line == line {
                return Some(i);
            }
            i = i + 1;
        }
        None
    }

    /// Append one change record to the history of (`file_id`, `line`),
    /// creating the entry if the pair was never touched before.
    pub fn record(&mut self, file_id: usize, line: usize, c: LineChange)
        requires
            old(self).wf(),
        ensures
            final(self).wf(),
            final(self)@ == old(self)@.insert(
                (file_id as int, line as int),
                old(self)@[(file_id as int, line as int)].push(c),
            ),
    {
        let ghost k = (file_id as int, line as int);
        match self.find(file_id, line) {
            Some(i) => {
                proof {
                    lemma_change_view_entry(self.entries@, i as int);
                }
                let mut e = self.entries.remove(i);
                e.history.push(c);
                self.entries.insert(i, e);
                proof {
                    let e_new = self.entries@[i as int];
                    assert(self.entries@ =~= old(self).entries@.update(i as int, e_new));
                    lemma_change_view_update(old(self).entries@, i as int, e_new);
                }
            },
            None => {
                proof {
                    lemma_change_view_absent(self.entries@, k.0, k.1);
                    assert(old(self)@[k].push(c) =~= seq![c]);
                }
                let mut history = Vec::new();
                history.push(c);
                self.entries.push(ChangeEntry { file_id, line, history });
                proof {
                    assert(self.entries@.drop_last() =~= old(self).entries@);
                    assert(self.entries@.last().history@ =~= seq![c]);
                }
            },
        }
    }
}

/// The line count over time is a step function: queried at any time `t`,
/// `spec_latest_count` answers with the count recorded by the latest
/// commit at or before `t` — never an interpolation — and with zero when
/// no commit that old recorded a count. Here `i` names the position of
/// that latest commit.
pub proof fn lemma_latest_count_is_step(counts: Seq<(i64, usize)>, t: i64, i: int)
    requires
        counts_sorted(counts),
        0 <= i < counts.len(),
        counts[i].0 <= t,
        i == counts.len() - 1 || counts[i + 1].0 > t,
    ensures
        spec_latest_count(counts, t) == counts[i].1,
    decreases counts.len(),
{
    if counts.last().0 <= t {
        assert(i == counts.len() - 1);
    } else {
        assert(i < counts.len() - 1);
        assert(forall|j: int|
            0 <= j < counts.drop_last().len() ==> counts.drop_last()[j] == counts[j]);
        lemma_latest_count_is_step(counts.drop_last(), t, i);
    }
}

/// With no commit at or before `t`, the answered count is zero.
pub proof fn lemma_latest_count_before_birth(counts: Seq<(i64, usize)>, t: i64)
    requires
        forall|j: int| 0 <= j < counts.len() ==> (#[trigger] counts[j]).0 > t,
    ensures
        spec_latest_count(counts, t) == 0,
    decreases counts.len(),
{
    if counts.len() > 0 {
        assert(forall|j: int|
            0 <= j < counts.drop_last().len() ==> counts.drop_last()[j] == counts[j]);
        lemma_latest_count_before_birth(counts.drop_last(), t);
    }
}

/// The heat of a line over `[a, b]` is exactly the number of its
/// provenance entries stamped inside `[a, b]`.
pub proof fn lemma_heat_counts_window(h: Seq<LineChange>, a: i64, b: i64)
    ensures
        spec_heat(h, a, b) == h.filter(
            |c: LineChange| a <= c.timestamp && c.timestamp <= b,
        ).len(),
    decreases h.len(),
{
    reveal(Seq::filter);
    if h.len() > 0 {
        lemma_heat_counts_window(h.drop_last(), a, b);
    }
}

/// Widening the window can only raise the heat, never lower it: a
/// window starting earlier (`a_wide <= a`) counts at least every entry
/// the narrower one counts.
pub proof fn lemma_heat_window_monotone(h: Seq<LineChange>, a_wide: i64, a: i64, b: i64)
    requires
        a_wide <= a,
    ensures
        spec_heat(h, a, b) <= spec_heat(h, a_wide, b),
    decreases h.len(),
{
    if h.len() > 0 {
        lemma_heat_window_monotone(h.drop_last(), a_wide, a, b);
    }
}

/// The immutable aggregate produced by one analysis pass and read, never
/// written, by every rendering worker: all identity records, the full
/// provenance map, the committer registry in first-seen order, the first
/// and last commit timestamps, and the full ordered commit timestamp
/// list.
#[derive(Debug)]
pub struct AnalysisResult {
    pub files: Vec<FileInfo>,
    pub changes: ChangeMap,
    pub committers: Vec<String>,
    pub start_time: i64,
    pub end_time: i64,
    pub commits: Vec<i64>,
}

impl AnalysisResult {
    /// What the renderer relies on: identities are the positions of their
    /// records, every record is well formed, provenance keys are unique
    /// and chronological, and the commit list is the sorted timestamp
    /// stream bracketed by `start_time` and `end_time`.
    pub open spec fn wf(self) -> bool {
        &&& forall|i: int|
            0 <= i < self.files@.len() ==> (#[trigger] self.files@[i]).wf() && self.files@[i].id
                == i
        &&& self.changes.wf()
        &&& forall|k: (int, int)| history_sorted(#[trigger] self.changes@[k])
        &&& forall|i: int, j: int|
            0 <= i < j < self.committers@.len() ==> self.committers@[i]@ != self.committers@[j]@
        &&& forall|i: int, j: int|
            0 <= i < j < self.commits@.len() ==> self.commits@[i] <= self.commits@[j]
        &&& self.start_time <= self.end_time
        &&& self.commits@.len() > 0 ==> self.start_time == self.commits@[0] && self.end_time
            == self.commits@.last()
    }
}

} // verus!
