//! The history analyzer: folds an ordered stream of per-commit diff events
//! into the immutable model the renderer reads.
//!
//! Commits are sorted by timestamp (ties keep their incoming order) and
//! applied strictly oldest first. Every step of the fold is mirrored by a
//! mathematical transition function on an abstract state, and each
//! executable step is proved to land exactly on its transition.

use crate::model::{
    counts_sorted, history_bounded, history_le, history_sorted, spec_heat, spec_last_committer,
    AnalysisResult, ChangeMap, FileInfo, LineChange,
};
use crate::paths::PathMap;
use vstd::prelude::*;
use vstd::string::StringExecFns;

verus! {

/// What one line of a diff hunk did.
#[derive(Debug, Clone, Copy, PartialEq, Eq, Structural)]
pub enum LineKind {
    /// The line is unchanged; the cursor walks past it.
    Context,
    /// The line was inserted, at its post-edit number.
    Added,
    /// The line was removed, at its pre-edit number.
    Removed,
}

/// One contiguous block of line edits of a modified file, as the
/// version-control backend reports it: the 1-based output line number the
/// block starts at, and the kind of each walked line.
#[derive(Debug, Clone)]
pub struct HunkInput {
    pub new_start: usize,
    pub lines: Vec<LineKind>,
}

/// One per-path change reported by a commit's tree diff.
#[derive(Debug, Clone)]
pub enum DiffEvent {
    /// A file appeared, with its full line count at this commit.
    Added { path: String, line_count: usize },
    /// A file disappeared.
    Deleted { path: String },
    /// A file moved without losing its identity.
    Renamed { old_path: String, new_path: String },
    /// A file changed in place: its new full line count and its hunks.
    Modified { path: String, line_count: usize, hunks: Vec<HunkInput> },
}

/// One commit, ready to be folded into the state: its timestamp, its
/// author's display name (absent names get a fixed placeholder), and its
/// diff against the previously processed tree.
#[derive(Debug, Clone)]
pub struct CommitInput {
    pub timestamp: i64,
    pub author: Option<String>,
    pub events: Vec<DiffEvent>,
}

/// The hunk's line walk stays within addressable line numbers.
pub open spec fn hunk_wf(h: HunkInput) -> bool {
    h.new_start + h.lines@.len() <= usize::MAX
}

pub open spec fn event_wf(ev: DiffEvent) -> bool {
    match ev {
        DiffEvent::Modified { hunks, .. } => forall|i: int|
            0 <= i < hunks@.len() ==> hunk_wf(#[trigger] hunks@[i]),
        _ => true,
    }
}

pub open spec fn commit_wf(c: CommitInput) -> bool {
    forall|i: int| 0 <= i < c.events@.len() ==> event_wf(#[trigger] c.events@[i])
}

/// The abstract reading of one file identity record.
#[verifier::ext_equal]
pub struct FileModel {
    pub path: Seq<char>,
    pub birth_time: i64,
    pub death_time: Option<i64>,
    pub line_counts: Seq<(i64, usize)>,
}

/// The abstract reading of the whole analysis state: the path lookup, the
/// identity records in creation order (the identity is the position), the
/// provenance map and the committer registry in first-seen order.
#[verifier::ext_equal]
pub struct StateModel {
    pub path_map: Map<Seq<char>, int>,
    pub files: Seq<FileModel>,
    pub changes: Map<(int, int), Seq<LineChange>>,
    pub committers: Seq<Seq<char>>,
}

pub open spec fn file_view(f: FileInfo) -> FileModel {
    FileModel {
        path: f.path@,
        birth_time: f.birth_time,
        death_time: f.death_time,
        line_counts: f.line_counts@,
    }
}

pub open spec fn files_view(files: Seq<FileInfo>) -> Seq<FileModel> {
    files.map_values(|f: FileInfo| file_view(f))
}

pub open spec fn names_view(names: Seq<String>) -> Seq<Seq<char>> {
    names.map_values(|n: String| n@)
}

impl FileModel {
    /// A live record: at least one line count, counted at strictly
    /// increasing timestamps, none earlier than the birth.
    pub open spec fn inv(self) -> bool {
        &&& self.line_counts.len() > 0
        &&& counts_sorted(self.line_counts)
        &&& forall|i: int|
            0 <= i < self.line_counts.len() ==> self.birth_time <= #[trigger] self.line_counts[i].0
    }
}

impl StateModel {
    /// Internal coherence: tracked paths point at existing identities,
    /// every record is live, histories are chronological, and recorded
    /// committer ids are registered.
    pub open spec fn inv(self) -> bool {
        &&& forall|p: Seq<char>|
            self.path_map.dom().contains(p) ==> 0 <= #[trigger] self.path_map[p]
                < self.files.len()
        &&& forall|i: int| 0 <= i < self.files.len() ==> (#[trigger] self.files[i]).inv()
        &&& forall|k: (int, int)| history_sorted(#[trigger] self.changes[k])
        &&& forall|k: (int, int)|
            history_bounded(#[trigger] self.changes[k], self.committers.len() as int)
    }

    /// Every timestamp recorded so far is at most `t`: holds after
    /// processing commits up to time `t`, since commits arrive oldest
    /// first.
    pub open spec fn times_le(self, t: i64) -> bool {
        &&& forall|i: int, j: int|
            #![trigger self.files[i].line_counts[j]]
            0 <= i < self.files.len() && 0 <= j < self.files[i].line_counts.len()
                ==> self.files[i].line_counts[j].0 <= t
        &&& forall|k: (int, int)| history_le(#[trigger] self.changes[k], t)
    }
}

/// The state before any commit: nothing tracked, no identities, every
/// line history empty, nobody registered.
pub open spec fn m_init() -> StateModel {
    StateModel {
        path_map: Map::<Seq<char>, int>::empty(),
        files: Seq::<FileModel>::empty(),
        changes: Map::new(|k: (int, int)| true, |k: (int, int)| Seq::<LineChange>::empty()),
        committers: Seq::<Seq<char>>::empty(),
    }
}

/// Record a new line count for time `t`: commits share at most one count
/// per file, so a count already stamped `t` is replaced, a fresh stamp is
/// appended.
pub open spec fn m_counts_append(counts: Seq<(i64, usize)>, t: i64, lc: usize) -> Seq<
    (i64, usize),
> {
    if counts.len() > 0 && counts.last().0 == t {
        counts.update(counts.len() - 1, (t, lc))
    } else {
        counts.push((t, lc))
    }
}

/// A file appeared: assign the next identity, track its path, record its
/// birth and seed its line counts.
pub open spec fn m_add_file(s: StateModel, t: i64, path: Seq<char>, lc: usize) -> StateModel {
    StateModel {
        path_map: s.path_map.insert(path, s.files.len() as int),
        files: s.files.push(
            FileModel { path, birth_time: t, death_time: None, line_counts: seq![(t, lc)] },
        ),
        ..s
    }
}

/// A file disappeared: stop tracking the path and stamp the identity's
/// death; deleting an untracked path changes nothing, and a mapping to
/// an unknown identity is only untracked.
pub open spec fn m_delete_file(s: StateModel, t: i64, path: Seq<char>) -> StateModel {
    if s.path_map.dom().contains(path) {
        let id = s.path_map[path];
        let files = if 0 <= id < s.files.len() {
            s.files.update(id, FileModel { death_time: Some(t), ..s.files[id] })
        } else {
            s.files
        };
        StateModel { path_map: s.path_map.remove(path), files, ..s }
    } else {
        s
    }
}

/// A file moved: re-point the path lookup and update the record's path;
/// the identity and its provenance keys stay untouched.
pub open spec fn m_rename_file(s: StateModel, old_path: Seq<char>, new_path: Seq<char>) -> StateModel {
    if s.path_map.dom().contains(old_path) {
        let id = s.path_map[old_path];
        let files = if 0 <= id < s.files.len() {
            s.files.update(id, FileModel { path: new_path, ..s.files[id] })
        } else {
            s.files
        };
        StateModel { path_map: s.path_map.remove(old_path).insert(new_path, id), files, ..s }
    } else {
        s
    }
}

/// Walk one hunk's lines with a cursor starting at the hunk's output
/// start line: every inserted or removed line appends a change record at
/// the cursor; the cursor advances past every line except removed ones.
pub open spec fn m_record_lines(
    changes: Map<(int, int), Seq<LineChange>>,
    id: int,
    cursor: int,
    lines: Seq<LineKind>,
    t: i64,
    cid: usize,
) -> Map<(int, int), Seq<LineChange>>
    decreases lines.len(),
{
    if lines.len() == 0 {
        changes
    } else {
        let touched = if lines[0] is Context {
            changes
        } else {
            changes.insert(
                (id, cursor),
                changes[(id, cursor)].push(LineChange { timestamp: t, committer_id: cid }),
            )
        };
        let next = if lines[0] is Removed {
            cursor
        } else {
            cursor + 1
        };
        m_record_lines(touched, id, next, lines.drop_first(), t, cid)
    }
}

/// Apply every hunk of a modified file in order.
pub open spec fn m_apply_hunks(
    changes: Map<(int, int), Seq<LineChange>>,
    id: int,
    hunks: Seq<HunkInput>,
    t: i64,
    cid: usize,
) -> Map<(int, int), Seq<LineChange>>
    decreases hunks.len(),
{
    if hunks.len() == 0 {
        changes
    } else {
        m_apply_hunks(
            m_record_lines(changes, id, hunks[0].new_start as int, hunks[0].lines@, t, cid),
            id,
            hunks.drop_first(),
            t,
            cid,
        )
    }
}

/// A file changed in place: record its new line count and fold its hunks
/// into the provenance map; modifying an untracked path changes nothing.
pub open spec fn m_modify_file(
    s: StateModel,
    t: i64,
    cid: usize,
    path: Seq<char>,
    lc: usize,
    hunks: Seq<HunkInput>,
) -> StateModel {
    if s.path_map.dom().contains(path) && 0 <= s.path_map[path] < s.files.len() {
        let id = s.path_map[path];
        StateModel {
            files: s.files.update(
                id,
                FileModel {
                    line_counts: m_counts_append(s.files[id].line_counts, t, lc),
                    ..s.files[id]
                },
            ),
            changes: m_apply_hunks(s.changes, id, hunks, t, cid),
            ..s
        }
    } else {
        s
    }
}

/// One diff event, applied at commit time `t` on behalf of committer
/// `cid`.
pub open spec fn m_apply_event(s: StateModel, t: i64, cid: usize, ev: DiffEvent) -> StateModel {
    match ev {
        DiffEvent::Added { path, line_count } => m_add_file(s, t, path@, line_count),
        DiffEvent::Deleted { path } => m_delete_file(s, t, path@),
        DiffEvent::Renamed { old_path, new_path } => m_rename_file(s, old_path@, new_path@),
        DiffEvent::Modified { path, line_count, hunks } => m_modify_file(
            s,
            t,
            cid,
            path@,
            line_count,
            hunks@,
        ),
    }
}

pub open spec fn m_apply_events(
    s: StateModel,
    t: i64,
    cid: usize,
    events: Seq<DiffEvent>,
) -> StateModel
    decreases events.len(),
{
    if events.len() == 0 {
        s
    } else {
        m_apply_events(m_apply_event(s, t, cid, events[0]), t, cid, events.drop_first())
    }
}

/// The first index holding `n`, or the length when `n` is absent.
pub open spec fn find_name(names: Seq<Seq<char>>, n: Seq<char>) -> int
    decreases names.len(),
{
    if names.len() == 0 {
        0
    } else if names[0] == n {
        0
    } else {
        1 + find_name(names.drop_first(), n)
    }
}

/// Resolve a committer name to its dense id, registering it at the end of
/// the registry on first sight.
pub open spec fn m_register(names: Seq<Seq<char>>, n: Seq<char>) -> (Seq<Seq<char>>, int) {
    let i = find_name(names, n);
    if i < names.len() {
        (names, i)
    } else {
        (names.push(n), names.len() as int)
    }
}

/// The display name a commit is attributed to: the author's recorded
/// name, or a fixed placeholder when none was recorded.
pub open spec fn m_author_name(author: Option<String>) -> Seq<char> {
    match author {
        Some(n) => n@,
        None => "Unknown"@,
    }
}

/// One whole commit: resolve the committer once, then apply its diff
/// events in order.
pub open spec fn m_apply_commit(s: StateModel, c: CommitInput) -> StateModel {
    let reg = m_register(s.committers, m_author_name(c.author));
    let s1 = StateModel { committers: reg.0, ..s };
    m_apply_events(s1, c.timestamp, reg.1 as usize, c.events@)
}

pub open spec fn m_apply_commits(s: StateModel, commits: Seq<CommitInput>) -> StateModel
    decreases commits.len(),
{
    if commits.len() == 0 {
        s
    } else {
        m_apply_commits(m_apply_commit(s, commits[0]), commits.drop_first())
    }
}

/// How many add events one commit's diff carries.
pub open spec fn count_adds_events(events: Seq<DiffEvent>) -> int
    decreases events.len(),
{
    if events.len() == 0 {
        0
    } else {
        (if events[0] is Added {
            1int
        } else {
            0int
        }) + count_adds_events(events.drop_first())
    }
}

/// How many add events a whole commit stream carries.
pub open spec fn count_adds_commits(commits: Seq<CommitInput>) -> int
    decreases commits.len(),
{
    if commits.len() == 0 {
        0
    } else {
        count_adds_events(commits[0].events@) + count_adds_commits(commits.drop_first())
    }
}

proof fn lemma_count_adds_events_nonneg(events: Seq<DiffEvent>)
    ensures
        0 <= count_adds_events(events),
    decreases events.len(),
{
    if events.len() > 0 {
        lemma_count_adds_events_nonneg(events.drop_first());
    }
}

proof fn lemma_count_adds_commits_snoc(commits: Seq<CommitInput>, c: CommitInput)
    ensures
        count_adds_commits(commits.push(c)) == count_adds_commits(commits) + count_adds_events(
            c.events@,
        ),
    decreases commits.len(),
{
    if commits.len() == 0 {
        assert(commits.push(c)[0] == c);
        assert(commits.push(c).drop_first() =~= Seq::<CommitInput>::empty());
        assert(count_adds_commits(Seq::<CommitInput>::empty()) == 0);
        assert(count_adds_events(Seq::<DiffEvent>::empty()) == 0);
    } else {
        assert(commits.push(c)[0] == commits[0]);
        assert(commits.push(c).drop_first() =~= commits.drop_first().push(c));
        lemma_count_adds_commits_snoc(commits.drop_first(), c);
    }
}

/// One event creates exactly one identity when it is an add, none
/// otherwise.
proof fn lemma_apply_event_file_count(s: StateModel, t: i64, cid: usize, ev: DiffEvent)
    ensures
        m_apply_event(s, t, cid, ev).files.len() == s.files.len() + (if ev is Added {
            1int
        } else {
            0int
        }),
{
    match ev {
        DiffEvent::Added { path, line_count } => {
            assert(m_apply_event(s, t, cid, ev) == m_add_file(s, t, path@, line_count));
            assert(m_add_file(s, t, path@, line_count).files.len() == s.files.len() + 1);
        },
        DiffEvent::Deleted { path } => {
            assert(m_apply_event(s, t, cid, ev) == m_delete_file(s, t, path@));
            assert(m_delete_file(s, t, path@).files.len() == s.files.len());
        },
        DiffEvent::Renamed { old_path, new_path } => {
            assert(m_apply_event(s, t, cid, ev) == m_rename_file(s, old_path@, new_path@));
            assert(m_rename_file(s, old_path@, new_path@).files.len() == s.files.len());
        },
        DiffEvent::Modified { path, line_count, hunks } => {
            assert(m_apply_event(s, t, cid, ev) == m_modify_file(
                s,
                t,
                cid,
                path@,
                line_count,
                hunks@,
            ));
            assert(m_modify_file(s, t, cid, path@, line_count, hunks@).files.len()
                == s.files.len());
        },
    }
}

proof fn lemma_apply_events_file_count(s: StateModel, t: i64, cid: usize, events: Seq<DiffEvent>)
    ensures
        m_apply_events(s, t, cid, events).files.len() == s.files.len() + count_adds_events(events),
    decreases events.len(),
{
    if events.len() > 0 {
        lemma_apply_event_file_count(s, t, cid, events[0]);
        lemma_apply_events_file_count(
            m_apply_event(s, t, cid, events[0]),
            t,
            cid,
            events.drop_first(),
        );
    }
}

proof fn lemma_apply_commit_file_count(s: StateModel, c: CommitInput)
    ensures
        m_apply_commit(s, c).files.len() == s.files.len() + count_adds_events(c.events@),
{
    let reg = m_register(s.committers, m_author_name(c.author));
    lemma_apply_events_file_count(
        StateModel { committers: reg.0, ..s },
        c.timestamp,
        reg.1 as usize,
        c.events@,
    );
}

proof fn lemma_apply_commits_file_count(s: StateModel, commits: Seq<CommitInput>)
    ensures
        m_apply_commits(s, commits).files.len() == s.files.len() + count_adds_commits(commits),
    decreases commits.len(),
{
    if commits.len() > 0 {
        lemma_apply_commit_file_count(s, commits[0]);
        lemma_apply_commits_file_count(m_apply_commit(s, commits[0]), commits.drop_first());
    }
}

/// Folding one more commit at the end folds it onto the fold of the
/// rest.
proof fn lemma_apply_commits_snoc(s: StateModel, commits: Seq<CommitInput>, c: CommitInput)
    ensures
        m_apply_commits(s, commits.push(c)) == m_apply_commit(m_apply_commits(s, commits), c),
    decreases commits.len(),
{
    if commits.len() == 0 {
        assert(commits.push(c)[0] == c);
        assert(commits.push(c).drop_first() =~= Seq::<CommitInput>::empty());
        assert(m_apply_commits(m_apply_commit(s, c), Seq::<CommitInput>::empty())
            == m_apply_commit(s, c));
        assert(m_apply_commits(s, Seq::<CommitInput>::empty()) == s);
    } else {
        assert(commits.push(c)[0] == commits[0]);
        assert(commits.push(c).drop_first() =~= commits.drop_first().push(c));
        lemma_apply_commits_snoc(m_apply_commit(s, commits[0]), commits.drop_first(), c);
    }
}

proof fn lemma_insert_count_adds(c: CommitInput, s: Seq<CommitInput>)
    ensures
        count_adds_commits(spec_insert_by_time(c, s)) == count_adds_commits(s)
            + count_adds_events(c.events@),
    decreases s.len(),
{
    let r = spec_insert_by_time(c, s);
    if s.len() == 0 {
        assert(r[0] == c);
        assert(r.drop_first() =~= Seq::<CommitInput>::empty());
        assert(count_adds_commits(Seq::<CommitInput>::empty()) == 0);
    } else if c.timestamp < s[0].timestamp {
        assert(r[0] == c);
        assert(r.drop_first() =~= s);
    } else {
        assert(r[0] == s[0]);
        assert(r.drop_first() =~= spec_insert_by_time(c, s.drop_first()));
        lemma_insert_count_adds(c, s.drop_first());
    }
}

/// Sorting reorders the stream, so the add events observed are the same.
proof fn lemma_sort_count_adds(s: Seq<CommitInput>)
    ensures
        count_adds_commits(spec_sort_commits(s)) == count_adds_commits(s),
    decreases s.len(),
{
    if s.len() > 0 {
        lemma_sort_count_adds(s.drop_last());
        lemma_insert_count_adds(s.last(), spec_sort_commits(s.drop_last()));
        lemma_count_adds_commits_snoc(s.drop_last(), s.last());
        assert(s.drop_last().push(s.last()) =~= s);
    }
}

/// Identities only accumulate: across any commit stream, the number of
/// file identities created never decreases from one processed commit to
/// the next, and after the whole stream it equals the number of add
/// events observed in all per-commit diffs. The analyzer processes the
/// sorted stream, which observes exactly the incoming stream's adds.
pub proof fn lemma_identity_count(commits: Seq<CommitInput>)
    ensures
        m_apply_commits(m_init(), spec_sort_commits(commits)).files.len() == count_adds_commits(
            commits,
        ),
        forall|k: int|
            0 <= k < spec_sort_commits(commits).len()
                ==> #[trigger] m_apply_commits(
                m_init(),
                spec_sort_commits(commits).take(k),
            ).files.len() <= m_apply_commits(
                m_init(),
                spec_sort_commits(commits).take(k + 1),
            ).files.len(),
{
    let sorted = spec_sort_commits(commits);
    lemma_apply_commits_file_count(m_init(), sorted);
    lemma_sort_count_adds(commits);
    assert forall|k: int| 0 <= k < sorted.len() implies #[trigger] m_apply_commits(
        m_init(),
        sorted.take(k),
    ).files.len() <= m_apply_commits(m_init(), sorted.take(k + 1)).files.len() by {
        assert(sorted.take(k + 1) =~= sorted.take(k).push(sorted[k]));
        lemma_apply_commits_snoc(m_init(), sorted.take(k), sorted[k]);
        lemma_apply_commit_file_count(m_apply_commits(m_init(), sorted.take(k)), sorted[k]);
        lemma_count_adds_events_nonneg(sorted[k].events@);
    }
}

/// A rename never changes a file's identity or its provenance: applying
/// a rename leaves every identity record's birth, death and line counts
/// alone — only the tracked path moves — and the provenance map is
/// untouched, so every heat count and every committer-mode lookup
/// answers the same immediately before and after the rename.
pub proof fn lemma_rename_preserves_provenance(
    s: StateModel,
    old_path: Seq<char>,
    new_path: Seq<char>,
)
    ensures
        ({
            let r = m_rename_file(s, old_path, new_path);
            &&& r.changes == s.changes
            &&& r.files.len() == s.files.len()
            &&& r.committers == s.committers
            &&& forall|i: int|
                0 <= i < s.files.len() ==> (#[trigger] r.files[i]).birth_time
                    == s.files[i].birth_time && r.files[i].death_time == s.files[i].death_time
                    && r.files[i].line_counts == s.files[i].line_counts
            &&& forall|f: int, l: int, q: i64|
                #[trigger] spec_last_committer(r.changes[(f, l)], q) == spec_last_committer(
                    s.changes[(f, l)],
                    q,
                )
            &&& forall|f: int, l: int, a: i64, b: i64|
                #[trigger] spec_heat(r.changes[(f, l)], a, b) == spec_heat(s.changes[(f, l)], a, b)
        }),
{
    let r = m_rename_file(s, old_path, new_path);
    assert(r.changes == s.changes);
    if s.path_map.dom().contains(old_path) && 0 <= s.path_map[old_path] < s.files.len() {
        let id = s.path_map[old_path];
        assert(r.files == s.files.update(id, FileModel { path: new_path, ..s.files[id] }));
        assert forall|i: int|
            0 <= i < s.files.len() implies (#[trigger] r.files[i]).birth_time
            == s.files[i].birth_time && r.files[i].death_time == s.files[i].death_time
            && r.files[i].line_counts == s.files[i].line_counts by {
            assert(r.files[i] == s.files.update(
                id,
                FileModel { path: new_path, ..s.files[id] },
            )[i]);
            if i == id {
                assert(r.files[i] == FileModel { path: new_path, ..s.files[id] });
            } else {
                assert(r.files[i] == s.files[i]);
            }
        }
    }
}

/// Walking hunk lines at time `t` keeps every history chronological,
/// bounded by the registry and stamped at or before `t`.
proof fn lemma_record_lines_inv(
    changes: Map<(int, int), Seq<LineChange>>,
    id: int,
    cursor: int,
    lines: Seq<LineKind>,
    t: i64,
    cid: usize,
    n: int,
)
    requires
        cid < n,
        forall|k: (int, int)| history_sorted(#[trigger] changes[k]),
        forall|k: (int, int)| history_bounded(#[trigger] changes[k], n),
        forall|k: (int, int)| history_le(#[trigger] changes[k], t),
    ensures
        forall|k: (int, int)|
            history_sorted(#[trigger] m_record_lines(changes, id, cursor, lines, t, cid)[k]),
        forall|k: (int, int)|
            history_bounded(#[trigger] m_record_lines(changes, id, cursor, lines, t, cid)[k], n),
        forall|k: (int, int)|
            history_le(#[trigger] m_record_lines(changes, id, cursor, lines, t, cid)[k], t),
    decreases lines.len(),
{
    if lines.len() > 0 {
        let touched = if lines[0] is Context {
            changes
        } else {
            changes.insert(
                (id, cursor),
                changes[(id, cursor)].push(LineChange { timestamp: t, committer_id: cid }),
            )
        };
        let h = changes[(id, cursor)].push(LineChange { timestamp: t, committer_id: cid });
        assert(history_sorted(h));
        assert(history_bounded(h, n));
        assert(history_le(h, t));
        let next = if lines[0] is Removed {
            cursor
        } else {
            cursor + 1
        };
        assert forall|k: (int, int)|
            history_sorted(#[trigger] touched[k]) && history_bounded(touched[k], n)
                && history_le(touched[k], t) by {
            if !(lines[0] is Context) && k == (id, cursor) {
                assert(touched[k] == h);
            } else {
                assert(touched[k] == changes[k]);
            }
        }
        lemma_record_lines_inv(touched, id, next, lines.drop_first(), t, cid, n);
        let whole = m_record_lines(changes, id, cursor, lines, t, cid);
        let rest = m_record_lines(touched, id, next, lines.drop_first(), t, cid);
        assert(whole == rest);
        assert forall|k: (int, int)|
            history_sorted(#[trigger] whole[k]) && history_bounded(whole[k], n) && history_le(
                whole[k],
                t,
            ) by {
            assert(whole[k] == rest[k]);
        }
    }
}

/// The same preservation, lifted over a whole list of hunks.
proof fn lemma_apply_hunks_inv(
    changes: Map<(int, int), Seq<LineChange>>,
    id: int,
    hunks: Seq<HunkInput>,
    t: i64,
    cid: usize,
    n: int,
)
    requires
        cid < n,
        forall|k: (int, int)| history_sorted(#[trigger] changes[k]),
        forall|k: (int, int)| history_bounded(#[trigger] changes[k], n),
        forall|k: (int, int)| history_le(#[trigger] changes[k], t),
    ensures
        forall|k: (int, int)|
            history_sorted(#[trigger] m_apply_hunks(changes, id, hunks, t, cid)[k]),
        forall|k: (int, int)|
            history_bounded(#[trigger] m_apply_hunks(changes, id, hunks, t, cid)[k], n),
        forall|k: (int, int)| history_le(#[trigger] m_apply_hunks(changes, id, hunks, t, cid)[k], t),
    decreases hunks.len(),
{
    if hunks.len() > 0 {
        lemma_record_lines_inv(
            changes,
            id,
            hunks[0].new_start as int,
            hunks[0].lines@,
            t,
            cid,
            n,
        );
        let after = m_record_lines(changes, id, hunks[0].new_start as int, hunks[0].lines@, t, cid);
        lemma_apply_hunks_inv(after, id, hunks.drop_first(), t, cid, n);
        let whole = m_apply_hunks(changes, id, hunks, t, cid);
        let rest = m_apply_hunks(after, id, hunks.drop_first(), t, cid);
        assert(whole == rest);
        assert forall|k: (int, int)|
            history_sorted(#[trigger] whole[k]) && history_bounded(whole[k], n) && history_le(
                whole[k],
                t,
            ) by {
            assert(whole[k] == rest[k]);
        }
    }
}

/// What `find_name` finds: the first index holding `n`, or the length.
proof fn lemma_find_name_props(names: Seq<Seq<char>>, n: Seq<char>)
    ensures
        0 <= find_name(names, n) <= names.len(),
        find_name(names, n) < names.len() ==> names[find_name(names, n)] == n,
        forall|j: int| 0 <= j < find_name(names, n) ==> names[j] != n,
        find_name(names, n) == names.len() ==> forall|j: int|
            0 <= j < names.len() ==> names[j] != n,
    decreases names.len(),
{
    if names.len() > 0 && names[0] != n {
        let df = names.drop_first();
        lemma_find_name_props(df, n);
        let f = find_name(names, n);
        assert(f == 1 + find_name(df, n));
        if find_name(df, n) < df.len() {
            assert(names[f] == df[f - 1]);
        }
        assert forall|j: int| 0 <= j < f implies names[j] != n by {
            if j >= 1 {
                assert(names[j] == df[j - 1]);
            }
        }
        if f == names.len() {
            assert forall|j: int| 0 <= j < names.len() implies names[j] != n by {
                if j >= 1 {
                    assert(names[j] == df[j - 1]);
                }
            }
        }
    }
}

/// The mutable state threaded through the forward pass over commits.
#[derive(Debug)]
pub struct AnalyzerState {
    /// Which identity currently occupies each tracked path.
    pub path_map: PathMap,
    /// Every identity record created so far; the identity is the index.
    pub files: Vec<FileInfo>,
    /// The identity the next added file will get.
    pub next_file_id: usize,
    /// The provenance map built so far.
    pub changes: ChangeMap,
    /// Committer display names in first-seen order; the id is the index.
    pub committers: Vec<String>,
}

impl View for AnalyzerState {
    type V = StateModel;

    open spec fn view(&self) -> StateModel {
        StateModel {
            path_map: self.path_map@,
            files: files_view(self.files@),
            changes: self.changes@,
            committers: names_view(self.committers@),
        }
    }
}

impl AnalyzerState {
    /// The executable state is coherent and its abstract reading
    /// satisfies the model invariant.
    pub open spec fn wf(self) -> bool {
        &&& self.path_map.wf()
        &&& self.changes.wf()
        &&& self.next_file_id == self.files@.len()
        &&& forall|i: int| 0 <= i < self.files@.len() ==> (#[trigger] self.files@[i]).id == i
        &&& forall|i: int, j: int|
            0 <= i < j < self.committers@.len() ==> self.committers@[i]@ != self.committers@[j]@
        &&& self@.inv()
    }

    /// The state before any commit has been processed.
    pub fn new() -> (s: AnalyzerState)
        ensures
            s.wf(),
            s@ == m_init(),
            forall|t: i64| s@.times_le(t),
    {
        let s = AnalyzerState {
            path_map: PathMap::new(),
            files: Vec::new(),
            next_file_id: 0,
            changes: ChangeMap::new(),
            committers: Vec::new(),
        };
        proof {
            assert(s@.files =~= m_init().files);
            assert(s@.committers =~= m_init().committers);
            assert(s@.changes =~= m_init().changes);
            assert(s@ =~= m_init());
        }
        s
    }
}

/// Resolve a committer display name to its dense id, appending it to the
/// registry the first time it is seen.
fn get_or_add_committer(names: &mut Vec<String>, name: String) -> (id: usize)
    requires
        forall|i: int, j: int|
            0 <= i < j < old(names)@.len() ==> old(names)@[i]@ != old(names)@[j]@,
    ensures
        forall|i: int, j: int|
            0 <= i < j < final(names)@.len() ==> final(names)@[i]@ != final(names)@[j]@,
        names_view(final(names)@) == m_register(names_view(old(names)@), name@).0,
        id as int == m_register(names_view(old(names)@), name@).1,
        id < final(names)@.len(),
        final(names)@[id as int]@ == name@,
{
    let ghost nv = names_view(old(names)@);
    proof {
        lemma_find_name_props(nv, name@);
    }
    let mut i: usize = 0;
    let n = names.len();
    while i < n
        invariant
            names@ == old(names)@,
            n == names@.len(),
            i <= n,
            nv == names_view(names@),
            forall|a: int, b: int| 0 <= a < b < names@.len() ==> names@[a]@ != names@[b]@,
            forall|j: int| 0 <= j < i ==> names@[j]@ != name@,
        decreases n - i,
    {
        if names[i] == name {
            proof {
                lemma_find_name_props(nv, name@);
                assert(nv[i as int] == name@);
                if find_name(nv, name@) < i {
                    assert(nv[find_name(nv, name@)] == name@);
                }
                assert(find_name(nv, name@) == i);
            }
            return i;
        }
        i = i + 1;
    }
    proof {
        lemma_find_name_props(nv, name@);
        if find_name(nv, name@) < nv.len() {
            assert(nv[find_name(nv, name@)] == name@);
        }
        assert(find_name(nv, name@) == nv.len());
    }
    names.push(name);
    proof {
        assert(names_view(names@) =~= nv.push(name@));
    }
    n
}

/// Walk one hunk, recording a change for every inserted or removed line
/// at the cursor's current line number.
fn apply_hunk(changes: &mut ChangeMap, file_id: usize, hunk: &HunkInput, t: i64, cid: usize)
    requires
        old(changes).wf(),
        hunk_wf(*hunk),
    ensures
        final(changes).wf(),
        final(changes)@ == m_record_lines(
            old(changes)@,
            file_id as int,
            hunk.new_start as int,
            hunk.lines@,
            t,
            cid,
        ),
{
    let ghost target = m_record_lines(
        old(changes)@,
        file_id as int,
        hunk.new_start as int,
        hunk.lines@,
        t,
        cid,
    );
    let mut cursor: usize = hunk.new_start;
    let mut li: usize = 0;
    proof {
        assert(hunk.lines@.skip(0) =~= hunk.lines@);
    }
    while li < hunk.lines.len()
        invariant
            changes.wf(),
            li <= hunk.lines@.len(),
            hunk.new_start + hunk.lines@.len() <= usize::MAX,
            cursor <= hunk.new_start + li,
            m_record_lines(
                changes@,
                file_id as int,
                cursor as int,
                hunk.lines@.skip(li as int),
                t,
                cid,
            ) == target,
        decreases hunk.lines@.len() - li,
    {
        let kind = hunk.lines[li];
        proof {
            assert(hunk.lines@.skip(li as int)[0] == kind);
            assert(hunk.lines@.skip(li as int).drop_first() =~= hunk.lines@.skip(li as int + 1));
        }
        match kind {
            LineKind::Context => {},
            _ => {
                changes.record(file_id, cursor, LineChange { timestamp: t, committer_id: cid });
            },
        }
        match kind {
            LineKind::Removed => {},
            _ => {
                cursor = cursor + 1;
            },
        }
        li = li + 1;
    }
    proof {
        assert(hunk.lines@.skip(li as int) =~= Seq::<LineKind>::empty());
    }
}

impl AnalyzerState {
    /// Apply one diff event of the commit at time `t`, attributed to
    /// committer `cid`: exactly the transition `m_apply_event` takes on
    /// the abstract state.
    pub fn apply_event(&mut self, t: i64, cid: usize, ev: DiffEvent)
        requires
            old(self).wf(),
            old(self)@.times_le(t),
            event_wf(ev),
            cid < old(self)@.committers.len(),
        ensures
            final(self).wf(),
            final(self)@ == m_apply_event(old(self)@, t, cid, ev),
            final(self)@.times_le(t),
            final(self).committers@ == old(self).committers@,
    {
        let ghost m0 = old(self)@;
        match ev {
            DiffEvent::Added { path, line_count } => {
                let ghost p = path@;
                let id = self.next_file_id;
                self.path_map.insert(path.clone(), id);
                let mut counts: Vec<(i64, usize)> = Vec::new();
                counts.push((t, line_count));
                self.files.push(
                    FileInfo { id, path, birth_time: t, death_time: None, line_counts: counts },
                );
                self.next_file_id = self.files.len();
                proof {
                    let nf = self.files@.last();
                    assert(counts@ =~= seq![(t, line_count)]);
                    assert(file_view(nf) == FileModel {
                        path: p,
                        birth_time: t,
                        death_time: None,
                        line_counts: seq![(t, line_count)],
                    });
                    assert(files_view(self.files@) =~= m0.files.push(file_view(nf)));
                    assert(self@ =~= m_add_file(m0, t, p, line_count));
                    assert(file_view(nf).inv());
                    assert(self@.inv());
                    assert(self@.times_le(t));
                }
            },
            DiffEvent::Deleted { path } => {
                let ghost p = path@;
                match self.path_map.remove(&path) {
                    Some(id) => {
                        proof {
                            assert(m0.path_map[p] == id as int);
                            assert((id as int) < m0.files.len());
                        }
                        let mut f = self.files.remove(id);
                        f.death_time = Some(t);
                        self.files.insert(id, f);
                        proof {
                            let fm = FileModel { death_time: Some(t), ..m0.files[id as int] };
                            assert(self.files@ =~= old(self).files@.update(
                                id as int,
                                self.files@[id as int],
                            ));
                            assert(file_view(self.files@[id as int]) == fm);
                            assert(files_view(self.files@) =~= m0.files.update(id as int, fm));
                            assert(self@ =~= m_delete_file(m0, t, p));
                            assert(fm.inv());
                            assert(self@.inv());
                            assert(self@.times_le(t));
                        }
                    },
                    None => {
                        proof {
                            assert(self@ =~= m0);
                        }
                    },
                }
            },
            DiffEvent::Renamed { old_path, new_path } => {
                let ghost po = old_path@;
                let ghost pn = new_path@;
                match self.path_map.remove(&old_path) {
                    Some(id) => {
                        proof {
                            assert(m0.path_map[po] == id as int);
                            assert((id as int) < m0.files.len());
                        }
                        self.path_map.insert(new_path.clone(), id);
                        let mut f = self.files.remove(id);
                        f.path = new_path;
                        self.files.insert(id, f);
                        proof {
                            let fm = FileModel { path: pn, ..m0.files[id as int] };
                            assert(self.files@ =~= old(self).files@.update(
                                id as int,
                                self.files@[id as int],
                            ));
                            assert(file_view(self.files@[id as int]) == fm);
                            assert(files_view(self.files@) =~= m0.files.update(id as int, fm));
                            assert(self@ =~= m_rename_file(m0, po, pn));
                            assert(fm.inv());
                            assert(self@.inv());
                            assert(self@.times_le(t));
                        }
                    },
                    None => {
                        proof {
                            assert(self@ =~= m0);
                        }
                    },
                }
            },
            DiffEvent::Modified { path, line_count, hunks } => {
                let ghost p = path@;
                match self.path_map.get(&path) {
                    Some(id) => {
                        proof {
                            assert(m0.path_map[p] == id as int);
                            assert((id as int) < m0.files.len());
                        }
                        let mut f = self.files.remove(id);
                        let ghost counts0 = f.line_counts@;
                        let n = f.line_counts.len();
                        if n > 0 {
                            let (lt, _) = f.line_counts[n - 1];
                            if lt == t {
                                f.line_counts.pop();
                            }
                        }
                        f.line_counts.push((t, line_count));
                        proof {
                            assert(f.line_counts@ =~= m_counts_append(counts0, t, line_count));
                        }
                        self.files.insert(id, f);
                        apply_hunks(&mut self.changes, id, &hunks, t, cid);
                        proof {
                            let fm = FileModel {
                                line_counts: m_counts_append(
                                    m0.files[id as int].line_counts,
                                    t,
                                    line_count,
                                ),
                                ..m0.files[id as int]
                            };
                            assert(self.files@ =~= old(self).files@.update(
                                id as int,
                                self.files@[id as int],
                            ));
                            assert(file_view(self.files@[id as int]) == fm);
                            assert(files_view(self.files@) =~= m0.files.update(id as int, fm));
                            assert(self@ =~= m_modify_file(m0, t, cid, p, line_count, hunks@));
                            // The appended count keeps the record live and ordered.
                            assert(m0.files[id as int].inv());
                            assert(m0.files[id as int].line_counts.last().0 <= t);
                            assert(fm.inv());
                            lemma_apply_hunks_inv(
                                m0.changes,
                                id as int,
                                hunks@,
                                t,
                                cid,
                                m0.committers.len() as int,
                            );
                            assert(self@.inv());
                            assert(self@.times_le(t));
                        }
                    },
                    None => {
                        proof {
                            assert(self@ =~= m0);
                        }
                    },
                }
            },
        }
    }
}

/// A bound on recorded timestamps weakens to any later bound.
proof fn lemma_times_le_mono(s: StateModel, t1: i64, t2: i64)
    requires
        s.times_le(t1),
        t1 <= t2,
    ensures
        s.times_le(t2),
{
}

impl AnalyzerState {
    /// Apply one whole commit: resolve the committer once from the
    /// author's display name, then apply the commit's diff events in
    /// order — exactly the transition `m_apply_commit` takes on the
    /// abstract state.
    pub fn apply_commit(&mut self, c: CommitInput)
        requires
            old(self).wf(),
            old(self)@.times_le(c.timestamp),
            commit_wf(c),
        ensures
            final(self).wf(),
            final(self)@ == m_apply_commit(old(self)@, c),
            final(self)@.times_le(c.timestamp),
    {
        let ghost m0 = old(self)@;
        let CommitInput { timestamp, author, events } = c;
        let name: String = match author {
            Some(n) => n,
            None => String::from_str("Unknown"),
        };
        proof {
            assert(name@ == m_author_name(c.author));
        }
        let cid = get_or_add_committer(&mut self.committers, name);
        let ghost reg = m_register(m0.committers, m_author_name(c.author));
        proof {
            assert(self@ =~= StateModel { committers: reg.0, ..m0 });
            assert(cid as int == reg.1);
            // The registry only grows, so recorded ids stay registered.
            assert(m0.committers.len() <= self@.committers.len());
            assert(self@.inv());
            assert(self@.times_le(timestamp));
        }
        let ghost s1 = self@;
        let mut events = events;
        let ghost target = m_apply_events(s1, timestamp, cid, c.events@);
        proof {
            assert(events@ == c.events@);
        }
        while events.len() > 0
            invariant
                self.wf(),
                self@.times_le(timestamp),
                cid < self@.committers.len(),
                forall|i: int| 0 <= i < events@.len() ==> event_wf(#[trigger] events@[i]),
                m_apply_events(self@, timestamp, cid, events@) == target,
            decreases events@.len(),
        {
            let ghost pre = events@;
            let e = events.remove(0);
            proof {
                assert(e == pre[0]);
                assert(events@ =~= pre.drop_first());
                assert forall|i: int| 0 <= i < events@.len() implies event_wf(
                    #[trigger] events@[i],
                ) by {
                    assert(events@[i] == pre[i + 1]);
                }
            }
            self.apply_event(timestamp, cid, e);
        }
        proof {
            assert(events@ =~= Seq::<DiffEvent>::empty());
            assert(m_apply_events(self@, timestamp, cid, events@) == self@);
        }
    }
}

/// Build the full analysis from the collected commit stream: sort the
/// commits by time, then fold each one, oldest first, into the state.
/// The result is pinned to the abstract fold `m_apply_commits` over the
/// sorted stream.
pub fn analyze(commits: Vec<CommitInput>) -> (r: AnalysisResult)
    requires
        forall|i: int| 0 <= i < commits@.len() ==> commit_wf(#[trigger] commits@[i]),
    ensures
        r.wf(),
        ({
            let m = m_apply_commits(m_init(), spec_sort_commits(commits@));
            &&& files_view(r.files@) == m.files
            &&& r.changes@ == m.changes
            &&& names_view(r.committers@) == m.committers
            &&& r.commits@ == spec_sort_commits(commits@).map_values(
                |c: CommitInput| c.timestamp,
            )
            &&& r.start_time == if commits@.len() > 0 {
                spec_sort_commits(commits@)[0].timestamp
            } else {
                0
            }
            &&& r.end_time == if commits@.len() > 0 {
                spec_sort_commits(commits@).last().timestamp
            } else {
                0
            }
            &&& r.files@.len() == count_adds_commits(commits@)
        }),
{
    let ghost orig = commits@;
    let sorted = sort_commits(commits);
    proof {
        lemma_sort_commits_len(orig);
        lemma_sort_commits_wf(orig);
    }
    let start_time: i64 = if sorted.len() > 0 {
        sorted[0].timestamp
    } else {
        0
    };
    let end_time: i64 = if sorted.len() > 0 {
        sorted[sorted.len() - 1].timestamp
    } else {
        0
    };
    let mut ts: Vec<i64> = Vec::new();
    let mut i: usize = 0;
    while i < sorted.len()
        invariant
            i <= sorted@.len(),
            ts@.len() == i,
            forall|j: int| 0 <= j < i ==> ts@[j] == sorted@[j].timestamp,
        decreases sorted@.len() - i,
    {
        ts.push(sorted[i].timestamp);
        i = i + 1;
    }
    proof {
        assert(ts@ =~= sorted@.map_values(|c: CommitInput| c.timestamp));
    }
    let mut st = AnalyzerState::new();
    let mut rem = sorted;
    let ghost sorted0 = rem@;
    let ghost target = m_apply_commits(m_init(), sorted0);
    proof {
        assert(sorted0.skip(0) =~= sorted0);
    }
    while rem.len() > 0
        invariant
            st.wf(),
            rem@.len() <= sorted0.len(),
            rem@ == sorted0.skip(sorted0.len() - rem@.len()),
            commits_sorted(sorted0),
            forall|j: int| 0 <= j < sorted0.len() ==> commit_wf(#[trigger] sorted0[j]),
            rem@.len() > 0 ==> st@.times_le(rem@[0].timestamp),
            m_apply_commits(st@, rem@) == target,
        decreases rem@.len(),
    {
        let ghost k = sorted0.len() - rem@.len();
        let ghost pre = rem@;
        let c = rem.remove(0);
        proof {
            assert(c == pre[0]);
            assert(pre[0] == sorted0[k]);
            assert(rem@ =~= sorted0.skip(k + 1));
            assert(commit_wf(c));
        }
        st.apply_commit(c);
        proof {
            if rem.len() > 0 {
                assert(rem@[0] == sorted0[k + 1]);
                assert(c.timestamp <= rem@[0].timestamp);
                lemma_times_le_mono(st@, c.timestamp, rem@[0].timestamp);
            }
        }
    }
    proof {
        assert(rem@ =~= Seq::<CommitInput>::empty());
        assert(m_apply_commits(st@, rem@) == st@);
    }
    let ghost mfin = st@;
    let ghost files0 = st.files@;
    let ghost names0 = st.committers@;
    let r = AnalysisResult {
        files: st.files,
        changes: st.changes,
        committers: st.committers,
        start_time,
        end_time,
        commits: ts,
    };
    proof {
        assert(r.files@ == files0);
        assert(r.committers@ == names0);
        assert(files_view(r.files@) == mfin.files);
        lemma_identity_count(orig);
        assert forall|j: int| 0 <= j < r.files@.len() implies (#[trigger] r.files@[j]).wf()
            && r.files@[j].id == j by {
            assert(mfin.files[j].inv());
            assert(files_view(r.files@)[j] == file_view(r.files@[j]));
        }
        assert forall|k: (int, int)| history_sorted(#[trigger] r.changes@[k]) by {
            assert(r.changes@[k] == mfin.changes[k]);
            assert(history_sorted(mfin.changes[k]));
        }
        assert forall|a: int, b: int| 0 <= a < b < r.commits@.len() implies r.commits@[a]
            <= r.commits@[b] by {
            assert(r.commits@[a] == sorted0[a].timestamp);
            assert(r.commits@[b] == sorted0[b].timestamp);
        }
        assert(r.wf());
    }
    r
}

/// The commit stream is in nondecreasing timestamp order.
pub open spec fn commits_sorted(s: Seq<CommitInput>) -> bool {
    forall|i: int, j: int| 0 <= i < j < s.len() ==> s[i].timestamp <= s[j].timestamp
}

/// Insert `c` into `s` just before the first commit with a strictly
/// later timestamp: commits sharing a timestamp keep their incoming
/// order, the documented tie-break.
pub open spec fn spec_insert_by_time(c: CommitInput, s: Seq<CommitInput>) -> Seq<CommitInput>
    decreases s.len(),
{
    if s.len() == 0 {
        seq![c]
    } else if c.timestamp < s[0].timestamp {
        seq![c] + s
    } else {
        seq![s[0]] + spec_insert_by_time(c, s.drop_first())
    }
}

/// The stable sort of the commit stream by timestamp: each commit is
/// inserted, in incoming order, after every commit with a timestamp at
/// most its own.
pub open spec fn spec_sort_commits(s: Seq<CommitInput>) -> Seq<CommitInput>
    decreases s.len(),
{
    if s.len() == 0 {
        Seq::<CommitInput>::empty()
    } else {
        spec_insert_by_time(s.last(), spec_sort_commits(s.drop_last()))
    }
}

/// Where the insertion lands: splitting `s` at the first index whose
/// timestamp is strictly later than `c`'s.
proof fn lemma_insert_by_time_shape(c: CommitInput, s: Seq<CommitInput>, k: int)
    requires
        0 <= k <= s.len(),
        forall|j: int| 0 <= j < k ==> s[j].timestamp <= c.timestamp,
        k < s.len() ==> s[k].timestamp > c.timestamp,
    ensures
        spec_insert_by_time(c, s) == s.take(k) + seq![c] + s.skip(k),
    decreases s.len(),
{
    if s.len() == 0 {
        assert(spec_insert_by_time(c, s) =~= s.take(k) + seq![c] + s.skip(k));
    } else if c.timestamp < s[0].timestamp {
        assert(k == 0);
        assert(seq![c] + s =~= s.take(0) + seq![c] + s.skip(0));
    } else {
        assert(k >= 1);
        let df = s.drop_first();
        assert(forall|j: int| 0 <= j < k - 1 ==> #[trigger] df[j].timestamp == s[j + 1].timestamp);
        lemma_insert_by_time_shape(c, df, k - 1);
        assert(seq![s[0]] + (df.take(k - 1) + seq![c] + df.skip(k - 1)) =~= s.take(k) + seq![c]
            + s.skip(k));
    }
}

/// The sort's length is the stream's length.
proof fn lemma_sort_commits_len(s: Seq<CommitInput>)
    ensures
        spec_sort_commits(s).len() == s.len(),
    decreases s.len(),
{
    if s.len() > 0 {
        lemma_sort_commits_len(s.drop_last());
        lemma_insert_by_time_len(s.last(), spec_sort_commits(s.drop_last()));
    }
}

proof fn lemma_insert_by_time_len(c: CommitInput, s: Seq<CommitInput>)
    ensures
        spec_insert_by_time(c, s).len() == s.len() + 1,
    decreases s.len(),
{
    if s.len() > 0 && !(c.timestamp < s[0].timestamp) {
        lemma_insert_by_time_len(c, s.drop_first());
    }
}

/// Sorting keeps every commit well formed.
proof fn lemma_insert_by_time_wf(c: CommitInput, s: Seq<CommitInput>)
    requires
        commit_wf(c),
        forall|i: int| 0 <= i < s.len() ==> commit_wf(#[trigger] s[i]),
    ensures
        forall|i: int|
            0 <= i < spec_insert_by_time(c, s).len() ==> commit_wf(
                #[trigger] spec_insert_by_time(c, s)[i],
            ),
    decreases s.len(),
{
    if s.len() > 0 && !(c.timestamp < s[0].timestamp) {
        assert(forall|i: int| 0 <= i < s.drop_first().len() ==> commit_wf(
            #[trigger] s.drop_first()[i],
        ));
        lemma_insert_by_time_wf(c, s.drop_first());
        let r = spec_insert_by_time(c, s);
        let rr = spec_insert_by_time(c, s.drop_first());
        assert(forall|i: int| 1 <= i < r.len() ==> r[i] == #[trigger] rr[i - 1]);
    }
}

proof fn lemma_sort_commits_wf(s: Seq<CommitInput>)
    requires
        forall|i: int| 0 <= i < s.len() ==> commit_wf(#[trigger] s[i]),
    ensures
        forall|i: int|
            0 <= i < spec_sort_commits(s).len() ==> commit_wf(#[trigger] spec_sort_commits(s)[i]),
    decreases s.len(),
{
    if s.len() > 0 {
        assert(forall|i: int| 0 <= i < s.drop_last().len() ==> commit_wf(
            #[trigger] s.drop_last()[i],
        ));
        lemma_sort_commits_wf(s.drop_last());
        lemma_insert_by_time_wf(s.last(), spec_sort_commits(s.drop_last()));
    }
}

/// Insert one commit into an already sorted run, keeping it sorted and
/// landing exactly on `spec_insert_by_time`.
fn insert_commit(out: &mut Vec<CommitInput>, c: CommitInput)
    requires
        commits_sorted(old(out)@),
    ensures
        commits_sorted(final(out)@),
        final(out)@ == spec_insert_by_time(c, old(out)@),
{
    let mut k: usize = 0;
    while k < out.len() && out[k].timestamp <= c.timestamp
        invariant
            out@ == old(out)@,
            commits_sorted(out@),
            k <= out@.len(),
            forall|j: int| 0 <= j < k ==> out@[j].timestamp <= c.timestamp,
        decreases out@.len() - k,
    {
        k = k + 1;
    }
    proof {
        lemma_insert_by_time_shape(c, out@, k as int);
    }
    let ghost before = out@;
    out.insert(k, c);
    proof {
        assert(out@ =~= before.take(k as int) + seq![c] + before.skip(k as int));
        assert forall|a: int, b: int| 0 <= a < b < out@.len() implies out@[a].timestamp
            <= out@[b].timestamp by {
            let ki = k as int;
            if a < ki {
                assert(out@[a] == before[a]);
            } else if a == ki {
                assert(out@[a] == c);
            } else {
                assert(out@[a] == before[a - 1]);
            }
            if b < ki {
                assert(out@[b] == before[b]);
            } else if b == ki {
                assert(out@[b] == c);
            } else {
                assert(out@[b] == before[b - 1]);
            }
        }
    }
}

/// Sort the collected commits by commit time, ascending; commits sharing
/// a timestamp keep their incoming order.
pub fn sort_commits(commits: Vec<CommitInput>) -> (r: Vec<CommitInput>)
    ensures
        r@ == spec_sort_commits(commits@),
        commits_sorted(r@),
{
    let ghost orig = commits@;
    let mut rem = commits;
    let mut out: Vec<CommitInput> = Vec::new();
    proof {
        assert(orig.skip(0) =~= orig);
        assert(orig.take(0) =~= Seq::<CommitInput>::empty());
    }
    while rem.len() > 0
        invariant
            rem@.len() <= orig.len(),
            rem@ == orig.skip(orig.len() - rem@.len()),
            out@ == spec_sort_commits(orig.take(orig.len() - rem@.len())),
            commits_sorted(out@),
        decreases rem@.len(),
    {
        let ghost i = orig.len() - rem@.len();
        let ghost pre = rem@;
        let c = rem.remove(0);
        proof {
            assert(pre[0] == orig[i]);
            assert(rem@ =~= orig.skip(i + 1));
            assert(orig.take(i + 1).drop_last() =~= orig.take(i));
            assert(orig.take(i + 1).last() == orig[i]);
        }
        insert_commit(&mut out, c);
    }
    proof {
        assert(orig.take(orig.len() - rem@.len()) =~= orig);
    }
    out
}

/// Apply every hunk of one modified file, in order.
fn apply_hunks(changes: &mut ChangeMap, file_id: usize, hunks: &Vec<HunkInput>, t: i64, cid: usize)
    requires
        old(changes).wf(),
        forall|i: int| 0 <= i < hunks@.len() ==> hunk_wf(#[trigger] hunks@[i]),
    ensures
        final(changes).wf(),
        final(changes)@ == m_apply_hunks(old(changes)@, file_id as int, hunks@, t, cid),
{
    let ghost target = m_apply_hunks(old(changes)@, file_id as int, hunks@, t, cid);
    let mut hi: usize = 0;
    proof {
        assert(hunks@.skip(0) =~= hunks@);
    }
    while hi < hunks.len()
        invariant
            changes.wf(),
            hi <= hunks@.len(),
            forall|i: int| 0 <= i < hunks@.len() ==> hunk_wf(#[trigger] hunks@[i]),
            m_apply_hunks(changes@, file_id as int, hunks@.skip(hi as int), t, cid) == target,
        decreases hunks@.len() - hi,
    {
        proof {
            assert(hunks@.skip(hi as int)[0] == hunks@[hi as int]);
            assert(hunks@.skip(hi as int).drop_first() =~= hunks@.skip(hi as int + 1));
        }
        apply_hunk(changes, file_id, &hunks[hi], t, cid);
        hi = hi + 1;
    }
    proof {
        assert(hunks@.skip(hi as int) =~= Seq::<HunkInput>::empty());
    }
}

} // verus!
