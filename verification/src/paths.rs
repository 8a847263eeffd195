//! The path-to-identity lookup used while analyzing history: each currently
//! tracked path maps to the identity of the file that occupies it. The
//! mapping is updated, not merged, on add, delete and rename, so a path
//! names at most one identity at a time.

use vstd::prelude::*;

verus! {

/// Maps each tracked path to a file identity. Backed by a list of
/// (path, identity) pairs with pairwise distinct paths.
#[derive(Debug)]
pub struct PathMap {
    pub entries: Vec<(String, usize)>,
}

/// The mathematical reading of the pair list: a finite map from path
/// characters to identity.
pub open spec fn path_map_view(entries: Seq<(String, usize)>) -> Map<Seq<char>, int>
    decreases entries.len(),
{
    if entries.len() == 0 {
        Map::<Seq<char>, int>::empty()
    } else {
        path_map_view(entries.drop_last()).insert(entries.last().0@, entries.last().1 as int)
    }
}

impl View for PathMap {
    type V = Map<Seq<char>, int>;

    open spec fn view(&self) -> Map<Seq<char>, int> {
        path_map_view(self.entries@)
    }
}

/// No two pairs carry the same path.
pub open spec fn path_entries_distinct(entries: Seq<(String, usize)>) -> bool {
    forall|i: int, j: int| 0 <= i < j < entries.len() ==> entries[i].0@ != entries[j].0@
}

/// The domain of the view is exactly the set of listed paths.
proof fn lemma_path_view_dom(entries: Seq<(String, usize)>, p: Seq<char>)
    ensures
        path_map_view(entries).dom().contains(p) <==> exists|i: int|
            0 <= i < entries.len() && entries[i].0@ == p,
    decreases entries.len(),
{
    if entries.len() > 0 {
        lemma_path_view_dom(entries.drop_last(), p);
        if entries.last().0@ != p {
            assert(forall|i: int|
                0 <= i < entries.drop_last().len() ==> entries.drop_last()[i] == entries[i]);
            if exists|i: int| 0 <= i < entries.len() && entries[i].0@ == p {
                let i = choose|i: int| 0 <= i < entries.len() && entries[i].0@ == p;
                assert(i < entries.len() - 1);
                assert(entries.drop_last()[i].0@ == p);
            }
        }
    }
}

/// A listed pair reads back as its own identity.
proof fn lemma_path_view_entry(entries: Seq<(String, usize)>, i: int)
    requires
        path_entries_distinct(entries),
        0 <= i < entries.len(),
    ensures
        path_map_view(entries).dom().contains(entries[i].0@),
        path_map_view(entries)[entries[i].0@] == entries[i].1 as int,
    decreases entries.len(),
{
    if i < entries.len() - 1 {
        assert(entries.drop_last()[i] == entries[i]);
        lemma_path_view_entry(entries.drop_last(), i);
    }
}

/// Replacing the pair at `i` by one with the same path reads as a map
/// update at that path.
proof fn lemma_path_view_update(entries: Seq<(String, usize)>, i: int, e: (String, usize))
    requires
        path_entries_distinct(entries),
        0 <= i < entries.len(),
        e.0@ == entries[i].0@,
    ensures
        path_map_view(entries.update(i, e)) == path_map_view(entries).insert(e.0@, e.1 as int),
    decreases entries.len(),
{
    if i == entries.len() - 1 {
        assert(entries.update(i, e).drop_last() =~= entries.drop_last());
        assert(path_map_view(entries.update(i, e)) =~= path_map_view(entries).insert(
            e.0@,
            e.1 as int,
        ));
    } else {
        assert(entries.update(i, e).drop_last() =~= entries.drop_last().update(i, e));
        assert(forall|a: int|
            0 <= a < entries.drop_last().len() ==> entries.drop_last()[a] == entries[a]);
        lemma_path_view_update(entries.drop_last(), i, e);
        assert(entries.last().0@ != e.0@);
        assert(path_map_view(entries.update(i, e)) =~= path_map_view(entries).insert(
            e.0@,
            e.1 as int,
        ));
    }
}

/// Dropping the pair at `i` reads as a map removal at its path.
proof fn lemma_path_view_remove(entries: Seq<(String, usize)>, i: int)
    requires
        path_entries_distinct(entries),
        0 <= i < entries.len(),
    ensures
        path_map_view(entries.remove(i)) == path_map_view(entries).remove(entries[i].0@),
    decreases entries.len(),
{
    let p = entries[i].0@;
    if i == entries.len() - 1 {
        assert(entries.remove(i) =~= entries.drop_last());
        assert forall|q: Seq<char>| q != p implies !(#[trigger] path_map_view(
            entries.drop_last(),
        ).dom().contains(q)) || path_map_view(entries.drop_last())[q] == path_map_view(entries)[q]
            && path_map_view(entries).dom().contains(q) by {}
        assert(!path_map_view(entries.drop_last()).dom().contains(p)) by {
            lemma_path_view_dom(entries.drop_last(), p);
            if exists|a: int| 0 <= a < entries.drop_last().len() && entries.drop_last()[a].0@
                == p {
                let a = choose|a: int|
                    0 <= a < entries.drop_last().len() && entries.drop_last()[a].0@ == p;
                assert(entries[a].0@ == p);
            }
        }
        assert(path_map_view(entries.remove(i)) =~= path_map_view(entries).remove(p));
    } else {
        assert(entries.remove(i).drop_last() =~= entries.drop_last().remove(i));
        assert(forall|a: int|
            0 <= a < entries.drop_last().len() ==> entries.drop_last()[a] == entries[a]);
        lemma_path_view_remove(entries.drop_last(), i);
        assert(entries.remove(i).last() == entries.last());
        assert(entries.last().0@ != p);
        assert(path_map_view(entries.remove(i)) =~= path_map_view(entries).remove(p));
    }
}

impl PathMap {
    /// Each path is listed at most once.
    pub open spec fn wf(self) -> bool {
        path_entries_distinct(self.entries@)
    }

    /// An empty lookup: no path is tracked.
    pub fn new() -> (r: PathMap)
        ensures
            r.wf(),
            r@ == Map::<Seq<char>, int>::empty(),
    {
        PathMap { entries: Vec::new() }
    }

    /// The index of the pair for `path`, if the path is tracked.
    fn find(&self, path: &String) -> (r: Option<usize>)
        ensures
            match r {
                Some(i) => i < self.entries@.len() && self.entries@[i as int].0@ == path@,
                None => forall|i: int| 0 <= i < self.entries@.len() ==> self.entries@[i].0@ != path@,
            },
    {
        let mut i: usize = 0;
        while i < self.entries.len()
            invariant
                i <= self.entries@.len(),
                forall|j: int| 0 <= j < i ==> self.entries@[j].0@ != path@,
            decreases self.entries@.len() - i,
        {
            if self.entries[i].0 == *path {
                return Some(i);
            }
            i = i + 1;
        }
        None
    }

    /// The identity tracked for `path`, if any.
    pub fn get(&self, path: &String) -> (r: Option<usize>)
        requires
            self.wf(),
        ensures
            match r {
                Some(id) => self@.dom().contains(path@) && self@[path@] == id as int,
                None => !self@.dom().contains(path@),
            },
    {
        match self.find(path) {
            Some(i) => {
                proof {
                    lemma_path_view_entry(self.entries@, i as int);
                }
                Some(self.entries[i].1)
            },
            None => {
                proof {
                    lemma_path_view_dom(self.entries@, path@);
                }
                None
            },
        }
    }

    /// Track `path` as `id`, replacing whatever identity the path mapped
    /// to before.
    pub fn insert(&mut self, path: String, id: usize)
        requires
            old(self).wf(),
        ensures
            final(self).wf(),
            final(self)@ == old(self)@.insert(path@, id as int),
    {
        match self.find(&path) {
            Some(i) => {
                let mut e = self.entries.remove(i);
                e = (path, id);
                self.entries.insert(i, e);
                proof {
                    let e_new = self.entries@[i as int];
                    assert(self.entries@ =~= old(self).entries@.update(i as int, e_new));
                    lemma_path_view_update(old(self).entries@, i as int, e_new);
                }
            },
            None => {
                self.entries.push((path, id));
                proof {
                    assert(self.entries@.drop_last() =~= old(self).entries@);
                }
            },
        }
    }

    /// Stop tracking `path`, handing back the identity it mapped to;
    /// removing an untracked path is a no-op.
    pub fn remove(&mut self, path: &String) -> (r: Option<usize>)
        requires
            old(self).wf(),
        ensures
            final(self).wf(),
            match r {
                Some(id) => old(self)@.dom().contains(path@) && old(self)@[path@] == id as int
                    && final(self)@ == old(self)@.remove(path@),
                None => !old(self)@.dom().contains(path@) && final(self)@ == old(self)@,
            },
    {
        match self.find(path) {
            Some(i) => {
                proof {
                    lemma_path_view_entry(self.entries@, i as int);
                    lemma_path_view_remove(self.entries@, i as int);
                    assert(forall|a: int, b: int|
                        0 <= a < b < self.entries@.remove(i as int).len()
                            ==> #[trigger] self.entries@.remove(i as int)[a].0@
                            != #[trigger] self.entries@.remove(i as int)[b].0@);
                }
                let e = self.entries.remove(i);
                Some(e.1)
            },
            None => {
                proof {
                    lemma_path_view_dom(self.entries@, path@);
                }
                None
            },
        }
    }
}

} // verus!
