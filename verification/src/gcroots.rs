//! Resolving garbage-collector roots into store paths.
//!
//! A root is a directory tree whose symbolic links keep store paths alive.
//! A link either points below the store, and then names a live store
//! path, or points elsewhere, and then names a further root to explore. The
//! resolver decides; walking directories and reading links is left to the
//! caller, who reports what it found as [`RootEntry`] values.

use crate::path_set::PathSet;
use crate::store_path::{
    below_store, in_store, is_entry, lemma_top_level_entry, top_level, StoreDir,
};
use std::collections::VecDeque;
use vstd::prelude::*;

verus! {

/// One entry found while walking the tree below a root.
pub struct RootEntry {
    /// Where the entry lies.
    pub path: String,
    /// For a symbolic link that resolves: the canonical path it leads to.
    pub target: Option<String>,
}

/// The state of a [`GcRoots`] as plain values.
pub struct RootsView {
    /// The store directory that link targets are held against.
    pub store: Seq<char>,
    /// Roots that wait to be explored, first in front.
    pub queue: Seq<Seq<char>>,
    /// Paths that have been walked.
    pub seen: Set<Seq<char>>,
    /// Store paths that the roots keep alive.
    pub store_paths: Set<Seq<char>>,
}

/// The state after the link target `target` was found. A target below
/// the store is cut to the entry of the store that it lies in, and the
/// entry is recorded. A target that is the store directory itself keeps
/// nothing alive and changes nothing. Any other target is queued as a
/// further root.
pub open spec fn follow(v: RootsView, target: Seq<char>) -> RootsView {
    if below_store(v.store, target) {
        RootsView { store_paths: v.store_paths.insert(top_level(v.store, target)), ..v }
    } else if in_store(v.store, target) {
        v
    } else {
        RootsView { queue: v.queue.push(target), ..v }
    }
}

/// The state after one entry was visited.
pub open spec fn visit(v: RootsView, entry: RootEntry) -> RootsView {
    let marked = RootsView { seen: v.seen.insert(entry.path@), ..v };
    match entry.target {
        Some(target) => follow(marked, target@),
        None => marked,
    }
}

/// The state after the entries were visited one after the other.
pub open spec fn visit_all(v: RootsView, entries: Seq<RootEntry>) -> RootsView
    decreases entries.len(),
{
    if entries.len() == 0 {
        v
    } else {
        visit(visit_all(v, entries.drop_last()), entries.last())
    }
}

/// The state after the root `root` with the entries below it was handled:
/// a root that was walked before changes nothing.
pub open spec fn scanned(v: RootsView, root: Seq<char>, entries: Seq<RootEntry>) -> RootsView {
    if v.seen.contains(root) {
        v
    } else {
        visit_all(v, entries)
    }
}

/// Exploring roots never forgets a walked path or a store path, and
/// leaves the store directory as it is.
pub proof fn lemma_visit_all_grows(v: RootsView, entries: Seq<RootEntry>)
    ensures
        visit_all(v, entries).store == v.store,
        v.seen.subset_of(visit_all(v, entries).seen),
        v.store_paths.subset_of(visit_all(v, entries).store_paths),
        forall|i: int|
            0 <= i < entries.len() ==> visit_all(v, entries).seen.contains(
                (#[trigger] entries[i]).path@,
            ),
    decreases entries.len(),
{
    if entries.len() > 0 {
        lemma_visit_all_grows(v, entries.drop_last());
        assert forall|i: int| 0 <= i < entries.len() implies visit_all(v, entries).seen.contains(
            (#[trigger] entries[i]).path@,
        ) by {
            if i < entries.len() - 1 {
                assert(entries.drop_last()[i] == entries[i]);
            }
        }
    }
}

/// Every store path that is recorded is an entry of the store: the store,
/// a slash and one component that is not empty. Neither the store itself
/// nor a path outside it nor a deeper path is ever recorded.
pub proof fn lemma_visit_all_store_paths(v: RootsView, entries: Seq<RootEntry>)
    requires
        forall|p: Seq<char>| v.store_paths.contains(p) ==> is_entry(v.store, p),
    ensures
        forall|p: Seq<char>| #[trigger]
            visit_all(v, entries).store_paths.contains(p) ==> is_entry(v.store, p),
    decreases entries.len(),
{
    if entries.len() > 0 {
        let before = visit_all(v, entries.drop_last());
        lemma_visit_all_grows(v, entries.drop_last());
        lemma_visit_all_store_paths(v, entries.drop_last());
        assert forall|p: Seq<char>| #[trigger]
            visit_all(v, entries).store_paths.contains(p) implies is_entry(v.store, p) by {
            if !before.store_paths.contains(p) {
                let target = entries.last().target->Some_0@;
                lemma_top_level_entry(v.store, target);
            }
        }
    }
}

/// The root resolver: a queue of roots to explore, the paths walked so far
/// and the store paths found.
pub struct GcRoots {
    store: StoreDir,
    queue: VecDeque<String>,
    seen: PathSet,
    store_paths: PathSet,
}

impl View for GcRoots {
    type V = RootsView;

    closed spec fn view(&self) -> RootsView {
        RootsView {
            store: self.store@,
            queue: self.queue.deep_view(),
            seen: self.seen@,
            store_paths: self.store_paths@,
        }
    }
}

impl GcRoots {
    /// The parts of the resolver are well-formed, and every store path
    /// that was recorded is an entry of the store.
    pub closed spec fn wf(&self) -> bool {
        &&& self.seen.wf()
        &&& self.store_paths.wf()
        &&& forall|p: Seq<char>| #[trigger]
            self.store_paths@.contains(p) ==> is_entry(self.store@, p)
    }

    /// A resolver for the store at `/nix/store` with nothing to explore.
    pub fn new() -> (r: Self)
        ensures
            r.wf(),
            r@.store == "/nix/store"@,
            r@.queue == Seq::<Seq<char>>::empty(),
            r@.seen == Set::<Seq<char>>::empty(),
            r@.store_paths == Set::<Seq<char>>::empty(),
    {
        GcRoots::with_store(StoreDir::nix())
    }

    /// A resolver for the store `store` with nothing to explore.
    pub fn with_store(store: StoreDir) -> (r: Self)
        ensures
            r.wf(),
            r@.store == store@,
            r@.queue == Seq::<Seq<char>>::empty(),
            r@.seen == Set::<Seq<char>>::empty(),
            r@.store_paths == Set::<Seq<char>>::empty(),
    {
        let r = GcRoots {
            store,
            queue: VecDeque::new(),
            seen: PathSet::new(),
            store_paths: PathSet::new(),
        };
        assert(r.queue.deep_view() =~= Seq::<Seq<char>>::empty());
        r
    }

    /// The store paths that the roots explored so far keep alive. Each is
    /// an entry of the store: the store, a slash and one component that is
    /// not empty.
    pub fn store_paths(&self) -> (paths: &PathSet)
        requires
            self.wf(),
        ensures
            paths.wf(),
            paths@ == self@.store_paths,
            forall|p: Seq<char>| #[trigger] paths@.contains(p) ==> is_entry(self@.store, p),
    {
        &self.store_paths
    }

    /// Queues `gcroot` for exploration.
    pub fn enqueue(&mut self, gcroot: String)
        requires
            old(self).wf(),
        ensures
            final(self).wf(),
            final(self)@ == (RootsView { queue: old(self)@.queue.push(gcroot@), ..old(self)@ }),
    {
        self.queue.push_back(gcroot);
        assert(self.queue.deep_view() =~= old(self).queue.deep_view().push(gcroot@));
    }

    /// Takes the root that has waited longest out of the queue.
    pub fn next(&mut self) -> (gcroot: Option<String>)
        requires
            old(self).wf(),
        ensures
            final(self).wf(),
            gcroot is None <==> old(self)@.queue.len() == 0,
            gcroot is None ==> final(self)@ == old(self)@,
            gcroot matches Some(root) ==> {
                &&& root@ == old(self)@.queue[0]
                &&& final(self)@ == (RootsView {
                    queue: old(self)@.queue.drop_first(),
                    ..old(self)@
                })
            },
    {
        let gcroot = self.queue.pop_front();
        proof {
            if gcroot is Some {
                assert(self.queue.deep_view() =~= old(self).queue.deep_view().drop_first());
            } else {
                assert(self.queue.deep_view() =~= old(self).queue.deep_view());
            }
        }
        gcroot
    }

    /// Whether `path` was walked before.
    pub fn is_seen(&self, path: &str) -> (b: bool)
        requires
            self.wf(),
        ensures
            b == self@.seen.contains(path@),
    {
        self.seen.contains(path)
    }

    /// Handles the canonical root `gcroot` and the entries that a walk of
    /// the tree below it gave. A root that was walked before is skipped.
    /// Every entry is marked as walked; the target of a link is followed as
    /// [`follow`] says.
    pub fn scan(&mut self, gcroot: &str, entries: &Vec<RootEntry>)
        requires
            old(self).wf(),
        ensures
            final(self).wf(),
            final(self)@ == scanned(old(self)@, gcroot@, entries@),
    {
        if self.seen.contains(gcroot) {
            return;
        }
        let mut i: usize = 0;
        while i < entries.len()
            invariant
                i <= entries.len(),
                self.wf(),
                self@ == visit_all(old(self)@, entries@.subrange(0, i as int)),
            decreases entries.len() - i,
        {
            let ghost before = self@;
            let entry = &entries[i];
            self.seen.insert(entry.path.clone());
            match &entry.target {
                Some(target) => {
                    self.follow(target.as_str());
                },
                None => {},
            }
            proof {
                let done = entries@.subrange(0, i + 1);
                assert(done.drop_last() =~= entries@.subrange(0, i as int));
                assert(done.last() == entries@[i as int]);
            }
            i += 1;
        }
        assert(entries@.subrange(0, i as int) =~= entries@);
    }

    /// Follows the canonical link target `target`: a target below the
    /// store is recorded as the entry of the store that it lies in, the
    /// store directory itself is passed over, and any other target is
    /// queued as a further root.
    pub fn follow(&mut self, target: &str)
        requires
            old(self).wf(),
        ensures
            final(self).wf(),
            final(self)@ == follow(old(self)@, target@),
    {
        if self.store.is_below(target) {
            self.add_store_path(target);
        } else if self.store.contains(target) {
        } else {
            self.queue.push_back(target.to_owned());
            assert(self.queue.deep_view() =~= old(self).queue.deep_view().push(target@));
        }
    }

    /// Records the store path that `path` lies in: `path` cut after its
    /// first component below the store.
    fn add_store_path(&mut self, path: &str)
        requires
            old(self).wf(),
            below_store(old(self)@.store, path@),
        ensures
            final(self).wf(),
            final(self)@ == (RootsView {
                store_paths: old(self)@.store_paths.insert(top_level(old(self)@.store, path@)),
                ..old(self)@
            }),
    {
        let top = self.store.top_level(path);
        proof {
            lemma_top_level_entry(self.store@, path@);
        }
        self.store_paths.insert(top);
    }
}

} // verus!
