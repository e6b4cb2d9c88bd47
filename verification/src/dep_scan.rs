//! The scan that collects the closure of a set of store paths.
//!
//! The scanner holds a queue of store paths to look at and the set of
//! those it has collected. It takes a path from the queue, collects it
//! unless a path with the same hash was collected before, and queues what
//! the record of the path names. When nothing waits any more, what was
//! collected is what is reachable from the paths that were queued at
//! first, one path for each hash.

use crate::binary_cache::{BinaryCache, CacheView, Info, InfoView};
use crate::closure::{
    closed, closure, edges, lemma_edges_of_ident, lemma_named, lemma_reach_least,
    lemma_reach_start, lemma_reach_step, lemma_reachable_idempotent, links, named, reach,
    reachable,
};
use crate::path_set::PathSet;
use crate::store_path::{child, ident, StoreDir};
use std::collections::VecDeque;
use vstd::prelude::*;
use vstd::seq_lib::seq_to_set_is_finite;

verus! {

/// What identifies the paths in `paths`.
pub open spec fn idents(store: Seq<char>, paths: Set<Seq<char>>) -> Set<Seq<char>> {
    paths.map(|path: Seq<char>| ident(store, path))
}

/// Whether no two paths in `paths` are identified alike: whether `paths`
/// holds one path at most for each hash.
pub open spec fn one_per_ident(store: Seq<char>, paths: Set<Seq<char>>) -> bool {
    forall|p: Seq<char>, q: Seq<char>|
        paths.contains(p) && paths.contains(q) && #[trigger] ident(store, p) == #[trigger] ident(
            store,
            q,
        ) ==> p == q
}

/// Whether the record of a path in `seen` names `path`.
pub open spec fn named_by(cache: CacheView, seen: Set<Seq<char>>, path: Seq<char>) -> bool {
    exists|by: Seq<char>| seen.contains(by) && #[trigger] edges(cache, by).contains(path)
}

/// The state of a scanner as plain values.
pub struct ScanView {
    /// The store directory.
    pub store: Seq<char>,
    /// Paths that wait to be looked at, first in front. A path may wait
    /// more than once.
    pub queue: Seq<Seq<char>>,
    /// Paths that were collected.
    pub seen: Set<Seq<char>>,
}

/// Number of entries at the front of `queue` that are in `seen`.
pub open spec fn seen_prefix(queue: Seq<Seq<char>>, seen: Set<Seq<char>>) -> int
    decreases queue.len(),
{
    if queue.len() == 0 || !seen.contains(queue[0]) {
        0
    } else {
        1 + seen_prefix(queue.drop_first(), seen)
    }
}

/// `seen_prefix` counts the entries before the first that is not in
/// `seen`.
pub proof fn lemma_seen_prefix(queue: Seq<Seq<char>>, seen: Set<Seq<char>>)
    ensures
        0 <= seen_prefix(queue, seen) <= queue.len(),
        forall|i: int| 0 <= i < seen_prefix(queue, seen) ==> seen.contains(#[trigger] queue[i]),
        seen_prefix(queue, seen) < queue.len() ==> !seen.contains(queue[seen_prefix(queue, seen)]),
    decreases queue.len(),
{
    if queue.len() > 0 && seen.contains(queue[0]) {
        let rest = queue.drop_first();
        lemma_seen_prefix(rest, seen);
        assert forall|i: int| 0 <= i < seen_prefix(queue, seen) implies seen.contains(
            #[trigger] queue[i],
        ) by {
            if i > 0 {
                assert(rest[i - 1] == queue[i]);
            }
        }
    }
}

impl ScanView {
    /// What identifies the paths that were collected.
    pub open spec fn ids(self) -> Set<Seq<char>> {
        idents(self.store, self.seen)
    }

    /// What identifies the paths that wait, in the order of the queue.
    pub open spec fn waiting(self) -> Seq<Seq<char>> {
        self.queue.map_values(|path: Seq<char>| ident(self.store, path))
    }

    /// Number of paths at the front of the queue that are identified like
    /// a path collected before.
    pub open spec fn skip(self) -> int {
        seen_prefix(self.waiting(), self.ids())
    }

    /// The path that is collected next: the first in the queue that is
    /// not identified like a path collected before.
    pub open spec fn next(self) -> Option<Seq<char>> {
        if self.skip() < self.queue.len() {
            Some(self.queue[self.skip()])
        } else {
            None
        }
    }

    /// The state after the next path was taken out of the queue and
    /// collected. The paths in front of it leave the queue with it.
    pub open spec fn advanced(self) -> ScanView {
        if self.skip() < self.queue.len() {
            ScanView {
                queue: self.queue.subrange(self.skip() + 1, self.queue.len() as int),
                seen: self.seen.insert(self.queue[self.skip()]),
                ..self
            }
        } else {
            ScanView { queue: Seq::empty(), ..self }
        }
    }

    /// The state after the paths that `info` names were queued.
    pub open spec fn expanded(self, info: InfoView) -> ScanView {
        ScanView { queue: self.queue + info.successors(self.store), ..self }
    }
}

/// A scan seen as a walk over what identifies the paths.
struct Front {
    queue: Seq<Seq<char>>,
    seen: Set<Seq<char>>,
}

impl Front {
    spec fn next(self) -> Option<Seq<char>> {
        let skip = seen_prefix(self.queue, self.seen);
        if skip < self.queue.len() {
            Some(self.queue[skip])
        } else {
            None
        }
    }

    spec fn advanced(self) -> Front {
        let skip = seen_prefix(self.queue, self.seen);
        if skip < self.queue.len() {
            Front {
                queue: self.queue.subrange(skip + 1, self.queue.len() as int),
                seen: self.seen.insert(self.queue[skip]),
            }
        } else {
            Front { queue: Seq::empty(), seen: self.seen }
        }
    }
}

spec fn front(v: ScanView) -> Front {
    Front { queue: v.waiting(), seen: v.ids() }
}

/// Taking the next path is taking the next of what identifies the paths.
proof fn lemma_front_advanced(v: ScanView)
    ensures
        front(v.advanced()) == front(v).advanced(),
        match v.next() {
            Some(path) => front(v).next() == Some(ident(v.store, path)),
            None => front(v).next() is None,
        },
{
    let f = |path: Seq<char>| ident(v.store, path);
    lemma_seen_prefix(v.waiting(), v.ids());
    let skip = v.skip();
    if skip < v.queue.len() {
        assert(v.advanced().waiting() =~= v.waiting().subrange(skip + 1, v.queue.len() as int));
        v.seen.lemma_set_map_insert_commute(v.queue[skip], f);
    } else {
        assert(v.advanced().waiting() =~= Seq::<Seq<char>>::empty());
    }
}

/// Queueing what the record of a path names is queueing what the record
/// of its identity links to.
proof fn lemma_front_expanded(v: ScanView, cache: CacheView, path: Seq<char>, info: InfoView)
    requires
        cache.store == v.store,
        cache.by_store_path(path) == Ok::<InfoView, crate::error::CacheError>(info),
    ensures
        front(v.expanded(info)).queue == front(v).queue + links(cache, ident(v.store, path)),
        front(v.expanded(info)).seen == front(v).seen,
{
    lemma_edges_of_ident(cache, path);
    assert(v.expanded(info).waiting() =~= v.waiting() + links(cache, ident(v.store, path)));
}

spec fn scan_inv(
    cache: CacheView,
    seen0: Set<Seq<char>>,
    queue0: Set<Seq<char>>,
    universe: Set<Seq<char>>,
    v: Front,
) -> bool {
    &&& seen0.subset_of(v.seen)
    &&& forall|x: Seq<char>|
        v.seen.contains(x) || v.queue.contains(x) ==> #[trigger] closure(
            cache,
            seen0,
            queue0,
        ).contains(x) && universe.contains(x)
    &&& forall|x: Seq<char>| #[trigger]
        queue0.contains(x) ==> v.seen.contains(x) || v.queue.contains(x)
    &&& forall|x: Seq<char>, y: Seq<char>|
        v.seen.contains(x) && !seen0.contains(x) && #[trigger] links(cache, x).contains(y)
            ==> v.seen.contains(y) || v.queue.contains(y)
}

/// The invariant holds when the scan begins.
proof fn lemma_scan_begin(cache: CacheView, v: Front)
    ensures
        scan_inv(cache, v.seen, v.queue.to_set(), v.seen + v.queue.to_set() + named(cache), v),
{
    let seen0 = v.seen;
    let queue0 = v.queue.to_set();
    assert forall|x: Seq<char>|
        v.seen.contains(x) || v.queue.contains(x) implies #[trigger] closure(
        cache,
        seen0,
        queue0,
    ).contains(x) by {
        if !v.seen.contains(x) {
            lemma_reach_start(cache, queue0, seen0, x);
        }
    }
}

/// One step of the scan keeps the invariant, and a step that collects a
/// path leaves fewer paths of the universe to collect.
proof fn lemma_scan_step(
    cache: CacheView,
    seen0: Set<Seq<char>>,
    queue0: Set<Seq<char>>,
    universe: Set<Seq<char>>,
    v: Front,
)
    requires
        scan_inv(cache, seen0, queue0, universe, v),
        universe.finite(),
        forall|p: Seq<char>, q: Seq<char>| #[trigger]
            links(cache, p).contains(q) ==> universe.contains(q),
    ensures
        match v.next() {
            Some(path) => {
                &&& scan_inv(
                    cache,
                    seen0,
                    queue0,
                    universe,
                    Front {
                        queue: v.advanced().queue + links(cache, path),
                        seen: v.advanced().seen,
                    },
                )
                &&& universe.difference(v.advanced().seen).len() < universe.difference(v.seen).len()
            },
            None => scan_inv(cache, seen0, queue0, universe, v.advanced()),
        },
{
    let skip = seen_prefix(v.queue, v.seen);
    lemma_seen_prefix(v.queue, v.seen);
    let rest = v.advanced().queue;
    // Each path of the old queue was collected before, is the one collected
    // now, or waits still.
    assert forall|x: Seq<char>| v.queue.contains(x) implies v.advanced().seen.contains(x)
        || rest.contains(x) by {
        let i = choose|i: int| 0 <= i < v.queue.len() && v.queue[i] == x;
        if i > skip {
            assert(rest[i - skip - 1] == x);
        }
    }
    match v.next() {
        Some(path) => {
            assert(v.queue.contains(path));
            let after = Front { queue: rest + links(cache, path), seen: v.seen.insert(path) };
            assert(after.seen == v.advanced().seen);
            assert(closure(cache, seen0, queue0).contains(path));
            assert(reach(cache, queue0, seen0).contains(path));
            assert forall|x: Seq<char>| after.seen.contains(x) || after.queue.contains(
                x,
            ) implies #[trigger] closure(cache, seen0, queue0).contains(x) && universe.contains(
                x,
            ) by {
                if !after.seen.contains(x) {
                    let i = choose|i: int| 0 <= i < after.queue.len() && after.queue[i] == x;
                    if i < rest.len() {
                        assert(v.queue[skip + 1 + i] == x);
                    } else {
                        assert(links(cache, path)[i - rest.len()] == x);
                        assert(links(cache, path).contains(x));
                        if !seen0.contains(x) {
                            lemma_reach_step(cache, queue0, seen0, path, x);
                        }
                    }
                }
            }
            assert forall|x: Seq<char>| #[trigger] queue0.contains(x) implies after.seen.contains(x)
                || after.queue.contains(x) by {
                if rest.contains(x) {
                    let i = choose|i: int| 0 <= i < rest.len() && rest[i] == x;
                    assert(after.queue[i] == x);
                }
            }
            assert forall|x: Seq<char>, y: Seq<char>|
                after.seen.contains(x) && !seen0.contains(x) && #[trigger] links(
                    cache,
                    x,
                ).contains(y) implies after.seen.contains(y) || after.queue.contains(y) by {
                if x == path {
                    let i = choose|i: int|
                        0 <= i < links(cache, path).len() && links(cache, path)[i] == y;
                    assert(after.queue[rest.len() + i] == y);
                } else if rest.contains(y) {
                    let i = choose|i: int| 0 <= i < rest.len() && rest[i] == y;
                    assert(after.queue[i] == y);
                }
            }
            universe.lemma_set_insert_diff_decreases(v.seen, path);
        },
        None => {},
    }
}

/// When nothing waits any more, what was collected is the closure.
proof fn lemma_scan_end(
    cache: CacheView,
    seen0: Set<Seq<char>>,
    queue0: Set<Seq<char>>,
    universe: Set<Seq<char>>,
    v: Front,
)
    requires
        scan_inv(cache, seen0, queue0, universe, v),
        v.queue.len() == 0,
    ensures
        v.seen == closure(cache, seen0, queue0),
{
    assert(closed(cache, queue0, seen0, v.seen)) by {
        assert forall|p: Seq<char>|
            queue0.contains(p) && !seen0.contains(p) implies v.seen.contains(p) by {}
        assert forall|p: Seq<char>, q: Seq<char>|
            v.seen.contains(p) && !seen0.contains(p) && #[trigger] links(cache, p).contains(q)
                && !seen0.contains(q) implies v.seen.contains(q) by {}
    }
    lemma_reach_least(cache, queue0, seen0, v.seen);
    assert(v.seen =~= closure(cache, seen0, queue0));
}

/// What holds of the paths of a scan under way that began in the state
/// `start`: each path that was collected or waits was collected or
/// waited at the start, or is named by the record of a collected path.
spec fn traced(cache: CacheView, start: ScanView, v: ScanView) -> bool {
    forall|p: Seq<char>|
        v.seen.contains(p) || v.queue.contains(p) ==> start.seen.contains(p)
            || start.queue.contains(p) || #[trigger] named_by(cache, v.seen, p)
}

/// The closure scanner: a queue of store paths to look at and the set of
/// those collected so far.
pub struct DependencyScanner {
    store: StoreDir,
    queue: VecDeque<String>,
    seen: PathSet,
    ids: PathSet,
}

impl View for DependencyScanner {
    type V = ScanView;

    closed spec fn view(&self) -> ScanView {
        ScanView { store: self.store@, queue: self.queue.deep_view(), seen: self.seen@ }
    }
}

impl DependencyScanner {
    /// The parts of the scanner are well-formed, and beside each path
    /// that was collected stands what identifies it.
    pub closed spec fn wf(&self) -> bool {
        &&& self.seen.wf()
        &&& self.ids.wf()
        &&& self.ids.order().len() == self.seen.order().len()
        &&& forall|i: int|
            0 <= i < self.seen.order().len() ==> #[trigger] self.ids.order()[i] == ident(
                self.store@,
                self.seen.order()[i],
            )
    }

    /// Of the paths that were collected no two are identified alike, and
    /// they are finitely many.
    pub proof fn lemma_seen(&self)
        requires
            self.wf(),
        ensures
            one_per_ident(self@.store, self@.seen),
            self@.seen.finite(),
            self@.ids().finite(),
    {
        self.lemma_ids();
        self.seen.lemma_order();
        self.ids.lemma_order();
        let paths = self.seen.order();
        assert forall|p: Seq<char>, q: Seq<char>|
            self@.seen.contains(p) && self@.seen.contains(q) && #[trigger] ident(self@.store, p)
                == #[trigger] ident(self@.store, q) implies p == q by {
            let i = choose|i: int| 0 <= i < paths.len() && paths[i] == p;
            let j = choose|j: int| 0 <= j < paths.len() && paths[j] == q;
            assert(self.ids.order()[i] == self.ids.order()[j]);
        }
    }

    proof fn lemma_ids(&self)
        requires
            self.wf(),
        ensures
            self.ids@ == self@.ids(),
    {
        self.seen.lemma_order();
        self.ids.lemma_order();
        let paths = self.seen.order();
        let keys = self.ids.order();
        assert forall|k: Seq<char>| self.ids@.contains(k) <==> self@.ids().contains(k) by {
            if self.ids@.contains(k) {
                let i = choose|i: int| 0 <= i < keys.len() && keys[i] == k;
                assert(self.seen@.contains(paths[i]));
            }
            if self@.ids().contains(k) {
                let p = choose|p: Seq<char>| self.seen@.contains(p) && k == ident(self.store@, p);
                let i = choose|i: int| 0 <= i < paths.len() && paths[i] == p;
                assert(keys[i] == k);
            }
        }
        assert(self.ids@ =~= self@.ids());
    }

    /// A scanner for the store at `/nix/store` that has collected nothing
    /// and has nothing to look at.
    pub fn new() -> (scanner: Self)
        ensures
            scanner.wf(),
            scanner@ == (ScanView {
                store: "/nix/store"@,
                queue: Seq::<Seq<char>>::empty(),
                seen: Set::<Seq<char>>::empty(),
            }),
    {
        DependencyScanner::with_store(StoreDir::nix())
    }

    /// A scanner for the store `store` that has collected nothing and has
    /// nothing to look at.
    pub fn with_store(store: StoreDir) -> (scanner: Self)
        ensures
            scanner.wf(),
            scanner@ == (ScanView {
                store: store@,
                queue: Seq::<Seq<char>>::empty(),
                seen: Set::<Seq<char>>::empty(),
            }),
    {
        let scanner = DependencyScanner {
            store,
            queue: VecDeque::with_capacity(1),
            seen: PathSet::new(),
            ids: PathSet::new(),
        };
        assert(scanner.queue.deep_view() =~= Seq::<Seq<char>>::empty());
        scanner
    }

    /// The store directory by which this scanner tells the hash of a path.
    pub fn store(&self) -> (store: &StoreDir)
        ensures
            store@ == self@.store,
    {
        &self.store
    }

    /// Queues the store path `path`.
    pub fn enqueue(&mut self, path: String)
        requires
            old(self).wf(),
        ensures
            final(self).wf(),
            final(self)@ == (ScanView { queue: old(self)@.queue.push(path@), ..old(self)@ }),
    {
        self.queue.push_back(path);
        assert(self.queue.deep_view() =~= old(self).queue.deep_view().push(path@));
    }

    /// Number of paths collected so far.
    pub fn seen_len(&self) -> (n: usize)
        requires
            self.wf(),
        ensures
            n == self@.seen.len(),
    {
        self.seen.len()
    }

    /// Number of paths that wait in the queue.
    pub fn queue_len(&self) -> (n: usize)
        ensures
            n == self@.queue.len(),
    {
        self.queue.len()
    }

    /// Ends the scan where it stands and hands out what was collected:
    /// one path at most for each hash.
    pub fn into_seen(self) -> (seen: PathSet)
        requires
            self.wf(),
        ensures
            seen.wf(),
            seen@ == self@.seen,
            one_per_ident(self@.store, seen@),
    {
        proof {
            self.lemma_seen();
        }
        self.seen
    }

    /// Takes paths out of the queue up to the first that is not identified
    /// like a path collected before, collects that one and returns it.
    /// Returns `None` when the queue holds no such path; the queue is empty
    /// then.
    pub fn next(&mut self) -> (path: Option<String>)
        requires
            old(self).wf(),
        ensures
            final(self).wf(),
            final(self)@ == old(self)@.advanced(),
            match path {
                Some(p) => old(self)@.next() == Some(p@),
                None => old(self)@.next() is None,
            },
    {
        let ghost start = old(self)@;
        let ghost mut skipped: int = 0;
        proof {
            self.lemma_ids();
        }
        while self.queue.len() > 0
            invariant
                self.wf(),
                start == old(self)@,
                self@.store == start.store,
                self@.seen == start.seen,
                self.ids@ == start.ids(),
                0 <= skipped <= start.queue.len(),
                self@.queue == start.queue.subrange(skipped, start.queue.len() as int),
                start.skip() == skipped + seen_prefix(self@.waiting(), start.ids()),
            decreases self.queue.len(),
        {
            let ghost before = self@;
            let front = self.queue.pop_front();
            let path = front.unwrap();
            let key = self.store.ident(path.as_str());
            proof {
                assert(self.queue.deep_view() =~= before.queue.drop_first());
                assert(path@ == before.queue[0]);
                assert(before.queue.drop_first() =~= start.queue.subrange(
                    skipped + 1,
                    start.queue.len() as int,
                ));
                assert(before.waiting()[0] == key@);
                assert(before.waiting().drop_first() =~= self@.waiting());
            }
            if !self.ids.contains(key.as_str()) {
                proof {
                    self.seen.lemma_order();
                    if self.seen@.contains(path@) {
                        assert(start.ids().contains(ident(start.store, path@)));
                    }
                    assert(seen_prefix(before.waiting(), start.ids()) == 0);
                    assert(start.queue[skipped] == path@);
                }
                self.ids.insert(key);
                self.seen.insert(path.clone());
                return Some(path);
            }
            proof {
                skipped = skipped + 1;
            }
        }
        proof {
            assert(self@.queue =~= Seq::<Seq<char>>::empty());
        }
        None
    }

    /// Queues the paths that the record `info` names: its references, then
    /// its deriver.
    pub fn expand(&mut self, info: &Info)
        requires
            old(self).wf(),
        ensures
            final(self).wf(),
            final(self)@ == old(self)@.expanded(info@),
    {
        let references = info.references();
        let ghost store = self.store@;
        let ghost names = info@.references().map_values(|name: Seq<char>| child(store, name));
        let mut i: usize = 0;
        while i < references.len()
            invariant
                i <= references.len(),
                self.wf(),
                store == self.store@,
                references.deep_view() == info@.references(),
                names == info@.references().map_values(|name: Seq<char>| child(store, name)),
                self@.seen == old(self)@.seen,
                self@.store == old(self)@.store,
                self@.queue == old(self)@.queue + names.subrange(0, i as int),
            decreases references.len() - i,
        {
            let path = self.store.join(references[i].as_str());
            proof {
                assert(references.deep_view()[i as int] == references@[i as int]@);
                assert(path@ == names[i as int]);
                assert(names.subrange(0, i + 1) =~= names.subrange(0, i as int).push(path@));
            }
            let ghost before = self.queue.deep_view();
            self.queue.push_back(path);
            assert(self.queue.deep_view() =~= before.push(names[i as int]));
            i += 1;
        }
        assert(names.subrange(0, i as int) =~= names);
        match info.deriver() {
            Some(deriver) => {
                let path = self.store.join(deriver);
                let ghost before = self.queue.deep_view();
                self.queue.push_back(path);
                assert(self.queue.deep_view() =~= before.push(path@));
            },
            None => {},
        }
        assert(self@.queue =~= old(self)@.queue + info@.successors(store));
    }

    /// The record of the store path `path` among those that `cache` holds,
    /// by the hash that `path` has in the store of this scanner.
    pub fn lookup(&self, cache: &BinaryCache, path: &str) -> (r: Result<
        Info,
        crate::error::CacheError,
    >)
        requires
            cache.wf(),
        ensures
            crate::binary_cache::lookup_view(r) == cache@.under(self@.store).by_store_path(path@),
    {
        match self.store.hash_of(path) {
            Ok(hash) => cache.get_info_by_hash(hash.as_str()),
            Err(e) => Err(e),
        }
    }

    /// Runs the scan to its end over the records that `cache` holds and
    /// returns what was collected. A path is collected unless a path with
    /// the same hash was collected before; a path whose record cannot be
    /// had is collected and leads no further. The hashes of what is
    /// returned are those collected before and those that can be reached
    /// from the queue without passing through one of them. For a fresh
    /// scanner they are the hashes reachable from the queued paths,
    /// whatever the order of the queue, and a scan from the result would
    /// collect them again. Each path that is returned was collected
    /// before, waited in the queue, or is named by the record of a path
    /// that is returned. A path that is no store path does not stop the
    /// scan; which of the paths returned are such, `StoreDir::invalid_among`
    /// tells.
    pub fn scan(self, cache: &BinaryCache) -> (seen: PathSet)
        requires
            self.wf(),
            cache.wf(),
        ensures
            seen.wf(),
            idents(self@.store, seen@) == closure(
                cache@.under(self@.store),
                self@.ids(),
                self@.waiting().to_set(),
            ),
            one_per_ident(self@.store, seen@),
            self@.seen.subset_of(seen@),
            forall|p: Seq<char>|
                seen@.contains(p) ==> self@.seen.contains(p) || self@.queue.contains(p)
                    || #[trigger] named_by(cache@.under(self@.store), seen@, p),
            self@.seen.is_empty() ==> idents(self@.store, seen@) == reachable(
                cache@.under(self@.store),
                self@.waiting().to_set(),
            ),
            self@.seen.is_empty() ==> reachable(
                cache@.under(self@.store),
                idents(self@.store, seen@),
            ) == idents(self@.store, seen@),
    {
        let mut scanner = self;
        let ghost graph = cache@.under(self@.store);
        let ghost seen0 = self@.ids();
        let ghost queue0 = self@.waiting().to_set();
        let ghost universe = seen0 + queue0 + named(graph);
        proof {
            cache.lemma_finite();
            lemma_named(graph);
            scanner.lemma_seen();
            seq_to_set_is_finite(self@.waiting());
            lemma_scan_begin(graph, front(self@));
        }
        loop
            invariant
                scanner.wf(),
                cache.wf(),
                graph == cache@.under(self@.store),
                scanner@.store == self@.store,
                self@.seen.subset_of(scanner@.seen),
                universe.finite(),
                forall|p: Seq<char>, q: Seq<char>| #[trigger]
                    links(graph, p).contains(q) ==> universe.contains(q),
                scan_inv(graph, seen0, queue0, universe, front(scanner@)),
                traced(graph, self@, scanner@),
            ensures
                scanner@.queue.len() == 0,
            decreases universe.difference(scanner@.ids()).len(),
        {
            let ghost before = scanner@;
            proof {
                lemma_scan_step(graph, seen0, queue0, universe, front(before));
                lemma_front_advanced(before);
                lemma_seen_prefix(before.waiting(), before.ids());
            }
            match scanner.next() {
                Some(path) => {
                    let ghost taken = scanner@;
                    proof {
                        assert(before.queue.contains(path@));
                        assert forall|p: Seq<char>|
                            taken.seen.contains(p) || taken.queue.contains(p) implies {
                            ||| self@.seen.contains(p)
                            ||| self@.queue.contains(p)
                            ||| #[trigger] named_by(graph, taken.seen, p)
                        } by {
                            if taken.queue.contains(p) {
                                let i = choose|i: int|
                                    0 <= i < taken.queue.len() && taken.queue[i] == p;
                                assert(before.queue[before.skip() + 1 + i] == p);
                            }
                            assert(before.seen.contains(p) || before.queue.contains(p));
                            if named_by(graph, before.seen, p) {
                                let by = choose|by: Seq<char>|
                                    before.seen.contains(by) && #[trigger] edges(
                                        graph,
                                        by,
                                    ).contains(p);
                                assert(taken.seen.contains(by));
                            }
                        }
                    }
                    match scanner.lookup(cache, path.as_str()) {
                        Ok(info) => {
                            proof {
                                lemma_front_expanded(taken, graph, path@, info@);
                            }
                            scanner.expand(&info);
                            proof {
                                assert forall|p: Seq<char>|
                                    scanner@.seen.contains(p) || scanner@.queue.contains(p) implies {
                                    ||| self@.seen.contains(p)
                                    ||| self@.queue.contains(p)
                                    ||| #[trigger] named_by(graph, scanner@.seen, p)
                                } by {
                                    if !taken.seen.contains(p) && !taken.queue.contains(p) {
                                        let i = choose|i: int|
                                            0 <= i < scanner@.queue.len() && scanner@.queue[i]
                                                == p;
                                        assert(edges(graph, path@)[i - taken.queue.len()] == p);
                                        assert(edges(graph, path@).contains(p));
                                    }
                                }
                            }
                        },
                        Err(_) => {
                            proof {
                                lemma_edges_of_ident(graph, path@);
                                assert(front(scanner@).queue =~= front(before).advanced().queue
                                    + links(graph, ident(self@.store, path@)));
                            }
                        },
                    }
                },
                None => {
                    break ;
                },
            }
        }
        proof {
            lemma_scan_end(graph, seen0, queue0, universe, front(scanner@));
            scanner.lemma_seen();
            if self@.seen.is_empty() {
                assert(seen0 =~= Set::<Seq<char>>::empty());
                lemma_reachable_idempotent(graph, queue0);
            }
        }
        scanner.seen
    }
}

} // verus!
