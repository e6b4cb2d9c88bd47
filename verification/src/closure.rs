//! The graph of store paths and what is reachable in it.
//!
//! A store path is identified by its hash: two paths with the same hash
//! are the same node, whatever their names. A path that is no store path
//! is a node of its own. The record of a node names further nodes: its
//! references and its deriver. A node without a record names none. What
//! is reachable from a set of seeds is the least set that holds the seeds
//! and, with each node, what the record of the node names.

use crate::binary_cache::{narinfo_path, CacheView};
use crate::store_path::{hash_part, ident, lemma_ident};
use vstd::prelude::*;
use vstd::seq_lib::seq_to_set_is_finite;

verus! {

/// The paths that the record of `path` names. A path whose record cannot
/// be had names none.
pub open spec fn edges(cache: CacheView, path: Seq<char>) -> Seq<Seq<char>> {
    match cache.by_store_path(path) {
        Ok(info) => info.successors(cache.store),
        Err(_) => Seq::empty(),
    }
}

/// What the record of `id` names, each path by what identifies it.
pub open spec fn links(cache: CacheView, id: Seq<char>) -> Seq<Seq<char>> {
    edges(cache, id).map_values(|path: Seq<char>| ident(cache.store, path))
}

/// The record of a path is the record of what identifies it: the name in
/// a store path does not matter.
pub proof fn lemma_edges_of_ident(cache: CacheView, path: Seq<char>)
    ensures
        cache.by_store_path(ident(cache.store, path)) == cache.by_store_path(path),
        edges(cache, ident(cache.store, path)) == edges(cache, path),
{
    lemma_ident(cache.store, path);
}

/// Whether the record of the node `walk[i]` names the node `walk[i + 1]`.
pub open spec fn linked(cache: CacheView, walk: Seq<Seq<char>>, i: int) -> bool {
    links(cache, walk[i]).contains(walk[i + 1])
}

/// Whether `walk` is a chain of nodes in which the record of each names
/// the next.
pub open spec fn is_walk(cache: CacheView, walk: Seq<Seq<char>>) -> bool {
    &&& walk.len() > 0
    &&& forall|i: int| 0 <= i < walk.len() - 1 ==> #[trigger] linked(cache, walk, i)
}

/// Whether no node of `walk` is in `avoid`.
pub open spec fn avoids(walk: Seq<Seq<char>>, avoid: Set<Seq<char>>) -> bool {
    forall|i: int| 0 <= i < walk.len() ==> !avoid.contains(#[trigger] walk[i])
}

/// Whether `walk` leads from a node in `from` to `to` without a node in
/// `avoid`.
pub open spec fn leads(
    cache: CacheView,
    from: Set<Seq<char>>,
    avoid: Set<Seq<char>>,
    walk: Seq<Seq<char>>,
    to: Seq<char>,
) -> bool {
    &&& is_walk(cache, walk)
    &&& from.contains(walk[0])
    &&& walk.last() == to
    &&& avoids(walk, avoid)
}

/// The nodes to which a walk leads from `from` without a node in `avoid`.
pub open spec fn reach(cache: CacheView, from: Set<Seq<char>>, avoid: Set<Seq<char>>) -> Set<
    Seq<char>,
> {
    Set::new(|to: Seq<char>| exists|walk: Seq<Seq<char>>| leads(cache, from, avoid, walk, to))
}

/// What a scan collects that starts with the nodes `seen` already
/// collected and the nodes `queue` waiting: `seen`, and whatever can be
/// reached from `queue` without passing through `seen`.
pub open spec fn closure(cache: CacheView, seen: Set<Seq<char>>, queue: Set<Seq<char>>) -> Set<
    Seq<char>,
> {
    seen.union(reach(cache, queue, seen))
}

/// The nodes that are reachable from `seeds`: the seeds and every node
/// that the record of a reachable node names. A node is what identifies a
/// path: for a store path its hash, with the store directory before it.
pub open spec fn reachable(cache: CacheView, seeds: Set<Seq<char>>) -> Set<Seq<char>> {
    closure(cache, Set::empty(), seeds)
}

/// A starting point that need not be avoided is reached.
pub proof fn lemma_reach_start(
    cache: CacheView,
    from: Set<Seq<char>>,
    avoid: Set<Seq<char>>,
    path: Seq<char>,
)
    requires
        from.contains(path),
        !avoid.contains(path),
    ensures
        reach(cache, from, avoid).contains(path),
{
    let walk = seq![path];
    assert(leads(cache, from, avoid, walk, path));
}

/// What the record of a reached node names is reached too, unless it must
/// be avoided.
pub proof fn lemma_reach_step(
    cache: CacheView,
    from: Set<Seq<char>>,
    avoid: Set<Seq<char>>,
    path: Seq<char>,
    next: Seq<char>,
)
    requires
        reach(cache, from, avoid).contains(path),
        links(cache, path).contains(next),
        !avoid.contains(next),
    ensures
        reach(cache, from, avoid).contains(next),
{
    let walk = choose|walk: Seq<Seq<char>>| leads(cache, from, avoid, walk, path);
    let longer = walk.push(next);
    assert forall|i: int| 0 <= i < longer.len() - 1 implies #[trigger] linked(cache, longer, i) by {
        if i < walk.len() - 1 {
            assert(linked(cache, walk, i));
        }
    }
    assert forall|i: int| 0 <= i < longer.len() implies !avoid.contains(#[trigger] longer[i]) by {
        if i < walk.len() {
            assert(longer[i] == walk[i]);
        }
    }
    assert(leads(cache, from, avoid, longer, next));
}

/// Whether `inside` holds every starting point in `from` and whatever the
/// record of one of its nodes names, but for the nodes in `avoid`.
pub open spec fn closed(
    cache: CacheView,
    from: Set<Seq<char>>,
    avoid: Set<Seq<char>>,
    inside: Set<Seq<char>>,
) -> bool {
    &&& forall|p: Seq<char>| from.contains(p) && !avoid.contains(p) ==> inside.contains(p)
    &&& forall|p: Seq<char>, q: Seq<char>|
        inside.contains(p) && !avoid.contains(p) && #[trigger] links(cache, p).contains(q)
            && !avoid.contains(q) ==> inside.contains(q)
}

proof fn lemma_walk_inside(
    cache: CacheView,
    from: Set<Seq<char>>,
    avoid: Set<Seq<char>>,
    inside: Set<Seq<char>>,
    walk: Seq<Seq<char>>,
    i: int,
)
    requires
        closed(cache, from, avoid, inside),
        is_walk(cache, walk),
        from.contains(walk[0]),
        avoids(walk, avoid),
        0 <= i < walk.len(),
    ensures
        inside.contains(walk[i]),
    decreases i,
{
    if i > 0 {
        lemma_walk_inside(cache, from, avoid, inside, walk, i - 1);
        assert(linked(cache, walk, i - 1));
        assert(!avoid.contains(walk[i - 1]));
        assert(!avoid.contains(walk[i]));
    } else {
        assert(!avoid.contains(walk[0]));
    }
}

/// What is reached lies in every closed set: it is the least one.
pub proof fn lemma_reach_least(
    cache: CacheView,
    from: Set<Seq<char>>,
    avoid: Set<Seq<char>>,
    inside: Set<Seq<char>>,
)
    requires
        closed(cache, from, avoid, inside),
    ensures
        reach(cache, from, avoid).subset_of(inside),
{
    assert forall|to: Seq<char>| reach(cache, from, avoid).contains(to) implies inside.contains(
        to,
    ) by {
        let walk = choose|walk: Seq<Seq<char>>| leads(cache, from, avoid, walk, to);
        lemma_walk_inside(cache, from, avoid, inside, walk, walk.len() - 1);
    }
}

/// What is reached is closed.
pub proof fn lemma_reach_closed(cache: CacheView, from: Set<Seq<char>>, avoid: Set<Seq<char>>)
    ensures
        closed(cache, from, avoid, reach(cache, from, avoid)),
{
    let r = reach(cache, from, avoid);
    assert forall|p: Seq<char>| from.contains(p) && !avoid.contains(p) implies r.contains(p) by {
        lemma_reach_start(cache, from, avoid, p);
    }
    assert forall|p: Seq<char>, q: Seq<char>|
        r.contains(p) && !avoid.contains(p) && #[trigger] links(cache, p).contains(q)
            && !avoid.contains(q) implies r.contains(q) by {
        lemma_reach_step(cache, from, avoid, p, q);
    }
}

/// Expanding the closure again adds nothing: what is reachable from the
/// reachable nodes is what was reachable from the seeds.
pub proof fn lemma_reachable_idempotent(cache: CacheView, seeds: Set<Seq<char>>)
    ensures
        reachable(cache, reachable(cache, seeds)) == reachable(cache, seeds),
{
    let none = Set::<Seq<char>>::empty();
    let first = reach(cache, seeds, none);
    let second = reach(cache, first, none);
    lemma_reach_closed(cache, seeds, none);
    lemma_reach_closed(cache, first, none);
    assert(closed(cache, first, none, first));
    lemma_reach_least(cache, first, none, first);
    assert(first =~= second);
    assert(reachable(cache, seeds) =~= first);
    assert(reachable(cache, first) =~= second);
}

/// What is reachable depends on the seeds as a set only: two lists of
/// seeds with the same members reach the same nodes, in whatever order
/// and however often each lists a seed.
pub proof fn lemma_reachable_of_members(
    cache: CacheView,
    seeds: Seq<Seq<char>>,
    others: Seq<Seq<char>>,
)
    requires
        forall|p: Seq<char>| seeds.contains(p) <==> others.contains(p),
    ensures
        reachable(cache, seeds.to_set()) == reachable(cache, others.to_set()),
{
    assert(seeds.to_set() =~= others.to_set());
}

/// Every seed is reachable.
pub proof fn lemma_seeds_reachable(cache: CacheView, seeds: Set<Seq<char>>)
    ensures
        seeds.subset_of(reachable(cache, seeds)),
{
    assert forall|p: Seq<char>| seeds.contains(p) implies reachable(cache, seeds).contains(p) by {
        lemma_reach_start(cache, seeds, Set::empty(), p);
    }
}

/// More seeds reach no less.
pub proof fn lemma_reachable_monotone(
    cache: CacheView,
    seeds: Set<Seq<char>>,
    more: Set<Seq<char>>,
)
    requires
        seeds.subset_of(more),
    ensures
        reachable(cache, seeds).subset_of(reachable(cache, more)),
{
    let none = Set::<Seq<char>>::empty();
    lemma_reach_closed(cache, more, none);
    lemma_reach_least(cache, seeds, none, reach(cache, more, none));
}

/// What two sets of seeds reach together is what the one reaches and what
/// the other reaches.
pub proof fn lemma_reachable_union(cache: CacheView, a: Set<Seq<char>>, b: Set<Seq<char>>)
    ensures
        reachable(cache, a + b) == reachable(cache, a) + reachable(cache, b),
{
    let none = Set::<Seq<char>>::empty();
    lemma_reachable_monotone(cache, a, a + b);
    lemma_reachable_monotone(cache, b, a + b);
    lemma_reach_closed(cache, a, none);
    lemma_reach_closed(cache, b, none);
    let both = reach(cache, a, none) + reach(cache, b, none);
    assert(closed(cache, a + b, none, both));
    lemma_reach_least(cache, a + b, none, both);
    assert(reachable(cache, a + b) =~= reachable(cache, a) + reachable(cache, b));
}

/// From finitely many seeds, over finitely many records, finitely many
/// nodes are reachable: each is a seed or is named by a record.
pub proof fn lemma_reachable_finite(cache: CacheView, seeds: Set<Seq<char>>)
    requires
        seeds.finite(),
        cache.records.dom().finite(),
    ensures
        reachable(cache, seeds).subset_of(seeds + named(cache)),
        reachable(cache, seeds).finite(),
{
    let none = Set::<Seq<char>>::empty();
    lemma_named(cache);
    let all = seeds + named(cache);
    assert(closed(cache, seeds, none, all));
    lemma_reach_least(cache, seeds, none, all);
    assert(reachable(cache, seeds) =~= reach(cache, seeds, none));
    vstd::set_lib::lemma_set_subset_finite(all, reachable(cache, seeds));
}

/// A node whose record names nothing is a leaf: the closure of the node
/// alone is the node alone.
pub proof fn lemma_leaf(cache: CacheView, path: Seq<char>)
    requires
        links(cache, path).len() == 0,
    ensures
        reachable(cache, set![path]) == set![path],
{
    let none = Set::<Seq<char>>::empty();
    let only = set![path];
    assert(closed(cache, only, none, only));
    lemma_reach_least(cache, only, none, only);
    lemma_reach_start(cache, only, none, path);
    assert(reachable(cache, only) =~= only);
}

/// Two nodes whose records name each other and nothing else are the
/// closure of either.
pub proof fn lemma_cycle(cache: CacheView, a: Seq<char>, b: Seq<char>)
    requires
        links(cache, a) == seq![b],
        links(cache, b) == seq![a],
    ensures
        reachable(cache, set![a]) == set![a, b],
{
    let none = Set::<Seq<char>>::empty();
    let both = set![a, b];
    assert(closed(cache, set![a], none, both)) by {
        assert forall|p: Seq<char>, q: Seq<char>|
            both.contains(p) && #[trigger] links(cache, p).contains(q) implies both.contains(
            q,
        ) by {
            let i = choose|i: int| 0 <= i < links(cache, p).len() && links(cache, p)[i] == q;
        }
    }
    lemma_reach_least(cache, set![a], none, both);
    lemma_reach_start(cache, set![a], none, a);
    assert(links(cache, a)[0] == b);
    lemma_reach_step(cache, set![a], none, a, b);
    assert(reachable(cache, set![a]) =~= both);
}

/// A node whose record cannot be had is a leaf.
pub proof fn lemma_missing_record(cache: CacheView, path: Seq<char>)
    requires
        cache.by_store_path(path) is Err,
    ensures
        reachable(cache, set![path]) == set![path],
{
    lemma_leaf(cache, path);
}

/// What some record held in the cache names, each path by what
/// identifies it.
pub open spec fn named(cache: CacheView) -> Set<Seq<char>> {
    cache.records.dom().map(
        |key: Seq<char>|
            cache.records[key].successors(cache.store).map_values(
                |path: Seq<char>| ident(cache.store, path),
            ).to_set(),
    ).flatten()
}

/// A cache that holds finitely many records names finitely many nodes, and
/// every node that a link leads to is among them.
pub proof fn lemma_named(cache: CacheView)
    requires
        cache.records.dom().finite(),
    ensures
        named(cache).finite(),
        forall|p: Seq<char>, q: Seq<char>| #[trigger]
            links(cache, p).contains(q) ==> named(cache).contains(q),
{
    let names = |key: Seq<char>|
        cache.records[key].successors(cache.store).map_values(
            |path: Seq<char>| ident(cache.store, path),
        ).to_set();
    let sets = cache.records.dom().map(names);
    cache.records.dom().lemma_map_finite(names);
    assert forall|s: Set<Seq<char>>| sets.contains(s) implies #[trigger] s.finite() by {
        let key = choose|key: Seq<char>| cache.records.dom().contains(key) && s == names(key);
        seq_to_set_is_finite(
            cache.records[key].successors(cache.store).map_values(
                |path: Seq<char>| ident(cache.store, path),
            ),
        );
    }
    sets.lemma_flatten_finite();
    assert forall|p: Seq<char>, q: Seq<char>| #[trigger]
        links(cache, p).contains(q) implies named(cache).contains(q) by {
        let key = narinfo_path(cache.path, hash_part(cache.store, p));
        assert(cache.records.dom().contains(key));
        assert(sets.contains(names(key)));
        assert(names(key).contains(q));
    }
}

} // verus!
