//! A set of paths that remembers the order in which its members arrived.

use vstd::hash_map::StringHashMap;
use vstd::prelude::*;

verus! {

/// A finite set of strings. Membership is answered through a hash index;
/// the members can be walked in the order of their first insertion.
pub struct PathSet {
    items: Vec<String>,
    index: StringHashMap<usize>,
}

impl View for PathSet {
    type V = Set<Seq<char>>;

    closed spec fn view(&self) -> Set<Seq<char>> {
        self.order().to_set()
    }
}

impl PathSet {
    /// The members, in the order of their first insertion.
    pub closed spec fn order(&self) -> Seq<Seq<char>> {
        Seq::new(self.items@.len(), |i: int| self.items@[i]@)
    }

    /// The index and the list of members agree.
    pub closed spec fn wf(&self) -> bool {
        &&& forall|i: int|
            0 <= i < self.order().len() ==> self.index@.contains_key(#[trigger] self.order()[i])
                && self.index@[self.order()[i]] == i
        &&& forall|k: Seq<char>| #[trigger]
            self.index@.contains_key(k) ==> self.index@[k] < self.order().len()
                && self.order()[self.index@[k] as int] == k
    }

    /// Position of `k` in `order()`, if it is a member.
    pub closed spec fn spec_position(&self, k: Seq<char>) -> int {
        self.index@[k] as int
    }

    /// A well-formed set lists each member once.
    pub proof fn lemma_order(&self)
        requires
            self.wf(),
        ensures
            self.order().no_duplicates(),
            self@.finite(),
            self@.len() == self.order().len(),
            forall|k: Seq<char>| self@.contains(k) <==> self.order().contains(k),
            forall|k: Seq<char>|
                self@.contains(k) ==> 0 <= self.spec_position(k) < self.order().len()
                    && self.order()[self.spec_position(k)] == k,
            forall|i: int|
                0 <= i < self.order().len() ==> self.spec_position(#[trigger] self.order()[i]) == i,
    {
        let o = self.order();
        assert forall|i: int, j: int| 0 <= i < o.len() && 0 <= j < o.len() && i != j implies o[i]
            != o[j] by {
            assert(self.index@[o[i]] == i);
            assert(self.index@[o[j]] == j);
        }
        o.unique_seq_to_set();
        assert forall|k: Seq<char>| self@.contains(k) implies 0 <= self.spec_position(k) < o.len()
            && o[self.spec_position(k)] == k by {
            let i = choose|i: int| 0 <= i < o.len() && o[i] == k;
            assert(self.index@.contains_key(o[i]));
        }
    }

    /// The empty set.
    pub fn new() -> (s: Self)
        ensures
            s.wf(),
            s@ == Set::<Seq<char>>::empty(),
            s.order() == Seq::<Seq<char>>::empty(),
    {
        let s = PathSet { items: Vec::new(), index: StringHashMap::new() };
        assert(s.order() =~= Seq::<Seq<char>>::empty());
        assert(s@ =~= Set::<Seq<char>>::empty());
        s
    }

    /// Number of members.
    pub fn len(&self) -> (n: usize)
        requires
            self.wf(),
        ensures
            n == self.order().len(),
            n == self@.len(),
    {
        proof {
            self.lemma_order();
        }
        self.items.len()
    }

    /// Whether `path` is a member.
    pub fn contains(&self, path: &str) -> (b: bool)
        requires
            self.wf(),
        ensures
            b == self@.contains(path@),
    {
        proof {
            self.lemma_order();
            if self.index@.contains_key(path@) {
                assert(self.order()[self.index@[path@] as int] == path@);
            }
        }
        self.index.contains_key(path)
    }

    /// Where `path` stands in the order of insertion.
    pub fn position(&self, path: &str) -> (at: Option<usize>)
        requires
            self.wf(),
        ensures
            at is Some <==> self@.contains(path@),
            at matches Some(i) ==> i < self.order().len() && self.order()[i as int] == path@ && i
                == self.spec_position(path@),
    {
        proof {
            self.lemma_order();
            if self.index@.contains_key(path@) {
                assert(self.order()[self.index@[path@] as int] == path@);
            }
        }
        match self.index.get(path) {
            Some(i) => Some(*i),
            None => None,
        }
    }

    /// Adds `path`. Returns whether it was new.
    pub fn insert(&mut self, path: String) -> (fresh: bool)
        requires
            old(self).wf(),
        ensures
            final(self).wf(),
            fresh == !old(self)@.contains(path@),
            final(self)@ == old(self)@.insert(path@),
            final(self).order() == if fresh {
                old(self).order().push(path@)
            } else {
                old(self).order()
            },
    {
        let ghost before = self.order();
        if self.contains(path.as_str()) {
            assert(self@ =~= old(self)@.insert(path@));
            return false;
        }
        proof {
            self.lemma_order();
        }
        let at = self.items.len();
        self.index.insert(path.clone(), at);
        self.items.push(path);
        proof {
            assert(self.order() =~= before.push(path@));
            assert forall|i: int| 0 <= i < self.order().len() implies self.index@.contains_key(
                #[trigger] self.order()[i],
            ) && self.index@[self.order()[i]] == i by {
                if i < before.len() {
                    assert(before[i] == self.order()[i]);
                    assert(before.contains(before[i]));
                }
            }
            assert forall|k: Seq<char>| #[trigger]
                self.index@.contains_key(k) implies self.index@[k] < self.order().len()
                && self.order()[self.index@[k] as int] == k by {
                if k != path@ {
                    assert(old(self).index@.contains_key(k));
                    assert(before[old(self).index@[k] as int] == k);
                }
            }
            assert(self@ =~= old(self)@.insert(path@)) by {
                assert forall|k: Seq<char>|
                    self@.contains(k) <==> old(self)@.insert(path@).contains(k) by {
                    if self@.contains(k) {
                        let i = choose|i: int| 0 <= i < self.order().len() && self.order()[i] == k;
                        if i < before.len() {
                            assert(before[i] == k);
                        }
                    }
                    if old(self)@.contains(k) {
                        let i = choose|i: int| 0 <= i < before.len() && before[i] == k;
                        assert(self.order()[i] == k);
                    }
                    if k == path@ {
                        assert(self.order()[before.len() as int] == k);
                    }
                }
            }
        }
        true
    }

    /// The members in the order of their first insertion.
    pub fn paths(&self) -> (paths: &Vec<String>)
        ensures
            paths.deep_view() == self.order(),
    {
        assert(self.items.deep_view() =~= self.order());
        &self.items
    }

    /// The member that arrived as number `i`.
    pub fn get(&self, i: usize) -> (path: &String)
        requires
            i < self.order().len(),
        ensures
            path@ == self.order()[i as int],
    {
        &self.items[i]
    }
}

} // verus!
