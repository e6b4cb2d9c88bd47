//! Paths below the store directory.
//!
//! A store path has the form `<store>/<hash>-<name>`, where the hash is a
//! token of fixed width. The hash identifies the path; the name is carried
//! along but never compared.

use crate::error::CacheError;
use crate::text::{
    chars_of, find_char, has_at, index_of_char, lemma_find_char, lemma_find_char_at, string_of,
};
use vstd::prelude::*;

verus! {

/// Number of characters of the hash in a store path.
pub const HASH_LEN: usize = 32;

/// `dir`, a slash, and `name`.
pub open spec fn child(dir: Seq<char>, name: Seq<char>) -> Seq<char> {
    dir + seq!['/'] + name
}

/// Whether `path` is the store directory `store` or lies below it.
pub open spec fn in_store(store: Seq<char>, path: Seq<char>) -> bool {
    &&& store.len() <= path.len()
    &&& path.subrange(0, store.len() as int) == store
    &&& (path.len() == store.len() || path[store.len() as int] == '/')
}

/// Whether `path` lies below `store` and is long enough to hold a hash
/// right after the store directory.
pub open spec fn is_store_path(store: Seq<char>, path: Seq<char>) -> bool {
    &&& store.len() + 1 + HASH_LEN <= path.len()
    &&& path.subrange(0, store.len() as int) == store
    &&& path[store.len() as int] == '/'
}

/// The hash of a store path: the `HASH_LEN` characters after the store
/// directory and its slash.
pub open spec fn hash_part(store: Seq<char>, path: Seq<char>) -> Seq<char> {
    path.subrange(store.len() as int + 1, store.len() as int + 1 + HASH_LEN as int)
}

/// `path` cut after its first component below `store`. A path that has no
/// deeper component is kept whole.
pub open spec fn top_level(store: Seq<char>, path: Seq<char>) -> Seq<char> {
    path.subrange(0, find_char(path, '/', store.len() as int + 1))
}

/// Whether `path` lies below `store` and begins there with a component
/// that is not empty.
pub open spec fn below_store(store: Seq<char>, path: Seq<char>) -> bool {
    &&& store.len() + 1 < path.len()
    &&& path.subrange(0, store.len() as int) == store
    &&& path[store.len() as int] == '/'
    &&& path[store.len() as int + 1] != '/'
}

/// Whether `path` is an entry of the store: the store, a slash, and one
/// component that is not empty.
pub open spec fn is_entry(store: Seq<char>, path: Seq<char>) -> bool {
    &&& below_store(store, path)
    &&& forall|i: int| store.len() < i < path.len() ==> path[i] != '/'
}

/// What identifies `path`: for a store path the store directory with its
/// hash, without the name; any other path stands for itself.
pub open spec fn ident(store: Seq<char>, path: Seq<char>) -> Seq<char> {
    if is_store_path(store, path) {
        path.subrange(0, store.len() as int + 1 + HASH_LEN as int)
    } else {
        path
    }
}

/// What identifies a store path is a store path with the same hash, and
/// identifies itself. Two store paths are identified alike if and only if
/// their hashes are the same. What identifies another path is no store
/// path.
pub proof fn lemma_ident(store: Seq<char>, path: Seq<char>)
    ensures
        is_store_path(store, ident(store, path)) == is_store_path(store, path),
        is_store_path(store, path) ==> hash_part(store, ident(store, path)) == hash_part(
            store,
            path,
        ),
        is_store_path(store, path) ==> ident(store, path) == child(store, hash_part(store, path)),
        ident(store, ident(store, path)) == ident(store, path),
{
    if is_store_path(store, path) {
        let id = ident(store, path);
        assert(id.subrange(0, store.len() as int) == path.subrange(0, store.len() as int));
        assert(hash_part(store, id) == hash_part(store, path));
        assert(id == child(store, hash_part(store, path)));
        assert(id.subrange(0, id.len() as int) == id);
    }
}

/// Two store paths are identified alike if and only if their hashes are
/// the same.
pub proof fn lemma_ident_by_hash(store: Seq<char>, p: Seq<char>, q: Seq<char>)
    requires
        is_store_path(store, p),
        is_store_path(store, q),
    ensures
        ident(store, p) == ident(store, q) <==> hash_part(store, p) == hash_part(store, q),
{
    lemma_ident(store, p);
    lemma_ident(store, q);
}

/// Cutting a path below the store gives an entry of the store, which
/// cutting leaves as it is.
pub proof fn lemma_top_level_entry(store: Seq<char>, path: Seq<char>)
    requires
        below_store(store, path),
    ensures
        is_entry(store, top_level(store, path)),
        top_level(store, top_level(store, path)) == top_level(store, path),
        top_level(store, path).is_prefix_of(path),
{
    let from = store.len() as int + 1;
    let top = top_level(store, path);
    lemma_find_char(path, '/', from);
    assert(top.subrange(0, store.len() as int) == path.subrange(0, store.len() as int));
    assert forall|i: int| store.len() < i < top.len() implies top[i] != '/' by {
        assert(top[i] == path[i]);
    }
    lemma_find_char_at(top, '/', from, top.len() as int);
    assert(top.subrange(0, top.len() as int) == top);
}

/// The paths of `paths` that are no store paths, in their order.
pub open spec fn invalid_among(store: Seq<char>, paths: Seq<Seq<char>>) -> Seq<Seq<char>> {
    paths.filter(|path: Seq<char>| !is_store_path(store, path))
}

/// A path is among the invalid ones if and only if it is one of the paths
/// and no store path.
pub proof fn lemma_invalid_among(store: Seq<char>, paths: Seq<Seq<char>>)
    ensures
        forall|p: Seq<char>| #[trigger]
            invalid_among(store, paths).contains(p) <==> paths.contains(p) && !is_store_path(
                store,
                p,
            ),
{
    broadcast use vstd::seq_lib::group_filter_ensures;

    let f = |path: Seq<char>| !is_store_path(store, path);
    assert forall|p: Seq<char>| #[trigger]
        invalid_among(store, paths).contains(p) <==> paths.contains(p) && !is_store_path(
            store,
            p,
        ) by {
        if paths.filter(f).contains(p) {
            paths.lemma_filter_contains_rev(f, p);
            let j = choose|j: int| 0 <= j < paths.filter(f).len() && paths.filter(f)[j] == p;
            assert(f(paths.filter(f)[j]));
        }
        if paths.contains(p) && f(p) {
            let i = choose|i: int| 0 <= i < paths.len() && paths[i] == p;
            assert(paths.filter(f).contains(paths[i]));
        }
    }
}

/// Every store path lies in the store.
pub proof fn lemma_store_path_in_store(store: Seq<char>, path: Seq<char>)
    requires
        is_store_path(store, path),
    ensures
        in_store(store, path),
{
}

/// Cutting a path in the store keeps it in the store, keeps its hash, and
/// leaves nothing more to cut.
pub proof fn lemma_top_level(store: Seq<char>, path: Seq<char>)
    requires
        in_store(store, path),
    ensures
        in_store(store, top_level(store, path)),
        top_level(store, path).is_prefix_of(path),
        top_level(store, top_level(store, path)) == top_level(store, path),
        forall|i: int|
            store.len() < i < top_level(store, path).len() ==> top_level(store, path)[i] != '/',
{
    let from: int = store.len() as int + 1;
    let cut = find_char(path, '/', from);
    let top = top_level(store, path);
    if from <= path.len() {
        lemma_find_char(path, '/', from);
        assert(top.subrange(0, store.len() as int) =~= path.subrange(0, store.len() as int));
        lemma_find_char(top, '/', from);
        let again = find_char(top, '/', from);
        if again < top.len() {
            assert(top[again] == path[again]);
        }
        assert(top.subrange(0, top.len() as int) =~= top);
    } else {
        assert(path.subrange(0, path.len() as int) =~= path);
    }
}

/// Whatever lies below the store path `<store>/<name>`, and the store path
/// itself, is cut to that store path.
pub proof fn lemma_top_level_of_child(store: Seq<char>, name: Seq<char>, deeper: Seq<char>)
    requires
        !name.contains('/'),
    ensures
        top_level(store, child(store, name)) == child(store, name),
        top_level(store, child(child(store, name), deeper)) == child(store, name),
        in_store(store, child(child(store, name), deeper)),
{
    let top = child(store, name);
    let from = store.len() as int + 1;
    assert forall|j: int| from <= j < top.len() implies top[j] != '/' by {
        assert(top[j] == name[j - from]);
        assert(name.contains(name[j - from]));
    }
    lemma_find_char_at(top, '/', from, top.len() as int);
    assert(top.subrange(0, top.len() as int) == top);
    let path = child(top, deeper);
    assert forall|j: int| from <= j < top.len() implies path[j] != '/' by {
        assert(path[j] == top[j]);
    }
    assert(path[top.len() as int] == '/');
    lemma_find_char_at(path, '/', from, top.len() as int);
    assert(path.subrange(0, top.len() as int) == top);
    assert(path.subrange(0, store.len() as int) == store);
}

/// The hash of a store path is the start of its name.
pub proof fn lemma_hash_of_child(store: Seq<char>, name: Seq<char>)
    requires
        name.len() >= HASH_LEN,
    ensures
        is_store_path(store, child(store, name)),
        hash_part(store, child(store, name)) == name.subrange(0, HASH_LEN as int),
{
    let path = child(store, name);
    assert(path.subrange(0, store.len() as int) == store);
    assert(hash_part(store, path) == name.subrange(0, HASH_LEN as int));
}

/// The store directory.
pub struct StoreDir {
    chars: Vec<char>,
}

impl View for StoreDir {
    type V = Seq<char>;

    closed spec fn view(&self) -> Seq<char> {
        self.chars@
    }
}

impl StoreDir {
    /// The store directory at `root`.
    pub fn new(root: &str) -> (s: Self)
        ensures
            s@ == root@,
    {
        StoreDir { chars: chars_of(root) }
    }

    /// The store directory of a standard installation, `/nix/store`.
    pub fn nix() -> (s: Self)
        ensures
            s@ == "/nix/store"@,
    {
        StoreDir::new("/nix/store")
    }

    /// The directory as a string.
    pub fn root(&self) -> (s: String)
        ensures
            s@ == self@,
    {
        let s = string_of(&self.chars, 0, self.chars.len());
        assert(self.chars@.subrange(0, self.chars@.len() as int) =~= self.chars@);
        s
    }

    /// Whether `path` is the store directory or lies below it.
    pub fn contains(&self, path: &str) -> (b: bool)
        ensures
            b == in_store(self@, path@),
    {
        let p = chars_of(path);
        let n = self.chars.len();
        has_at(&p, &self.chars, 0) && (p.len() == n || p[n] == '/')
    }

    /// Whether `path` lies below the store and begins there with a
    /// component that is not empty.
    pub fn is_below(&self, path: &str) -> (b: bool)
        ensures
            b == below_store(self@, path@),
    {
        let p = chars_of(path);
        let n = self.chars.len();
        p.len() > n && p.len() - n > 1 && has_at(&p, &self.chars, 0) && p[n] == '/' && p[n + 1]
            != '/'
    }

    /// What identifies `path`: for a store path the store directory with
    /// its hash, any other path itself.
    pub fn ident(&self, path: &str) -> (id: String)
        ensures
            id@ == ident(self@, path@),
    {
        let p = chars_of(path);
        let n = self.chars.len();
        if p.len() >= n && p.len() - n > HASH_LEN && has_at(&p, &self.chars, 0) && p[n] == '/' {
            string_of(&p, 0, n + 1 + HASH_LEN)
        } else {
            assert(p@.subrange(0, p@.len() as int) =~= p@);
            string_of(&p, 0, p.len())
        }
    }

    /// Whether `path` is long enough to name a hash below the store.
    pub fn is_store_path(&self, path: &str) -> (b: bool)
        ensures
            b == is_store_path(self@, path@),
    {
        let p = chars_of(path);
        let n = self.chars.len();
        p.len() >= n && p.len() - n > HASH_LEN && has_at(&p, &self.chars, 0) && p[n] == '/'
    }

    /// The hash of the store path `path`.
    pub fn hash_of(&self, path: &str) -> (r: Result<String, CacheError>)
        ensures
            r matches Ok(hash) ==> is_store_path(self@, path@) && hash@ == hash_part(self@, path@),
            r matches Err(e) ==> !is_store_path(self@, path@) && e == CacheError::InvalidStorePath,
    {
        let p = chars_of(path);
        let n = self.chars.len();
        if p.len() >= n && p.len() - n > HASH_LEN && has_at(&p, &self.chars, 0) && p[n] == '/' {
            Ok(string_of(&p, n + 1, n + 1 + HASH_LEN))
        } else {
            Err(CacheError::InvalidStorePath)
        }
    }

    /// The paths of `paths` that are no store paths, in their order: those
    /// for which a lookup fails with `InvalidStorePath`.
    pub fn invalid_among(&self, paths: &Vec<String>) -> (invalid: Vec<String>)
        ensures
            invalid.deep_view() == invalid_among(self@, paths.deep_view()),
            forall|p: Seq<char>| #[trigger]
                invalid.deep_view().contains(p) <==> paths.deep_view().contains(p)
                    && !is_store_path(self@, p),
    {
        let mut invalid: Vec<String> = Vec::new();
        let ghost all = paths.deep_view();
        let ghost f = |path: Seq<char>| !is_store_path(self@, path);
        let mut i: usize = 0;
        while i < paths.len()
            invariant
                i <= paths.len(),
                all == paths.deep_view(),
                f == |path: Seq<char>| !is_store_path(self@, path),
                invalid.deep_view() == all.subrange(0, i as int).filter(f),
            decreases paths.len() - i,
        {
            proof {
                let next = all.subrange(0, i + 1);
                assert(next.drop_last() == all.subrange(0, i as int));
                assert(next.last() == paths@[i as int]@);
                reveal(Seq::filter);
            }
            if !self.is_store_path(paths[i].as_str()) {
                let ghost before = invalid.deep_view();
                invalid.push(paths[i].clone());
                assert(invalid.deep_view() =~= before.push(paths@[i as int]@));
            }
            i += 1;
        }
        proof {
            assert(all.subrange(0, i as int) == all);
            assert(invalid.deep_view() == invalid_among(self@, paths.deep_view()));
            lemma_invalid_among(self@, paths.deep_view());
        }
        invalid
    }

    /// `path` cut after its first component below the store.
    pub fn top_level(&self, path: &str) -> (top: String)
        ensures
            top@ == top_level(self@, path@),
    {
        let p = chars_of(path);
        let n = self.chars.len();
        if p.len() <= n {
            assert(p@.subrange(0, p@.len() as int) =~= p@);
            string_of(&p, 0, p.len())
        } else {
            let cut = index_of_char(&p, '/', n + 1);
            string_of(&p, 0, cut)
        }
    }

    /// The path of `name` directly below the store.
    pub fn join(&self, name: &str) -> (path: String)
        ensures
            path@ == child(self@, name@),
    {
        let mut path = self.root();
        path.push('/');
        path.append(name);
        path
    }
}

} // verus!
