//! Metadata records of a binary cache and the table that memoizes them.
//!
//! The record of the store path with hash `<hash>` is the text file
//! `<cache>/<hash>.narinfo`, one `Key: value` field per line. The cache
//! never reads a file itself: the caller reads and hands the text over.

use crate::error::CacheError;
use crate::path_set::PathSet;
use crate::narinfo::{parse, record_fields, values_view};
use crate::store_path::{child, hash_part, is_store_path, StoreDir};
use crate::text::{chars_of, decimal_u64, parse_decimal, split_tokens, tokens};
use std::rc::Rc;
use vstd::hash_map::StringHashMap;
use vstd::prelude::*;

verus! {

/// `Rc::clone` makes another pointer to the same value.
#[verifier::external_body]
fn share(fields: &Rc<StringHashMap<String>>) -> (shared: Rc<StringHashMap<String>>)
    ensures
        shared == *fields,
{
    Rc::clone(fields)
}

/// A metadata record as plain values.
pub struct InfoView {
    /// Path of the file that holds the record.
    pub path: Seq<char>,
    /// The fields of the record by key.
    pub fields: Map<Seq<char>, Seq<char>>,
}

impl InfoView {
    /// The value of the field `key`, or the empty string if the record has
    /// no such field.
    pub open spec fn value(self, key: Seq<char>) -> Seq<char> {
        if self.fields.contains_key(key) {
            self.fields[key]
        } else {
            Seq::empty()
        }
    }

    /// The store path that this record was built from, as
    /// `<hash>-<name>.drv`, if one is recorded.
    pub open spec fn deriver(self) -> Option<Seq<char>> {
        if self.value("Deriver"@).len() == 0 {
            None
        } else {
            Some(self.value("Deriver"@))
        }
    }

    /// The store paths that this record refers to, each as `<hash>-<name>`.
    pub open spec fn references(self) -> Seq<Seq<char>> {
        tokens(self.value("References"@), ' ')
    }

    /// Where the archive lies, relative to the cache, if the record says.
    pub open spec fn url(self) -> Option<Seq<char>> {
        if self.fields.contains_key("URL"@) {
            Some(self.fields["URL"@])
        } else {
            None
        }
    }

    /// Size of the archive file in bytes, if the record states one as a
    /// decimal number of at most 64 bits.
    pub open spec fn file_size(self) -> Option<u64> {
        decimal_u64(self.value("FileSize"@))
    }

    /// What the record adds to a sum of archive file sizes: the size it
    /// states, or nothing if it states none that can be read.
    pub open spec fn counted_file_size(self) -> nat {
        match self.file_size() {
            Some(size) => size as nat,
            None => 0,
        }
    }

    /// What the record adds to a sum of unpacked sizes: the size it
    /// states, or nothing if it states none that can be read.
    pub open spec fn counted_nar_size(self) -> nat {
        match self.nar_size() {
            Some(size) => size as nat,
            None => 0,
        }
    }

    /// Size of the unpacked archive in bytes, if the record states one as
    /// a decimal number of at most 64 bits.
    pub open spec fn nar_size(self) -> Option<u64> {
        decimal_u64(self.value("NarSize"@))
    }

    /// The paths below `store` that this record names: its references in
    /// their order, then its deriver if it has one.
    pub open spec fn successors(self, store: Seq<char>) -> Seq<Seq<char>> {
        let references = self.references().map_values(|name: Seq<char>| child(store, name));
        match self.deriver() {
            Some(deriver) => references.push(child(store, deriver)),
            None => references,
        }
    }
}

/// The metadata record of one store path.
pub struct Info {
    /// Path of the file that holds the record.
    pub path: String,
    /// The fields of the record by key.
    pub fields: Rc<StringHashMap<String>>,
}

impl View for Info {
    type V = InfoView;

    open spec fn view(&self) -> InfoView {
        InfoView {
            path: self.path@,
            fields: values_view(self.fields@),
        }
    }
}

impl Clone for Info {
    fn clone(&self) -> (copy: Self)
        ensures
            copy@ == self@,
    {
        Info { path: self.path.clone(), fields: share(&self.fields) }
    }
}

impl Info {
    /// The record that the file at `path` holds, given the text of the
    /// file.
    pub fn open(path: &str, text: &str) -> (info: Self)
        ensures
            info@.path == path@,
            info@.fields == record_fields(text@),
    {
        let fields = parse(text);
        let info = Info { path: path.to_owned(), fields: Rc::new(fields) };
        assert(info@.fields =~= record_fields(text@));
        info
    }

    /// The value of the field `key`, or the empty string if the record has
    /// no such field.
    pub fn value(&self, key: &str) -> (value: &str)
        ensures
            value@ == self@.value(key@),
    {
        match self.fields.get(key) {
            Some(value) => value.as_str(),
            None => {
                proof {
                    reveal_strlit("");
                }
                ""
            },
        }
    }

    /// The store path that this record was built from, as
    /// `<hash>-<name>.drv`, if one is recorded.
    pub fn deriver(&self) -> (deriver: Option<&str>)
        ensures
            match deriver {
                Some(d) => self@.deriver() == Some(d@),
                None => self@.deriver() is None,
            },
    {
        let deriver = self.value("Deriver");
        if deriver.is_empty() {
            None
        } else {
            Some(deriver)
        }
    }

    /// Where the archive lies, relative to the cache, if the record says.
    pub fn url(&self) -> (url: Option<&str>)
        ensures
            match url {
                Some(u) => self@.url() == Some(u@),
                None => self@.url() is None,
            },
    {
        match self.fields.get("URL") {
            Some(url) => Some(url.as_str()),
            None => None,
        }
    }

    /// Size of the archive file in bytes, if the record states one as a
    /// decimal number of at most 64 bits.
    pub fn file_size(&self) -> (size: Option<u64>)
        ensures
            size == self@.file_size(),
    {
        let chars = chars_of(self.value("FileSize"));
        parse_decimal(&chars)
    }

    /// Size of the unpacked archive in bytes, if the record states one as
    /// a decimal number of at most 64 bits.
    pub fn nar_size(&self) -> (size: Option<u64>)
        ensures
            size == self@.nar_size(),
    {
        let chars = chars_of(self.value("NarSize"));
        parse_decimal(&chars)
    }

    /// The store paths that this record refers to, each as `<hash>-<name>`.
    pub fn references(&self) -> (references: Vec<String>)
        ensures
            references.deep_view() == self@.references(),
    {
        let chars = chars_of(self.value("References"));
        split_tokens(&chars, ' ')
    }
}

/// A cache as plain values.
pub struct CacheView {
    /// The directory of the cache.
    pub path: Seq<char>,
    /// The store directory.
    pub store: Seq<char>,
    /// The records that are held, by the path of their file.
    pub records: Map<Seq<char>, InfoView>,
}

/// Path of the file that holds the record of `hash` in the cache at `dir`.
pub open spec fn narinfo_path(dir: Seq<char>, hash: Seq<char>) -> Seq<char> {
    child(dir, hash + ".narinfo"@)
}

impl CacheView {
    /// The cache seen from the store at `store`.
    pub open spec fn under(self, store: Seq<char>) -> CacheView {
        CacheView { store, ..self }
    }

    /// Whether each record lies in the file under whose path it is held.
    pub open spec fn consistent(self) -> bool {
        forall|key: Seq<char>| #[trigger]
            self.records.contains_key(key) ==> self.records[key].path == key
    }

    /// The record of `hash`: the one held under the path of its file.
    pub open spec fn by_hash(self, hash: Seq<char>) -> Result<InfoView, CacheError> {
        if self.records.contains_key(narinfo_path(self.path, hash)) {
            Ok(self.records[narinfo_path(self.path, hash)])
        } else {
            Err(CacheError::NotFound)
        }
    }

    /// The record of the store path `path`: that of its hash.
    pub open spec fn by_store_path(self, path: Seq<char>) -> Result<InfoView, CacheError> {
        if is_store_path(self.store, path) {
            self.by_hash(hash_part(self.store, path))
        } else {
            Err(CacheError::InvalidStorePath)
        }
    }
}

/// What a lookup gave, as plain values.
pub open spec fn lookup_view(r: Result<Info, CacheError>) -> Result<InfoView, CacheError> {
    match r {
        Ok(info) => Ok(info@),
        Err(e) => Err(e),
    }
}

/// The records of a binary cache that were read so far.
pub struct BinaryCache {
    path: String,
    store: StoreDir,
    keys: PathSet,
    infos: Vec<Info>,
}

impl View for BinaryCache {
    type V = CacheView;

    closed spec fn view(&self) -> CacheView {
        CacheView {
            path: self.path@,
            store: self.store@,
            records: Map::new(
                |key: Seq<char>| self.keys@.contains(key),
                |key: Seq<char>| self.infos@[self.keys.spec_position(key)]@,
            ),
        }
    }
}

impl BinaryCache {
    /// Each record is held under the path of its file.
    pub closed spec fn wf(&self) -> bool {
        &&& self.keys.wf()
        &&& self.infos@.len() == self.keys.order().len()
        &&& forall|i: int|
            0 <= i < self.infos@.len() ==> (#[trigger] self.infos@[i])@.path == self.keys.order()[i]
    }

    /// A table holds finitely many records.
    pub proof fn lemma_finite(&self)
        requires
            self.wf(),
        ensures
            self@.records.dom().finite(),
    {
        self.keys.lemma_order();
        assert(self@.records.dom() =~= self.keys@);
    }

    /// Each record lies in the file under whose path it is held.
    pub proof fn lemma_records(&self)
        requires
            self.wf(),
        ensures
            self@.consistent(),
    {
        self.keys.lemma_order();
    }

    /// An empty table for the cache at `path` and the store at
    /// `/nix/store`.
    pub fn new(path: &str) -> (cache: Self)
        ensures
            cache.wf(),
            cache@ == (CacheView { path: path@, store: "/nix/store"@, records: Map::empty() }),
    {
        BinaryCache::with_store(path, StoreDir::nix())
    }

    /// An empty table for the cache at `path` and the store `store`.
    pub fn with_store(path: &str, store: StoreDir) -> (cache: Self)
        ensures
            cache.wf(),
            cache@ == (CacheView { path: path@, store: store@, records: Map::empty() }),
    {
        let cache = BinaryCache {
            path: path.to_owned(),
            store,
            keys: PathSet::new(),
            infos: Vec::new(),
        };
        assert(cache@.records =~= Map::empty());
        cache
    }

    /// The directory of the cache.
    pub fn path(&self) -> (path: &str)
        ensures
            path@ == self@.path,
    {
        self.path.as_str()
    }

    /// The store directory.
    pub fn store(&self) -> (store: &StoreDir)
        ensures
            store@ == self@.store,
    {
        &self.store
    }

    /// The path of `name` below the directory of the cache.
    pub fn join(&self, name: &str) -> (path: String)
        ensures
            path@ == child(self@.path, name@),
    {
        let mut path = self.path.clone();
        path.push('/');
        path.append(name);
        path
    }

    /// Path of the file that holds the record of `hash`.
    pub fn narinfo_path(&self, hash: &str) -> (path: String)
        ensures
            path@ == narinfo_path(self@.path, hash@),
    {
        let mut path = self.path.clone();
        path.push('/');
        path.append(hash);
        path.append(".narinfo");
        assert(path@ =~= narinfo_path(self@.path, hash@));
        path
    }

    /// The record of the store path `path`. Fails with `InvalidStorePath`
    /// if `path` is not a store path, and with `NotFound` if no record is
    /// held for its hash.
    pub fn get_info_by_store_path(&self, path: &str) -> (r: Result<Info, CacheError>)
        requires
            self.wf(),
        ensures
            lookup_view(r) == self@.by_store_path(path@),
            r matches Ok(info) ==> info@.path == narinfo_path(
                self@.path,
                hash_part(self@.store, path@),
            ),
    {
        match self.store.hash_of(path) {
            Ok(hash) => self.get_info_by_hash(hash.as_str()),
            Err(e) => Err(e),
        }
    }

    /// The record of `hash`. Fails with `NotFound` if none is held.
    pub fn get_info_by_hash(&self, hash: &str) -> (r: Result<Info, CacheError>)
        requires
            self.wf(),
        ensures
            lookup_view(r) == self@.by_hash(hash@),
            r matches Ok(info) ==> info@.path == narinfo_path(self@.path, hash@),
    {
        proof {
            self.lemma_records();
        }
        let key = self.narinfo_path(hash);
        match self.keys.position(key.as_str()) {
            Some(i) => Ok(self.infos[i].clone()),
            None => Err(CacheError::NotFound),
        }
    }

    /// Takes in what reading the file of `hash` gave, unless a record of
    /// `hash` is held: a record that is held is never replaced, and is
    /// returned as it is. Else the text of a file that was read is parsed,
    /// and the record is held from then on and returned; a failure to read
    /// is handed back, and nothing changes.
    pub fn load(&mut self, hash: &str, file: Result<&str, CacheError>) -> (r: Result<
        Info,
        CacheError,
    >)
        requires
            old(self).wf(),
        ensures
            final(self).wf(),
            match (old(self)@.by_hash(hash@), file) {
                (Ok(held), _) => lookup_view(r) == Ok::<InfoView, CacheError>(held) && final(self)@
                    == old(self)@,
                (Err(_), Ok(text)) => {
                    let info = InfoView {
                        path: narinfo_path(old(self)@.path, hash@),
                        fields: record_fields(text@),
                    };
                    &&& lookup_view(r) == Ok::<InfoView, CacheError>(info)
                    &&& final(self)@ == (CacheView {
                        records: old(self)@.records.insert(info.path, info),
                        ..old(self)@
                    })
                },
                (Err(_), Err(e)) => r == Err::<Info, CacheError>(e) && final(self)@ == old(self)@,
            },
    {
        let key = self.narinfo_path(hash);
        proof {
            self.keys.lemma_order();
        }
        match self.keys.position(key.as_str()) {
            Some(i) => Ok(self.infos[i].clone()),
            None => match file {
                Ok(text) => {
                    let info = Info::open(key.as_str(), text);
                    let copy = info.clone();
                    self.keys.insert(key);
                    self.infos.push(info);
                    proof {
                        self.keys.lemma_order();
                        assert(self@.records =~= old(self)@.records.insert(copy@.path, copy@));
                    }
                    Ok(copy)
                },
                Err(e) => Err(e),
            },
        }
    }
}

} // verus!
