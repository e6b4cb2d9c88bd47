//! Planning the sweep: which files of the cache stay and which go.
//!
//! Every reachable store path whose record is held keeps two files: the
//! file of the record and the archive that the record points to. Whatever
//! else is present in the cache can be deleted.

use crate::binary_cache::{narinfo_path, BinaryCache, CacheView, Info, InfoView};
use crate::path_set::PathSet;
use crate::store_path::{child, hash_part, invalid_among, is_store_path};
use crate::text::{chars_of, has_at};
use vstd::prelude::*;

verus! {

/// The files to keep and their sizes, as plain values.
pub struct KeepView {
    /// Paths of the record files to keep.
    pub infos: Set<Seq<char>>,
    /// Paths of the archive files to keep.
    pub archives: Set<Seq<char>>,
    /// Sum of the sizes of the archive files.
    pub file_size: nat,
    /// Sum of the sizes of the unpacked archives.
    pub nar_size: nat,
}

/// Whether the record says where its archive lies.
pub open spec fn complete(info: InfoView) -> bool {
    info.url() is Some
}

impl KeepView {
    /// Nothing to keep.
    pub open spec fn empty() -> KeepView {
        KeepView { infos: Set::empty(), archives: Set::empty(), file_size: 0, nar_size: 0 }
    }

    /// `self` with the files and sizes of the complete record `info` in the
    /// cache at `dir`. A record whose file is kept already adds nothing:
    /// each record counts once. A size that the record does not state, or
    /// states in a way that cannot be read, adds nothing to the sums.
    pub open spec fn with(self, dir: Seq<char>, info: InfoView) -> KeepView {
        if self.infos.contains(info.path) {
            self
        } else {
            KeepView {
                infos: self.infos.insert(info.path),
                archives: self.archives.insert(child(dir, info.url()->Some_0)),
                file_size: self.file_size + info.counted_file_size(),
                nar_size: self.nar_size + info.counted_nar_size(),
            }
        }
    }

    /// Whether both sums fit in 64 bits.
    pub open spec fn fits(self) -> bool {
        self.file_size <= u64::MAX && self.nar_size <= u64::MAX
    }
}

/// What the store paths `paths` keep in `cache`: the files and sizes of
/// each record that is held, each record once. A path without a record
/// keeps nothing.
pub open spec fn kept(cache: CacheView, paths: Seq<Seq<char>>) -> KeepView
    decreases paths.len(),
{
    if paths.len() == 0 {
        KeepView::empty()
    } else {
        let before = kept(cache, paths.drop_last());
        match cache.by_store_path(paths.last()) {
            Ok(info) => before.with(cache.path, info),
            Err(_) => before,
        }
    }
}

/// Whether every record that is held for one of `paths` is complete.
pub open spec fn all_complete(cache: CacheView, paths: Seq<Seq<char>>) -> bool {
    forall|i: int|
        0 <= i < paths.len() ==> (#[trigger] cache.by_store_path(paths[i]) matches Ok(info)
            ==> complete(info))
}

/// Whether the record of the store path `path` is held and lies in the
/// file `file`.
pub open spec fn keeps_info(cache: CacheView, path: Seq<char>, file: Seq<char>) -> bool {
    cache.by_store_path(path) matches Ok(info) && info.path == file
}

/// Whether the record of the store path `path` is held and points to the
/// archive `file`.
pub open spec fn keeps_archive(cache: CacheView, path: Seq<char>, file: Seq<char>) -> bool {
    cache.by_store_path(path) matches Ok(info) && info.url() is Some && child(
        cache.path,
        info.url()->Some_0,
    ) == file
}

/// The file in which the record of a store path lies is named by the
/// hash of the path: it is `<cache>/<hash>.narinfo`.
pub proof fn lemma_keeps_info(cache: CacheView, path: Seq<char>, file: Seq<char>)
    requires
        cache.consistent(),
    ensures
        keeps_info(cache, path, file) <==> cache.by_store_path(path) is Ok && file
            == narinfo_path(cache.path, hash_part(cache.store, path)),
{
}

/// The files that are kept are those of the records that are held for
/// the paths: a record file or an archive is kept if and only if the
/// record of one of the paths lies in it or points to it.
pub proof fn lemma_kept_files(cache: CacheView, paths: Seq<Seq<char>>)
    requires
        cache.consistent(),
        all_complete(cache, paths),
    ensures
        forall|file: Seq<char>|
            kept(cache, paths).infos.contains(file) <==> exists|i: int|
                0 <= i < paths.len() && keeps_info(cache, #[trigger] paths[i], file),
        forall|file: Seq<char>|
            kept(cache, paths).archives.contains(file) <==> exists|i: int|
                0 <= i < paths.len() && keeps_archive(cache, #[trigger] paths[i], file),
    decreases paths.len(),
{
    if paths.len() > 0 {
        let before = paths.drop_last();
        let last = paths.len() - 1;
        assert forall|i: int| 0 <= i < before.len() implies (#[trigger] cache.by_store_path(
            before[i],
        ) matches Ok(info) ==> complete(info)) by {
            assert(before[i] == paths[i]);
        }
        lemma_kept_files(cache, before);
        assert(cache.by_store_path(paths[last]) matches Ok(info) ==> complete(info));
        // A record whose file is kept already is the record of an earlier
        // path, and so its archive is kept already.
        let again = cache.by_store_path(paths[last]) matches Ok(info) && kept(
            cache,
            before,
        ).infos.contains(info.path);
        if again {
            let info = cache.by_store_path(paths[last])->Ok_0;
            let j = choose|j: int|
                0 <= j < before.len() && keeps_info(cache, #[trigger] before[j], info.path);
            assert(cache.by_store_path(before[j])->Ok_0 == info);
            assert(keeps_archive(cache, before[j], child(cache.path, info.url()->Some_0)));
        }
        assert forall|file: Seq<char>|
            kept(cache, paths).infos.contains(file) <==> exists|i: int|
                0 <= i < paths.len() && keeps_info(cache, #[trigger] paths[i], file) by {
            if kept(cache, before).infos.contains(file) {
                let i = choose|i: int|
                    0 <= i < before.len() && keeps_info(cache, #[trigger] before[i], file);
                assert(keeps_info(cache, paths[i], file));
            }
            if keeps_info(cache, paths[last], file) {
                assert(kept(cache, paths).infos.contains(file));
            }
            if exists|i: int| 0 <= i < paths.len() && keeps_info(cache, #[trigger] paths[i], file) {
                let i = choose|i: int|
                    0 <= i < paths.len() && keeps_info(cache, #[trigger] paths[i], file);
                if i < last {
                    assert(keeps_info(cache, before[i], file));
                }
            }
        }
        assert forall|file: Seq<char>|
            kept(cache, paths).archives.contains(file) <==> exists|i: int|
                0 <= i < paths.len() && keeps_archive(cache, #[trigger] paths[i], file) by {
            if kept(cache, before).archives.contains(file) {
                let i = choose|i: int|
                    0 <= i < before.len() && keeps_archive(cache, #[trigger] before[i], file);
                assert(keeps_archive(cache, paths[i], file));
            }
            if keeps_archive(cache, paths[last], file) {
                assert(kept(cache, paths).archives.contains(file));
            }
            if exists|i: int|
                0 <= i < paths.len() && keeps_archive(cache, #[trigger] paths[i], file) {
                let i = choose|i: int|
                    0 <= i < paths.len() && keeps_archive(cache, #[trigger] paths[i], file);
                if i < last {
                    assert(keeps_archive(cache, before[i], file));
                }
            }
        }
    }
}

/// The sums only grow with more paths.
pub proof fn lemma_kept_grows(cache: CacheView, paths: Seq<Seq<char>>, n: int)
    requires
        0 <= n <= paths.len(),
    ensures
        kept(cache, paths.subrange(0, n)).file_size <= kept(cache, paths).file_size,
        kept(cache, paths.subrange(0, n)).nar_size <= kept(cache, paths).nar_size,
    decreases paths.len() - n,
{
    if n < paths.len() {
        let next = paths.subrange(0, n + 1);
        assert(next.drop_last() == paths.subrange(0, n));
        lemma_kept_grows(cache, paths, n + 1);
    } else {
        assert(paths.subrange(0, n) == paths);
    }
}

/// The files to keep and the sizes of what is kept.
pub struct KeepSet {
    /// Paths of the record files to keep.
    pub infos: PathSet,
    /// Paths of the archive files to keep.
    pub archives: PathSet,
    /// Sum of the sizes of the archive files.
    pub file_size: u64,
    /// Sum of the sizes of the unpacked archives.
    pub nar_size: u64,
}

impl View for KeepSet {
    type V = KeepView;

    open spec fn view(&self) -> KeepView {
        KeepView {
            infos: self.infos@,
            archives: self.archives@,
            file_size: self.file_size as nat,
            nar_size: self.nar_size as nat,
        }
    }
}

impl KeepSet {
    /// Both sets are well-formed.
    pub open spec fn wf(&self) -> bool {
        self.infos.wf() && self.archives.wf()
    }

    /// Nothing to keep.
    pub fn new() -> (keep: Self)
        ensures
            keep.wf(),
            keep@ == KeepView::empty(),
    {
        KeepSet { infos: PathSet::new(), archives: PathSet::new(), file_size: 0, nar_size: 0 }
    }

    /// Keeps the files of the record `info` of `cache` and adds its sizes
    /// to the sums, unless the file of the record is kept already. A size
    /// that the record does not state, or states in a way that cannot be
    /// read, adds nothing. Returns `false` and changes nothing if the
    /// record does not say where its archive lies, or if a sum would pass
    /// 64 bits.
    pub fn retain(&mut self, cache: &BinaryCache, info: &Info) -> (done: bool)
        requires
            old(self).wf(),
        ensures
            final(self).wf(),
            done == (complete(info@) && old(self)@.with(cache@.path, info@).fits()),
            final(self)@ == if done {
                old(self)@.with(cache@.path, info@)
            } else {
                old(self)@
            },
    {
        let url = match info.url() {
            Some(url) => url,
            None => {
                return false;
            },
        };
        if self.infos.contains(info.path.as_str()) {
            return true;
        }
        let file_size = match info.file_size() {
            Some(size) => size,
            None => 0,
        };
        let nar_size = match info.nar_size() {
            Some(size) => size,
            None => 0,
        };
        if file_size > u64::MAX - self.file_size || nar_size > u64::MAX - self.nar_size {
            return false;
        }
        self.infos.insert(info.path.clone());
        self.archives.insert(cache.join(url));
        self.file_size = self.file_size + file_size;
        self.nar_size = self.nar_size + nar_size;
        true
    }
}

/// What the store paths in `reachable` keep in `cache`. A path without a
/// record keeps nothing, and so does a path that is no store path; which
/// paths are such, `StoreDir::invalid_among` tells, and [`plan`] hands them
/// out. Returns `None` if a record that is held for one of them does not
/// say where its archive lies, or if a sum of sizes does not fit in 64
/// bits.
pub fn keep(cache: &BinaryCache, reachable: &PathSet) -> (keep: Option<KeepSet>)
    requires
        cache.wf(),
        reachable.wf(),
    ensures
        keep is Some <==> all_complete(cache@, reachable.order()) && kept(
            cache@,
            reachable.order(),
        ).fits(),
        keep matches Some(k) ==> k.wf() && k@ == kept(cache@, reachable.order()),
{
    let mut keep = KeepSet::new();
    let mut i: usize = 0;
    let ghost paths = reachable.order();
    while i < reachable.len()
        invariant
            i <= paths.len(),
            paths == reachable.order(),
            cache.wf(),
            reachable.wf(),
            keep.wf(),
            keep@ == kept(cache@, paths.subrange(0, i as int)),
            all_complete(cache@, paths.subrange(0, i as int)),
        decreases paths.len() - i,
    {
        let path = reachable.get(i);
        proof {
            let next = paths.subrange(0, i + 1);
            assert(next.drop_last() == paths.subrange(0, i as int));
            assert(next.last() == paths[i as int]);
            lemma_kept_grows(cache@, paths, i + 1);
        }
        match cache.get_info_by_store_path(path.as_str()) {
            Ok(info) => {
                if !keep.retain(cache, &info) {
                    return None;
                }
            },
            Err(_) => {},
        }
        proof {
            let next = paths.subrange(0, i + 1);
            assert forall|j: int| 0 <= j < next.len() implies (#[trigger] cache@.by_store_path(
                next[j],
            ) matches Ok(info) ==> complete(info)) by {
                if j < i {
                    assert(paths.subrange(0, i as int)[j] == next[j]);
                }
            }
        }
        i += 1;
    }
    assert(paths.subrange(0, i as int) == paths);
    Some(keep)
}

/// Whether `path` names the file of a record: whether it ends in
/// `.narinfo`.
pub open spec fn is_narinfo(path: Seq<char>) -> bool {
    ".narinfo"@.is_suffix_of(path)
}

/// Executable form of [`is_narinfo`].
pub fn ends_in_narinfo(path: &str) -> (b: bool)
    ensures
        b == is_narinfo(path@),
{
    let chars = chars_of(path);
    let suffix = chars_of(".narinfo");
    chars.len() >= suffix.len() && has_at(&chars, &suffix, chars.len() - suffix.len())
}

/// The paths of `present` that are not in `keep`, in their order.
pub open spec fn unkept(present: Seq<Seq<char>>, keep: Set<Seq<char>>) -> Seq<Seq<char>> {
    present.filter(|path: Seq<char>| !keep.contains(path))
}

/// The record files among `present` that are not in `keep`, in their
/// order.
pub open spec fn unkept_infos(present: Seq<Seq<char>>, keep: Set<Seq<char>>) -> Seq<Seq<char>> {
    present.filter(|path: Seq<char>| is_narinfo(path) && !keep.contains(path))
}

/// What is not kept is what is present without what is kept.
pub proof fn lemma_unkept(present: Seq<Seq<char>>, keep: Set<Seq<char>>)
    ensures
        forall|p: Seq<char>| #[trigger]
            unkept(present, keep).contains(p) <==> present.contains(p) && !keep.contains(p),
        forall|p: Seq<char>| #[trigger]
            unkept_infos(present, keep).contains(p) <==> present.contains(p) && is_narinfo(p)
                && !keep.contains(p),
        unkept(present, keep).to_set() == present.to_set().difference(keep),
        unkept_infos(present, keep).to_set() == present.to_set().filter(
            |path: Seq<char>| is_narinfo(path),
        ).difference(keep),
{
    broadcast use vstd::seq_lib::group_filter_ensures;

    let a = |path: Seq<char>| !keep.contains(path);
    let b = |path: Seq<char>| is_narinfo(path) && !keep.contains(path);
    assert forall|p: Seq<char>| #[trigger]
        unkept(present, keep).contains(p) <==> present.contains(p) && !keep.contains(p) by {
        if present.filter(a).contains(p) {
            present.lemma_filter_contains_rev(a, p);
            let j = choose|j: int| 0 <= j < present.filter(a).len() && present.filter(a)[j] == p;
            assert(a(present.filter(a)[j]));
        }
        if present.contains(p) && a(p) {
            let i = choose|i: int| 0 <= i < present.len() && present[i] == p;
            assert(present.filter(a).contains(present[i]));
        }
    }
    assert forall|p: Seq<char>| #[trigger]
        unkept_infos(present, keep).contains(p) <==> present.contains(p) && is_narinfo(p)
            && !keep.contains(p) by {
        if present.filter(b).contains(p) {
            present.lemma_filter_contains_rev(b, p);
            let j = choose|j: int| 0 <= j < present.filter(b).len() && present.filter(b)[j] == p;
            assert(b(present.filter(b)[j]));
        }
        if present.contains(p) && b(p) {
            let i = choose|i: int| 0 <= i < present.len() && present[i] == p;
            assert(present.filter(b).contains(present[i]));
        }
    }
    assert(unkept(present, keep).to_set() =~= present.to_set().difference(keep));
    assert(unkept_infos(present, keep).to_set() =~= present.to_set().filter(
        |path: Seq<char>| is_narinfo(path),
    ).difference(keep));
}

/// With fewer files present there is no more to delete: a sweep that is
/// run again after some files went plans nothing that it did not plan
/// before.
pub proof fn lemma_unkept_shrinks(
    present: Seq<Seq<char>>,
    fewer: Seq<Seq<char>>,
    keep: Set<Seq<char>>,
)
    requires
        fewer.to_set().subset_of(present.to_set()),
    ensures
        unkept(fewer, keep).to_set().subset_of(unkept(present, keep).to_set()),
        unkept_infos(fewer, keep).to_set().subset_of(unkept_infos(present, keep).to_set()),
{
    lemma_unkept(present, keep);
    lemma_unkept(fewer, keep);
}

/// The archive files to delete: those of `present` that `keep` does not
/// hold.
pub fn stale_archives(present: &Vec<String>, keep: &PathSet) -> (stale: Vec<String>)
    requires
        keep.wf(),
    ensures
        stale.deep_view() == unkept(present.deep_view(), keep@),
        stale.deep_view().to_set() == present.deep_view().to_set().difference(keep@),
{
    let mut stale: Vec<String> = Vec::new();
    let ghost all = present.deep_view();
    let ghost unkept_here = |path: Seq<char>| !keep@.contains(path);
    let mut i: usize = 0;
    while i < present.len()
        invariant
            i <= present.len(),
            keep.wf(),
            all == present.deep_view(),
            unkept_here == |path: Seq<char>| !keep@.contains(path),
            stale.deep_view() == all.subrange(0, i as int).filter(unkept_here),
        decreases present.len() - i,
    {
        proof {
            let next = all.subrange(0, i + 1);
            assert(next.drop_last() == all.subrange(0, i as int));
            assert(next.last() == present@[i as int]@);
            reveal(Seq::filter);
        }
        if !keep.contains(present[i].as_str()) {
            let ghost before = stale.deep_view();
            stale.push(present[i].clone());
            assert(stale.deep_view() =~= before.push(present@[i as int]@));
        }
        i += 1;
    }
    proof {
        assert(all.subrange(0, i as int) == all);
        assert(stale.deep_view() == unkept(present.deep_view(), keep@));
        lemma_unkept(present.deep_view(), keep@);
    }
    stale
}

/// The record files to delete: those of `present` that end in `.narinfo`
/// and that `keep` does not hold.
pub fn stale_infos(present: &Vec<String>, keep: &PathSet) -> (stale: Vec<String>)
    requires
        keep.wf(),
    ensures
        stale.deep_view() == unkept_infos(present.deep_view(), keep@),
        stale.deep_view().to_set() == present.deep_view().to_set().filter(
            |path: Seq<char>| is_narinfo(path),
        ).difference(keep@),
{
    let mut stale: Vec<String> = Vec::new();
    let ghost all = present.deep_view();
    let ghost unkept_here = |path: Seq<char>| is_narinfo(path) && !keep@.contains(path);
    let mut i: usize = 0;
    while i < present.len()
        invariant
            i <= present.len(),
            keep.wf(),
            all == present.deep_view(),
            unkept_here == |path: Seq<char>| is_narinfo(path) && !keep@.contains(path),
            stale.deep_view() == all.subrange(0, i as int).filter(unkept_here),
        decreases present.len() - i,
    {
        proof {
            let next = all.subrange(0, i + 1);
            assert(next.drop_last() == all.subrange(0, i as int));
            assert(next.last() == present@[i as int]@);
            reveal(Seq::filter);
        }
        if ends_in_narinfo(present[i].as_str()) && !keep.contains(present[i].as_str()) {
            let ghost before = stale.deep_view();
            stale.push(present[i].clone());
            assert(stale.deep_view() =~= before.push(present@[i as int]@));
        }
        i += 1;
    }
    proof {
        assert(all.subrange(0, i as int) == all);
        assert(stale.deep_view() == unkept_infos(present.deep_view(), keep@));
        lemma_unkept(present.deep_view(), keep@);
    }
    stale
}

/// Whether a store path in `reachable` has a record that is held and lies
/// in `file`.
pub open spec fn info_in_use(cache: CacheView, reachable: Set<Seq<char>>, file: Seq<char>) -> bool {
    exists|path: Seq<char>| reachable.contains(path) && keeps_info(cache, path, file)
}

/// Whether a store path in `reachable` has a record that is held and
/// points to the archive `file`.
pub open spec fn archive_in_use(
    cache: CacheView,
    reachable: Set<Seq<char>>,
    file: Seq<char>,
) -> bool {
    exists|path: Seq<char>| reachable.contains(path) && keeps_archive(cache, path, file)
}

/// What a sweep keeps and what it deletes.
pub struct SweepPlan {
    /// The reachable paths that are no store paths. No record can be had
    /// for them, and they keep nothing.
    pub invalid: Vec<String>,
    /// The files to keep and their sizes.
    pub keep: KeepSet,
    /// The record files to delete.
    pub infos: Vec<String>,
    /// The archive files to delete.
    pub archives: Vec<String>,
}

/// Plans the sweep of `cache` for the store paths in `reachable`, given
/// the record files and the archive files that are present. A file that
/// is present is deleted if and only if no store path in `reachable` has
/// a record that is held and keeps it; of the files beside the archives
/// only those that end in `.narinfo` are looked at. The reachable paths
/// that are no store paths are handed out, so that they do not pass in
/// silence. Returns `None` if a record that is held for a reachable path
/// does not say where its archive lies, or if a sum of sizes does not fit
/// in 64 bits.
pub fn plan(
    cache: &BinaryCache,
    reachable: &PathSet,
    infos_present: &Vec<String>,
    archives_present: &Vec<String>,
) -> (plan: Option<SweepPlan>)
    requires
        cache.wf(),
        reachable.wf(),
    ensures
        plan is Some <==> all_complete(cache@, reachable.order()) && kept(
            cache@,
            reachable.order(),
        ).fits(),
        plan matches Some(p) ==> {
            &&& p.invalid.deep_view() == invalid_among(cache@.store, reachable.order())
            &&& forall|path: Seq<char>| #[trigger]
                p.invalid.deep_view().contains(path) <==> reachable@.contains(path)
                    && !is_store_path(cache@.store, path)
            &&& p.keep.wf()
            &&& p.keep@ == kept(cache@, reachable.order())
            &&& p.infos.deep_view() == unkept_infos(infos_present.deep_view(), p.keep@.infos)
            &&& p.archives.deep_view() == unkept(archives_present.deep_view(), p.keep@.archives)
            &&& forall|file: Seq<char>| #[trigger]
                p.infos.deep_view().contains(file) <==> infos_present.deep_view().contains(file)
                    && is_narinfo(file) && !info_in_use(cache@, reachable@, file)
            &&& forall|file: Seq<char>| #[trigger]
                p.archives.deep_view().contains(file) <==> archives_present.deep_view().contains(
                    file,
                ) && !archive_in_use(cache@, reachable@, file)
        },
{
    let keep = match keep(cache, reachable) {
        Some(keep) => keep,
        None => {
            return None;
        },
    };
    let invalid = cache.store().invalid_among(reachable.paths());
    let infos = stale_infos(infos_present, &keep.infos);
    let archives = stale_archives(archives_present, &keep.archives);
    proof {
        let paths = reachable.order();
        reachable.lemma_order();
        cache.lemma_records();
        lemma_kept_files(cache@, paths);
        assert forall|file: Seq<char>|
            keep@.infos.contains(file) <==> info_in_use(cache@, reachable@, file) by {
            if keep@.infos.contains(file) {
                let i = choose|i: int|
                    0 <= i < paths.len() && keeps_info(cache@, #[trigger] paths[i], file);
                assert(paths.contains(paths[i]));
            }
            if info_in_use(cache@, reachable@, file) {
                let path = choose|path: Seq<char>|
                    reachable@.contains(path) && keeps_info(cache@, path, file);
                let i = choose|i: int| 0 <= i < paths.len() && paths[i] == path;
                assert(keeps_info(cache@, paths[i], file));
            }
        }
        assert forall|file: Seq<char>|
            keep@.archives.contains(file) <==> archive_in_use(cache@, reachable@, file) by {
            if keep@.archives.contains(file) {
                let i = choose|i: int|
                    0 <= i < paths.len() && keeps_archive(cache@, #[trigger] paths[i], file);
                assert(paths.contains(paths[i]));
            }
            if archive_in_use(cache@, reachable@, file) {
                let path = choose|path: Seq<char>|
                    reachable@.contains(path) && keeps_archive(cache@, path, file);
                let i = choose|i: int| 0 <= i < paths.len() && paths[i] == path;
                assert(keeps_archive(cache@, paths[i], file));
            }
        }
        lemma_unkept(infos_present.deep_view(), keep@.infos);
        lemma_unkept(archives_present.deep_view(), keep@.archives);
    }
    Some(SweepPlan { invalid, keep, infos, archives })
}

} // verus!
