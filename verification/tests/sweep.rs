use nix_cache_cut::binary_cache::{BinaryCache, Info};
use nix_cache_cut::dep_scan::DependencyScanner;
use nix_cache_cut::path_set::PathSet;
use nix_cache_cut::store_path::StoreDir;
use nix_cache_cut::sweep::{ends_in_narinfo, keep, plan, stale_archives, stale_infos, KeepSet};

const H1: &str = "11111111111111111111111111111111";
const H2: &str = "22222222222222222222222222222222";
const H3: &str = "33333333333333333333333333333333";

fn set_of(paths: &[&str]) -> PathSet {
    let mut set = PathSet::new();
    for path in paths {
        set.insert(path.to_string());
    }
    set
}

fn list_of(paths: &[&str]) -> Vec<String> {
    paths.iter().map(|p| p.to_string()).collect()
}

fn record(hash: &str, references: &str, file_size: u64, nar_size: u64) -> String {
    format!("URL: nar/{hash}.nar\nFileSize: {file_size}\nNarSize: {nar_size}\nReferences: {references}\n")
}

#[test]
fn stale_infos_is_present_without_kept() {
    let present = list_of(&["a.narinfo", "b.narinfo", "c.narinfo"]);
    let kept = set_of(&["a.narinfo", "c.narinfo"]);
    assert_eq!(stale_infos(&present, &kept), vec!["b.narinfo"]);
}

#[test]
fn stale_infos_looks_at_record_files_only() {
    let present = list_of(&["/c/a.narinfo", "/c/nar", "/c/nix-cache-info", "/c/b.narinfo.tmp", "/c/.narinfo"]);
    let kept = set_of(&["/c/a.narinfo"]);
    assert_eq!(stale_infos(&present, &kept), vec!["/c/.narinfo"]);
    assert_eq!(stale_infos(&present, &PathSet::new()), vec!["/c/a.narinfo", "/c/.narinfo"]);
}

#[test]
fn stale_archives_is_present_without_kept() {
    let present = list_of(&["/c/nar/a.nar", "/c/nar/b.nar.xz", "/c/nar/c"]);
    let kept = set_of(&["/c/nar/c", "/c/nar/a.nar", "/c/nar/gone.nar"]);
    assert_eq!(stale_archives(&present, &kept), vec!["/c/nar/b.nar.xz"]);
}

#[test]
fn stale_keeps_order_and_repeats() {
    let present = list_of(&["z", "a", "z", "k"]);
    let kept = set_of(&["k"]);
    assert_eq!(stale_archives(&present, &kept), vec!["z", "a", "z"]);
    assert_eq!(stale_archives(&Vec::new(), &kept), Vec::<String>::new());
    assert_eq!(stale_archives(&present, &PathSet::new()), present);
}

#[test]
fn narinfo_suffix() {
    assert!(ends_in_narinfo("x.narinfo"));
    assert!(ends_in_narinfo(".narinfo"));
    assert!(!ends_in_narinfo("narinfo"));
    assert!(!ends_in_narinfo("x.narinfo "));
    assert!(!ends_in_narinfo("x.NARINFO"));
    assert!(!ends_in_narinfo(""));
}

#[test]
fn retain_keeps_both_files_and_adds_sizes() {
    let cache = BinaryCache::new("/cache");
    let mut kept = KeepSet::new();
    let a = Info::open("/cache/a.narinfo", "URL: nar/a.nar.xz\nFileSize: 10\nNarSize: 100\n");
    let b = Info::open("/cache/b.narinfo", "URL: nar/b.nar.xz\nFileSize: 1\nNarSize: 2\n");
    assert!(kept.retain(&cache, &a));
    assert!(kept.retain(&cache, &b));
    assert_eq!(kept.infos.paths(), &list_of(&["/cache/a.narinfo", "/cache/b.narinfo"]));
    assert_eq!(kept.archives.paths(), &list_of(&["/cache/nar/a.nar.xz", "/cache/nar/b.nar.xz"]));
    assert_eq!(kept.file_size, 11);
    assert_eq!(kept.nar_size, 102);
}

#[test]
fn retain_refuses_a_record_without_url() {
    let cache = BinaryCache::new("/cache");
    let mut kept = KeepSet::new();
    let no_url = Info::open("/cache/a.narinfo", "FileSize: 10\nNarSize: 100\n");
    assert!(!kept.retain(&cache, &no_url));
    assert_eq!(kept.infos.len(), 0);
    assert_eq!(kept.archives.len(), 0);
    assert_eq!(kept.file_size, 0);
    assert_eq!(kept.nar_size, 0);
}

#[test]
fn retain_counts_nothing_for_a_size_that_cannot_be_read() {
    let cache = BinaryCache::new("/cache");
    let mut kept = KeepSet::new();
    let no_sizes = Info::open("/cache/a.narinfo", "URL: nar/a.nar\n");
    let no_file_size = Info::open("/cache/b.narinfo", "URL: nar/b.nar\nNarSize: 100\n");
    let bad_nar_size = Info::open("/cache/c.narinfo", "URL: nar/c.nar\nFileSize: 10\nNarSize: 1e3\n");
    assert!(kept.retain(&cache, &no_sizes));
    assert!(kept.retain(&cache, &no_file_size));
    assert!(kept.retain(&cache, &bad_nar_size));
    assert_eq!(kept.infos.len(), 3);
    assert_eq!(
        kept.archives.paths(),
        &list_of(&["/cache/nar/a.nar", "/cache/nar/b.nar", "/cache/nar/c.nar"])
    );
    assert_eq!(kept.file_size, 10);
    assert_eq!(kept.nar_size, 100);
}

#[test]
fn retain_counts_a_record_once() {
    let cache = BinaryCache::new("/cache");
    let mut kept = KeepSet::new();
    let a = Info::open("/cache/a.narinfo", "URL: nar/a.nar\nFileSize: 10\nNarSize: 100\n");
    assert!(kept.retain(&cache, &a));
    assert!(kept.retain(&cache, &a));
    assert!(kept.retain(&cache, &a.clone()));
    assert_eq!(kept.infos.len(), 1);
    assert_eq!(kept.archives.len(), 1);
    assert_eq!(kept.file_size, 10);
    assert_eq!(kept.nar_size, 100);
}

#[test]
fn retain_refuses_a_sum_beyond_64_bits() {
    let cache = BinaryCache::new("/cache");
    let mut kept = KeepSet::new();
    let big = Info::open("/cache/a.narinfo", "URL: a\nFileSize: 18446744073709551615\nNarSize: 1\n");
    let one = Info::open("/cache/b.narinfo", "URL: b\nFileSize: 1\nNarSize: 1\n");
    let zero = Info::open("/cache/c.narinfo", "URL: c\nFileSize: 0\nNarSize: 18446744073709551614\n");
    assert!(kept.retain(&cache, &big));
    assert!(!kept.retain(&cache, &one));
    assert_eq!(kept.infos.len(), 1);
    assert_eq!(kept.file_size, u64::MAX);
    assert_eq!(kept.nar_size, 1);
    assert!(kept.retain(&cache, &zero));
    assert_eq!(kept.file_size, u64::MAX);
    assert_eq!(kept.nar_size, u64::MAX);
}

#[test]
fn keep_skips_paths_without_record() {
    let mut cache = BinaryCache::new("/cache");
    cache.load(H1, Ok(&record(H1, "", 5, 50))).unwrap();
    let reachable = set_of(&[
        &format!("/nix/store/{H1}-one"),
        &format!("/nix/store/{H2}-gone"),
        "/nix/store/short",
    ]);
    let kept = keep(&cache, &reachable).unwrap();
    assert_eq!(kept.infos.paths(), &vec![format!("/cache/{H1}.narinfo")]);
    assert_eq!(kept.archives.paths(), &vec![format!("/cache/nar/{H1}.nar")]);
    assert_eq!(kept.file_size, 5);
    assert_eq!(kept.nar_size, 50);
}

#[test]
fn keep_counts_a_record_once_whatever_the_names() {
    let mut cache = BinaryCache::new("/cache");
    cache.load(H1, Ok(&record(H1, "", 5, 50))).unwrap();
    let reachable = set_of(&[&format!("/nix/store/{H1}-one"), &format!("/nix/store/{H1}-two")]);
    let kept = keep(&cache, &reachable).unwrap();
    assert_eq!(kept.infos.len(), 1);
    assert_eq!(kept.archives.len(), 1);
    assert_eq!(kept.file_size, 5);
    assert_eq!(kept.nar_size, 50);
}

#[test]
fn keep_fails_on_an_incomplete_record() {
    let mut cache = BinaryCache::new("/cache");
    cache.load(H1, Ok(&record(H1, "", 5, 50))).unwrap();
    cache.load(H2, Ok("FileSize: 1\nNarSize: 2\n")).unwrap();
    let reachable = set_of(&[&format!("/nix/store/{H1}-one"), &format!("/nix/store/{H2}-two")]);
    assert!(keep(&cache, &reachable).is_none());
    let only_first = set_of(&[&format!("/nix/store/{H1}-one")]);
    assert!(keep(&cache, &only_first).is_some());
}

#[test]
fn keep_of_nothing_is_empty() {
    let cache = BinaryCache::new("/cache");
    let kept = keep(&cache, &PathSet::new()).unwrap();
    assert_eq!(kept.infos.len(), 0);
    assert_eq!(kept.archives.len(), 0);
    assert_eq!(kept.file_size, 0);
    assert_eq!(kept.nar_size, 0);
}

#[test]
fn sweep_of_a_small_cache() {
    let mut cache = BinaryCache::with_store("/cache", StoreDir::new("/store"));
    cache.load(H1, Ok(&record(H1, &format!("{H2}-foo"), 1000, 4000))).unwrap();
    cache.load(H2, Ok(&record(H2, "", 500, 2500))).unwrap();
    cache.load(H3, Ok(&record(H3, &format!("{H1}-bar"), 7, 9))).unwrap();

    let mut scanner = DependencyScanner::with_store(StoreDir::new("/store"));
    scanner.enqueue(format!("/store/{H1}-bar"));
    let reachable = scanner.scan(&cache);
    let mut found = reachable.paths().clone();
    found.sort();
    assert_eq!(found, vec![format!("/store/{H1}-bar"), format!("/store/{H2}-foo")]);

    let infos_present: Vec<String> =
        [H1, H2, H3].iter().map(|h| cache.join(&format!("{h}.narinfo"))).collect();
    let archives_present: Vec<String> =
        [H1, H2, H3].iter().map(|h| cache.join(&format!("nar/{h}.nar"))).collect();
    let plan = plan(&cache, &reachable, &infos_present, &archives_present).unwrap();
    assert_eq!(plan.infos, vec![format!("/cache/{H3}.narinfo")]);
    assert_eq!(plan.archives, vec![format!("/cache/nar/{H3}.nar")]);
    assert_eq!(plan.keep.infos.len(), 2);
    assert_eq!(plan.keep.archives.len(), 2);
    assert_eq!(plan.keep.file_size, 1500);
    assert_eq!(plan.keep.nar_size, 6500);
    assert!(plan.invalid.is_empty());
}

#[test]
fn sweep_of_records_that_state_no_sizes() {
    let mut cache = BinaryCache::with_store("/cache", StoreDir::new("/store"));
    cache.load(H1, Ok(&format!("References: {H2}-foo\nURL: nar/{H1}.nar\n"))).unwrap();
    cache.load(H2, Ok(&format!("URL: nar/{H2}.nar\n"))).unwrap();

    let mut scanner = DependencyScanner::with_store(StoreDir::new("/store"));
    scanner.enqueue(format!("/store/{H1}-bar"));
    let reachable = scanner.scan(&cache);
    assert_eq!(reachable.len(), 2);

    let infos_present: Vec<String> =
        [H1, H2, H3].iter().map(|h| cache.join(&format!("{h}.narinfo"))).collect();
    let archives_present: Vec<String> =
        [H1, H2, H3].iter().map(|h| cache.join(&format!("nar/{h}.nar"))).collect();
    let plan = plan(&cache, &reachable, &infos_present, &archives_present).unwrap();
    assert_eq!(plan.infos, vec![format!("/cache/{H3}.narinfo")]);
    assert_eq!(plan.archives, vec![format!("/cache/nar/{H3}.nar")]);
    assert_eq!(plan.keep.file_size, 0);
    assert_eq!(plan.keep.nar_size, 0);
}

#[test]
fn plan_hands_out_the_paths_that_are_no_store_paths() {
    let mut cache = BinaryCache::new("/cache");
    cache.load(H1, Ok(&record(H1, "", 5, 50))).unwrap();
    let reachable = set_of(&[
        "/nix/store/short",
        &format!("/nix/store/{H1}-one"),
        "/elsewhere",
        &format!("/nix/store/{H2}-gone"),
    ]);
    let plan = plan(&cache, &reachable, &Vec::new(), &Vec::new()).unwrap();
    assert_eq!(plan.invalid, vec!["/nix/store/short", "/elsewhere"]);
    assert_eq!(plan.keep.infos.len(), 1);
}

#[test]
fn plan_fails_on_an_incomplete_record() {
    let mut cache = BinaryCache::new("/cache");
    cache.load(H1, Ok("FileSize: 1\nNarSize: 1\n")).unwrap();
    let reachable = set_of(&[&format!("/nix/store/{H1}-one")]);
    assert!(plan(&cache, &reachable, &Vec::new(), &Vec::new()).is_none());
    let elsewhere = set_of(&[&format!("/nix/store/{H2}-two")]);
    assert!(plan(&cache, &elsewhere, &Vec::new(), &Vec::new()).is_some());
}

#[test]
fn plan_deletes_everything_when_nothing_is_reachable() {
    let mut cache = BinaryCache::new("/cache");
    cache.load(H1, Ok(&record(H1, "", 5, 50))).unwrap();
    let infos_present = list_of(&["/cache/a.narinfo", "/cache/nix-cache-info"]);
    let archives_present = list_of(&["/cache/nar/a.nar"]);
    let plan = plan(&cache, &PathSet::new(), &infos_present, &archives_present).unwrap();
    assert_eq!(plan.infos, vec!["/cache/a.narinfo"]);
    assert_eq!(plan.archives, vec!["/cache/nar/a.nar"]);
    assert_eq!(plan.keep.file_size, 0);
}

#[test]
fn plan_run_again_after_the_sweep_deletes_nothing() {
    let mut cache = BinaryCache::new("/cache");
    cache.load(H1, Ok(&record(H1, "", 5, 50))).unwrap();
    let reachable = set_of(&[&format!("/nix/store/{H1}-one")]);
    let infos_present = list_of(&[&format!("/cache/{H1}.narinfo"), &format!("/cache/{H2}.narinfo")]);
    let archives_present = list_of(&[&format!("/cache/nar/{H1}.nar"), &format!("/cache/nar/{H2}.nar")]);
    let first = plan(&cache, &reachable, &infos_present, &archives_present).unwrap();
    assert_eq!(first.infos, vec![format!("/cache/{H2}.narinfo")]);
    assert_eq!(first.archives, vec![format!("/cache/nar/{H2}.nar")]);
    let infos_left: Vec<String> =
        infos_present.iter().filter(|f| !first.infos.contains(f)).cloned().collect();
    let archives_left: Vec<String> =
        archives_present.iter().filter(|f| !first.archives.contains(f)).cloned().collect();
    let second = plan(&cache, &reachable, &infos_left, &archives_left).unwrap();
    assert!(second.infos.is_empty());
    assert!(second.archives.is_empty());
}
