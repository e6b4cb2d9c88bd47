use nix_cache_cut::gcroots::{GcRoots, RootEntry};
use nix_cache_cut::store_path::StoreDir;

const H: &str = "0123456789abcdfghijklmnpqrsvwxyz";

fn entry(path: &str, target: Option<&str>) -> RootEntry {
    RootEntry { path: path.to_string(), target: target.map(|t| t.to_string()) }
}

fn sorted(paths: &Vec<String>) -> Vec<String> {
    let mut paths = paths.clone();
    paths.sort();
    paths
}

#[test]
fn new_roots_have_found_nothing() {
    let mut roots = GcRoots::new();
    assert_eq!(roots.store_paths().len(), 0);
    assert_eq!(roots.next(), None);
    assert!(!roots.is_seen("/nix/var/nix/gcroots"));
}

#[test]
fn roots_are_explored_first_in_first_out() {
    let mut roots = GcRoots::new();
    roots.enqueue("/a".to_string());
    roots.enqueue("/b".to_string());
    roots.enqueue("/a".to_string());
    assert_eq!(roots.next(), Some("/a".to_string()));
    assert_eq!(roots.next(), Some("/b".to_string()));
    assert_eq!(roots.next(), Some("/a".to_string()));
    assert_eq!(roots.next(), None);
}

#[test]
fn scan_resolves_a_chain_of_links() {
    let mut roots = GcRoots::with_store(StoreDir::new("/store"));
    roots.enqueue("/root".to_string());

    assert_eq!(roots.next(), Some("/root".to_string()));
    roots.scan("/root", &vec![entry("/root", None), entry("/root/link", Some("/dirA"))]);
    assert_eq!(roots.store_paths().len(), 0);

    assert_eq!(roots.next(), Some("/dirA".to_string()));
    let target = format!("/store/{H}-name/bin/tool");
    roots.scan("/dirA", &vec![entry("/dirA", None), entry("/dirA/result", Some(&target))]);

    assert_eq!(roots.next(), None);
    assert_eq!(roots.store_paths().paths(), &vec![format!("/store/{H}-name")]);
    let store = StoreDir::new("/store");
    assert_eq!(store.hash_of(roots.store_paths().get(0)), Ok(H.to_string()));
}

#[test]
fn scan_marks_every_entry_as_walked() {
    let mut roots = GcRoots::new();
    roots.scan(
        "/roots",
        &vec![entry("/roots", None), entry("/roots/sub", None), entry("/roots/sub/file", None)],
    );
    assert!(roots.is_seen("/roots"));
    assert!(roots.is_seen("/roots/sub"));
    assert!(roots.is_seen("/roots/sub/file"));
    assert!(!roots.is_seen("/roots/other"));
    assert_eq!(roots.store_paths().len(), 0);
    assert_eq!(roots.next(), None);
}

#[test]
fn scan_skips_a_root_that_was_walked() {
    let mut roots = GcRoots::new();
    roots.scan("/roots", &vec![entry("/roots", None), entry("/roots/sub", None)]);
    let target = format!("/nix/store/{H}-late");
    roots.scan("/roots/sub", &vec![entry("/roots/sub/link", Some(&target))]);
    assert_eq!(roots.store_paths().len(), 0);
    assert!(!roots.is_seen("/roots/sub/link"));
}

#[test]
fn scan_ends_on_links_in_a_circle() {
    let mut roots = GcRoots::new();
    roots.enqueue("/a".to_string());
    let mut walks = 0;
    while let Some(root) = roots.next() {
        if roots.is_seen(&root) {
            continue;
        }
        walks += 1;
        let entries = if root == "/a" {
            vec![entry("/a", None), entry("/a/to-b", Some("/b"))]
        } else {
            vec![entry("/b", None), entry("/b/to-a", Some("/a")), entry("/b/to-b", Some("/b"))]
        };
        roots.scan(&root, &entries);
    }
    assert_eq!(walks, 2);
    assert_eq!(roots.store_paths().len(), 0);
}

#[test]
fn scan_records_each_store_path_once() {
    let mut roots = GcRoots::new();
    let one = format!("/nix/store/{H}-one");
    let deep = format!("/nix/store/{H}-one/lib");
    let two = format!("/nix/store/{H}-two");
    roots.scan(
        "/roots",
        &vec![
            entry("/roots/1", Some(&one)),
            entry("/roots/2", Some(&deep)),
            entry("/roots/3", Some(&two)),
            entry("/roots/4", Some(&one)),
        ],
    );
    assert_eq!(sorted(roots.store_paths().paths()), vec![one, two]);
    assert_eq!(roots.next(), None);
}

#[test]
fn follow_tells_store_from_elsewhere() {
    let mut roots = GcRoots::new();
    roots.follow("/nix/storefront/x");
    roots.follow("/nix/store/abc-x/bin");
    roots.follow("/home/user/result");
    assert_eq!(roots.store_paths().paths(), &vec!["/nix/store/abc-x".to_string()]);
    assert_eq!(roots.next(), Some("/nix/storefront/x".to_string()));
    assert_eq!(roots.next(), Some("/home/user/result".to_string()));
    assert_eq!(roots.next(), None);
}

#[test]
fn follow_cuts_deeper_components() {
    let mut roots = GcRoots::new();
    roots.follow("/nix/store/abc-x/share/man/man1/x.1");
    roots.follow("/nix/store/abc-x");
    assert_eq!(roots.store_paths().paths(), &vec!["/nix/store/abc-x".to_string()]);
}

#[test]
fn follow_passes_over_the_store_itself() {
    let mut roots = GcRoots::new();
    roots.follow("/nix/store");
    roots.follow("/nix/store/");
    assert_eq!(roots.store_paths().len(), 0);
    assert_eq!(roots.next(), None);
}

#[test]
fn scan_of_a_link_to_the_store_records_no_seed() {
    let mut roots = GcRoots::new();
    let tool = format!("/nix/store/{H}-tool");
    roots.scan(
        "/roots",
        &vec![
            entry("/roots", None),
            entry("/roots/store", Some("/nix/store")),
            entry("/roots/tool", Some(&tool)),
        ],
    );
    assert_eq!(roots.store_paths().paths(), &vec![tool]);
    assert_eq!(roots.next(), None);
}

#[test]
fn scan_of_a_root_inside_the_store_is_a_scan_like_any_other() {
    let mut roots = GcRoots::new();
    let profile = format!("/nix/store/{H}-profile");
    let tool = format!("/nix/store/{H}-tool/bin/tool");
    roots.scan(
        &profile,
        &vec![
            entry(&profile, None),
            entry(&format!("{profile}/bin"), None),
            entry(&format!("{profile}/bin/tool"), Some(&tool)),
        ],
    );
    assert!(roots.is_seen(&profile));
    assert_eq!(roots.store_paths().paths(), &vec![format!("/nix/store/{H}-tool")]);
    assert_eq!(roots.next(), None);
}
