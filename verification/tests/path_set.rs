use nix_cache_cut::path_set::PathSet;

#[test]
fn new_set_is_empty() {
    let set = PathSet::new();
    assert_eq!(set.len(), 0);
    assert!(!set.contains("a"));
    assert_eq!(set.position("a"), None);
    assert!(set.paths().is_empty());
}

#[test]
fn insert_tells_whether_the_path_was_new() {
    let mut set = PathSet::new();
    assert!(set.insert("b".to_string()));
    assert!(set.insert("a".to_string()));
    assert!(!set.insert("b".to_string()));
    assert_eq!(set.len(), 2);
    assert!(set.contains("a"));
    assert!(set.contains("b"));
    assert!(!set.contains("c"));
}

#[test]
fn members_keep_the_order_of_arrival() {
    let mut set = PathSet::new();
    for path in ["z", "m", "z", "a", "m"] {
        set.insert(path.to_string());
    }
    assert_eq!(set.paths(), &vec!["z".to_string(), "m".to_string(), "a".to_string()]);
    assert_eq!(set.get(0), "z");
    assert_eq!(set.get(2), "a");
    assert_eq!(set.position("z"), Some(0));
    assert_eq!(set.position("m"), Some(1));
    assert_eq!(set.position("a"), Some(2));
    assert_eq!(set.position("q"), None);
}
