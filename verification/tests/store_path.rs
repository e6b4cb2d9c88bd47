use nix_cache_cut::error::CacheError;
use nix_cache_cut::store_path::{StoreDir, HASH_LEN};

#[test]
fn hash_has_32_characters() {
    assert_eq!(HASH_LEN, 32);
}

#[test]
fn nix_store_is_the_standard_directory() {
    assert_eq!(StoreDir::nix().root(), "/nix/store");
    assert_eq!(StoreDir::new("/store").root(), "/store");
}

#[test]
fn contains_asks_for_whole_components() {
    let store = StoreDir::nix();
    assert!(store.contains("/nix/store"));
    assert!(store.contains("/nix/store/"));
    assert!(store.contains("/nix/store/abc-name/bin/sh"));
    assert!(!store.contains("/nix/storefront/abc"));
    assert!(!store.contains("/nix/stor"));
    assert!(!store.contains("/home/nix/store/abc"));
    assert!(!store.contains(""));
}

#[test]
fn hash_of_takes_the_32_characters_after_the_store() {
    let store = StoreDir::nix();
    let path = "/nix/store/0123456789abcdfghijklmnpqrsvwxyz-hello-2.12";
    assert_eq!(store.hash_of(path), Ok("0123456789abcdfghijklmnpqrsvwxyz".to_string()));
    assert!(store.is_store_path(path));
}

#[test]
fn hash_of_needs_no_name_after_the_hash() {
    let store = StoreDir::nix();
    let path = "/nix/store/0123456789abcdfghijklmnpqrsvwxyz";
    assert_eq!(path.len(), 43);
    assert_eq!(store.hash_of(path), Ok("0123456789abcdfghijklmnpqrsvwxyz".to_string()));
}

#[test]
fn hash_of_refuses_short_paths() {
    let store = StoreDir::nix();
    let path = "/nix/store/0123456789abcdfghijklmnpqrsvwxy";
    assert_eq!(path.len(), 42);
    assert_eq!(store.hash_of(path), Err(CacheError::InvalidStorePath));
    assert!(!store.is_store_path(path));
    assert_eq!(store.hash_of("/nix/store"), Err(CacheError::InvalidStorePath));
    assert_eq!(store.hash_of(""), Err(CacheError::InvalidStorePath));
}

#[test]
fn hash_of_refuses_paths_outside_the_store() {
    let store = StoreDir::nix();
    assert_eq!(
        store.hash_of("/tmp/store/0123456789abcdfghijklmnpqrsvwxyz-hello"),
        Err(CacheError::InvalidStorePath)
    );
    assert_eq!(
        store.hash_of("/nix/store-0123456789abcdfghijklmnpqrsvwxyz-hello"),
        Err(CacheError::InvalidStorePath)
    );
}

#[test]
fn hash_of_follows_the_store_directory() {
    let store = StoreDir::new("/store");
    let path = "/store/0123456789abcdfghijklmnpqrsvwxyz-hello";
    assert_eq!(store.hash_of(path), Ok("0123456789abcdfghijklmnpqrsvwxyz".to_string()));
    assert_eq!(
        store.hash_of("/nix/store/0123456789abcdfghijklmnpqrsvwxyz-hello"),
        Err(CacheError::InvalidStorePath)
    );
}

#[test]
fn top_level_cuts_after_the_first_component() {
    let store = StoreDir::nix();
    assert_eq!(store.top_level("/nix/store/abc-name/bin/sh"), "/nix/store/abc-name");
    assert_eq!(store.top_level("/nix/store/abc-name/"), "/nix/store/abc-name");
    assert_eq!(store.top_level("/nix/store/abc-name"), "/nix/store/abc-name");
    assert_eq!(store.top_level("/nix/store"), "/nix/store");
}

#[test]
fn top_level_depth_follows_the_store_directory() {
    let store = StoreDir::new("/store");
    assert_eq!(store.top_level("/store/abc-name/lib/libc.so"), "/store/abc-name");
    let deep = StoreDir::new("/data/nix/store");
    assert_eq!(deep.top_level("/data/nix/store/abc-name/lib/libc.so"), "/data/nix/store/abc-name");
}

#[test]
fn top_level_is_idempotent() {
    let store = StoreDir::nix();
    let once = store.top_level("/nix/store/abc-name/share/doc/x");
    assert_eq!(store.top_level(&once), once);
}

#[test]
fn ident_drops_the_name_of_a_store_path() {
    let store = StoreDir::nix();
    let id = "/nix/store/0123456789abcdfghijklmnpqrsvwxyz";
    assert_eq!(store.ident("/nix/store/0123456789abcdfghijklmnpqrsvwxyz-hello-2.12"), id);
    assert_eq!(store.ident("/nix/store/0123456789abcdfghijklmnpqrsvwxyz-other"), id);
    assert_eq!(store.ident(id), id);
    assert_ne!(store.ident("/nix/store/1123456789abcdfghijklmnpqrsvwxyz-hello-2.12"), id);
}

#[test]
fn ident_of_another_path_is_the_path() {
    let store = StoreDir::nix();
    assert_eq!(store.ident("/nix/store/short-name"), "/nix/store/short-name");
    assert_eq!(store.ident("/elsewhere"), "/elsewhere");
    assert_eq!(store.ident(""), "");
}

#[test]
fn is_below_asks_for_a_component() {
    let store = StoreDir::nix();
    assert!(store.is_below("/nix/store/a"));
    assert!(store.is_below("/nix/store/abc-name/bin"));
    assert!(!store.is_below("/nix/store"));
    assert!(!store.is_below("/nix/store/"));
    assert!(!store.is_below("/nix/store//a"));
    assert!(!store.is_below("/nix/storefront/a"));
    assert!(!store.is_below("/home/a"));
}

#[test]
fn invalid_among_lists_what_is_no_store_path() {
    let store = StoreDir::nix();
    let paths = vec![
        "/nix/store/0123456789abcdfghijklmnpqrsvwxyz-hello".to_string(),
        "/nix/store/short".to_string(),
        "/elsewhere/0123456789abcdfghijklmnpqrsvwxyz-hello".to_string(),
        "/nix/store/0123456789abcdfghijklmnpqrsvwxyz".to_string(),
    ];
    assert_eq!(
        store.invalid_among(&paths),
        vec!["/nix/store/short", "/elsewhere/0123456789abcdfghijklmnpqrsvwxyz-hello"]
    );
    assert_eq!(store.invalid_among(&Vec::new()), Vec::<String>::new());
}

#[test]
fn join_puts_a_slash_between() {
    assert_eq!(StoreDir::nix().join("abc-name"), "/nix/store/abc-name");
    assert_eq!(StoreDir::new("/store").join(""), "/store/");
}
