use nix_cache_cut::report::{deleted_message, retained_message, summary};

#[test]
fn summary_joins_the_two_sizes() {
    assert_eq!(summary("1 B", "2 B"), "1 B in 2 B archive files");
    assert_eq!(summary("", ""), " in  archive files");
}

#[test]
fn retained_message_scales_to_binary_units() {
    assert_eq!(retained_message(1500, 15), "1.46 KiB in 15 B archive files");
    assert_eq!(retained_message(0, 3 * 1024 * 1024), "0 B in 3.00 MiB archive files");
}

#[test]
fn deleted_message_scales_to_binary_units() {
    assert_eq!(deleted_message(15), "15 B");
    assert_eq!(deleted_message(1_500_000_000), "1.40 GiB");
    assert_eq!(deleted_message(1024), "1.00 KiB");
}
