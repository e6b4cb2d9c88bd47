use nix_cache_cut::text::{
    char_is_whitespace, chars_of, has_at, index_of_char, parse_decimal, slice, split_tokens,
    string_of, trimmed_end,
};

#[test]
fn chars_of_keeps_every_character() {
    assert_eq!(chars_of("a/ü-b"), vec!['a', '/', 'ü', '-', 'b']);
    assert_eq!(chars_of(""), Vec::<char>::new());
}

#[test]
fn string_of_and_slice_take_a_range() {
    let chars = chars_of("hash-name");
    assert_eq!(string_of(&chars, 0, 4), "hash");
    assert_eq!(string_of(&chars, 5, 9), "name");
    assert_eq!(string_of(&chars, 4, 4), "");
    assert_eq!(slice(&chars, 4, 6), vec!['-', 'n']);
}

#[test]
fn index_of_char_finds_the_first_at_or_after() {
    let chars = chars_of("/a/b/c");
    assert_eq!(index_of_char(&chars, '/', 0), 0);
    assert_eq!(index_of_char(&chars, '/', 1), 2);
    assert_eq!(index_of_char(&chars, '/', 5), 6);
    assert_eq!(index_of_char(&chars, 'x', 0), 6);
    assert_eq!(index_of_char(&chars, '/', 6), 6);
}

#[test]
fn whitespace_is_what_std_calls_whitespace() {
    let mut n: u32 = 0;
    while n <= 0x10ffff {
        if let Some(c) = char::from_u32(n) {
            assert_eq!(char_is_whitespace(c), c.is_whitespace(), "code point {n:#x}");
        }
        n += 1;
    }
}

#[test]
fn trimmed_end_drops_trailing_whitespace_only() {
    let chars = chars_of("  a b \t\r ");
    assert_eq!(trimmed_end(&chars, 0), 5);
    assert_eq!(trimmed_end(&chars, 5), 5);
    assert_eq!(trimmed_end(&chars, 6), 6);
    let blank = chars_of(" \u{a0}\u{3000}");
    assert_eq!(trimmed_end(&blank, 0), 0);
    let none = chars_of("abc");
    assert_eq!(trimmed_end(&none, 0), 3);
}

#[test]
fn has_at_compares_in_place() {
    let chars = chars_of("/nix/store/x");
    assert!(has_at(&chars, &chars_of("/nix/store"), 0));
    assert!(has_at(&chars, &chars_of("store"), 5));
    assert!(!has_at(&chars, &chars_of("store"), 4));
    assert!(!has_at(&chars, &chars_of("/x/y"), 10));
    assert!(has_at(&chars, &chars_of(""), 12));
    assert!(!has_at(&chars, &chars_of(""), 13));
}

#[test]
fn split_tokens_leaves_out_empty_pieces() {
    assert_eq!(split_tokens(&chars_of("a-1 b-2"), ' '), vec!["a-1", "b-2"]);
    assert_eq!(split_tokens(&chars_of("  a-1   b-2  "), ' '), vec!["a-1", "b-2"]);
    assert_eq!(split_tokens(&chars_of("a\tb"), ' '), vec!["a\tb"]);
    assert_eq!(split_tokens(&chars_of(""), ' '), Vec::<String>::new());
    assert_eq!(split_tokens(&chars_of("   "), ' '), Vec::<String>::new());
}

#[test]
fn parse_decimal_reads_digits_only() {
    assert_eq!(parse_decimal(&chars_of("0")), Some(0));
    assert_eq!(parse_decimal(&chars_of("007")), Some(7));
    assert_eq!(parse_decimal(&chars_of("1234567890")), Some(1234567890));
    assert_eq!(parse_decimal(&chars_of("")), None);
    assert_eq!(parse_decimal(&chars_of("12a")), None);
    assert_eq!(parse_decimal(&chars_of("-1")), None);
    assert_eq!(parse_decimal(&chars_of("+1")), None);
    assert_eq!(parse_decimal(&chars_of(" 1")), None);
    assert_eq!(parse_decimal(&chars_of("١٢")), None);
}

#[test]
fn parse_decimal_stops_at_64_bits() {
    assert_eq!(parse_decimal(&chars_of("18446744073709551615")), Some(u64::MAX));
    assert_eq!(parse_decimal(&chars_of("18446744073709551616")), None);
    assert_eq!(parse_decimal(&chars_of("99999999999999999999")), None);
    assert_eq!(parse_decimal(&chars_of("184467440737095516150")), None);
    assert_eq!(parse_decimal(&chars_of("00018446744073709551615")), Some(u64::MAX));
}
