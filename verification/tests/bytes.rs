use header_catalog::bytes::{bytes_eq, copy_range, is_word, join, position, push_bytes, push_str};

fn words(list: &[&str]) -> Vec<Vec<u8>> {
    list.iter().map(|w| w.as_bytes().to_vec()).collect()
}

#[test]
fn copy_range_copies_the_range() {
    assert_eq!(copy_range(b"abcdef", 1, 4), b"bcd".to_vec());
    assert_eq!(copy_range(b"abcdef", 0, 6), b"abcdef".to_vec());
    assert_eq!(copy_range(b"abcdef", 3, 3), Vec::<u8>::new());
}

#[test]
fn bytes_eq_compares_contents() {
    assert!(bytes_eq(b"abc", b"abc"));
    assert!(bytes_eq(b"", b""));
    assert!(!bytes_eq(b"abc", b"abd"));
    assert!(!bytes_eq(b"abc", b"ab"));
    assert!(!bytes_eq(b"ab", b"abc"));
}

#[test]
fn is_word_compares_with_text() {
    assert!(is_word(b"typedef", "typedef"));
    assert!(!is_word(b"typedef", "typede"));
    assert!(!is_word(b"", "x"));
}

#[test]
fn push_appends() {
    let mut out = b"ab".to_vec();
    push_bytes(&mut out, b"cd");
    push_str(&mut out, "ef");
    push_str(&mut out, "");
    assert_eq!(out, b"abcdef".to_vec());
}

#[test]
fn join_puts_the_separator_between_neighbours() {
    assert_eq!(join(&words(&["unsigned", "int"]), "~"), b"unsigned~int".to_vec());
    assert_eq!(join(&words(&["int"]), "~"), b"int".to_vec());
    assert_eq!(join(&words(&[]), "~"), Vec::<u8>::new());
    assert_eq!(join(&words(&["a", "b", "c"]), " ~ "), b"a ~ b ~ c".to_vec());
    assert_eq!(join(&words(&["", ""]), "~"), b"~".to_vec());
}

#[test]
fn position_finds_the_first_occurrence() {
    assert_eq!(position(&words(&["a", "[", "b", "[", "]"]), "["), Some(1));
    assert_eq!(position(&words(&["[", "a"]), "["), Some(0));
    assert_eq!(position(&words(&["a", "b"]), "["), None);
    assert_eq!(position(&words(&[]), "["), None);
}
