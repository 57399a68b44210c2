//! Texts and patterns.
use liteparse::pattern::{find_from, replace_all, replace_first};
use liteparse::text::{
    blank, chars_of, collapse_whitespace, join, same_text, string_of, to_decimal, to_decimal_list,
    trim, trim_end,
};

#[test]
fn spaces_are_trimmed() {
    for s in ["", " ", " a b ", "\t\na\u{a0}", "\u{2003}x\u{3000}", "a"] {
        assert_eq!(trim(s), s.trim());
        assert_eq!(trim_end(s), s.trim_end());
        assert_eq!(blank(s), s.trim().is_empty());
        assert_eq!(trim(&trim(s)), s.trim());
    }
}

#[test]
fn spaces_are_collapsed() {
    assert_eq!(collapse_whitespace("a  b\n\tc"), "a b c");
}

#[test]
fn numbers_are_written_in_decimal() {
    assert_eq!(to_decimal(0), "0");
    assert_eq!(to_decimal(9), "9");
    assert_eq!(to_decimal(18446744073709551615), "18446744073709551615");
    assert_eq!(to_decimal_list(&[1, 20, 300]), "[1, 20, 300]");
    assert_eq!(to_decimal_list(&[]), "[]");
}

#[test]
fn texts_are_joined_and_compared() {
    assert_eq!(join(&vec!["a".into(), "b".into()], ", "), "a, b");
    assert_eq!(join(&vec![], ", "), "");
    assert!(same_text("abc", "abc"));
    assert!(!same_text("abc", "abd"));
    assert_eq!(string_of(&chars_of("héllo")), "héllo");
}

#[test]
fn patterns_are_found_and_replaced() {
    let s = chars_of("one two one");
    let one = chars_of("one");
    assert_eq!(find_from(&s, &one, 0), Some(0));
    assert_eq!(find_from(&s, &one, 1), Some(8));
    assert_eq!(find_from(&s, &one, 9), None);
    assert_eq!(string_of(&replace_first(chars_of("one two one"), &one, &chars_of("1"))), "1 two one");
    assert_eq!(string_of(&replace_all(&s, &one, &chars_of("1"))), "1 two 1");
}
