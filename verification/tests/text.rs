use fries_corpus_script::text::{
    chars_of, contains, decimal_of, find, parse_usize, split, starts_with, string_of,
};

fn c(s: &str) -> Vec<char> {
    s.chars().collect()
}

#[test]
fn split_matches_str_split() {
    for (s, sep) in [
        ("a:   b:   c", ":   "),
        ("", "   "),
        ("abc", "abc"),
        ("aaaa", "aa"),
        ("aaa", "aa"),
        (":   x", ":   "),
        ("x     y", "   "),
        ("no sep", "|"),
    ] {
        let expected: Vec<Vec<char>> = s.split(sep).map(|p| c(p)).collect();
        assert_eq!(split(&c(s), &c(sep)), expected);
    }
}

#[test]
fn parse_matches_usize_from_str() {
    for s in [
        "0", "42", "+7", "", "+", "-1", "-0", "1a", " 1", "18446744073709551615",
        "18446744073709551616", "99999999999999999999999", "007",
    ] {
        assert_eq!(parse_usize(&c(s)), s.parse::<usize>().ok(), "{}", s);
    }
}

#[test]
fn decimal_matches_display() {
    for n in [0usize, 7, 10, 99, 100, 12345, usize::MAX] {
        assert_eq!(string_of(&decimal_of(n)), n.to_string());
    }
}

#[test]
fn search_functions() {
    assert!(contains(&c("a my_lib b"), &c("my_lib")));
    assert!(!contains(&c("a my-lib b"), &c("my_lib")));
    assert!(contains(&c("x"), &c("")));
    assert!(starts_with(&c("my_lib::f"), &c("my_lib::")));
    assert!(!starts_with(&c("my_lib"), &c("my_lib::")));
    assert_eq!(find(&c("https://x//y"), &c("//")), Some(6));
    assert_eq!(find(&c("none"), &c("//")), None);
    assert_eq!(chars_of("héllo"), c("héllo"));
    assert_eq!(string_of(&c("héllo")), "héllo");
}
