use scup::text::{
    chars_of, contains, copy_str, join, same_text, split, starts_with, string_of, to_decimal,
    to_lower, trim,
};

fn trimmed(s: &str) -> String {
    string_of(&trim(&chars_of(s)))
}

fn pieces(s: &str) -> Vec<String> {
    split(&chars_of(s), ',').iter().map(|p| string_of(p)).collect()
}

#[test]
fn white_space_at_the_ends_goes() {
    assert_eq!(trimmed("  a b\t\n"), "a b");
    assert_eq!(trimmed("\u{a0}\u{3000}x\u{2028}\u{85}"), "x");
    assert_eq!(trimmed(" \t "), "");
    assert_eq!(trimmed(""), "");
    assert_eq!(trimmed("\u{200b}x"), "\u{200b}x");
    for c in ['\u{9}', '\u{b}', '\u{20}', '\u{1680}', '\u{2000}', '\u{200a}', '\u{205f}'] {
        assert_eq!(trimmed(&c.to_string()), c.to_string().trim());
    }
}

#[test]
fn texts_come_apart_and_together() {
    assert_eq!(pieces("a,,b"), vec!["a", "", "b"]);
    assert_eq!(pieces(""), vec![""]);
    assert_eq!(pieces("x"), vec!["x"]);
    let parts = vec!["a".to_string(), "b".to_string()];
    assert_eq!(join(&parts, ", "), "a, b");
    assert_eq!(join(&[], ", "), "");
    assert_eq!(pieces(&join(&parts, ",")), parts);
}

#[test]
fn texts_are_compared() {
    assert!(same_text("é", "é") && !same_text("é", "e"));
    assert!(starts_with("abc", "ab") && starts_with("abc", "") && !starts_with("ab", "abc"));
    assert!(contains("xabcx", "abc") && contains("x", "") && !contains("ab", "abc"));
    assert_eq!(to_lower("ÄbC-9Z"), "Äbc-9z");
    assert_eq!(copy_str("é"), "é");
}

#[test]
fn decimal_notation() {
    assert_eq!(to_decimal(0), "0");
    assert_eq!(to_decimal(10), "10");
    assert_eq!(to_decimal(u64::MAX), "18446744073709551615");
}
