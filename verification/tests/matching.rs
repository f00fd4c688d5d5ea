// End-to-end matching and capture tests through the public interface.

use minregex::Regex;

fn m(p: &str, s: &str) -> bool {
    Regex::new(p).unwrap().is_match(s)
}

/// Captures as owned byte strings.
fn mc(p: &str, s: &str) -> Option<Vec<Option<Vec<u8>>>> {
    let re = Regex::new(p).expect("Regex::new failed");
    re.captures(s)
}

#[test]
fn digit_class() {
    assert!(m(r"\w+\d+\w+", "foo123bar"));
    assert!(!m(r"\d+", "12a3"));

    assert!(m(r"\D+", "abc_"));
    assert!(!m(r"\D+", "a3"));
}

#[test]
fn word_class() {
    assert!(m(r"\w+", "Az_09"));
    assert!(!m(r"\w+", "Az-09"));

    assert!(m(r"\W", "-"));
    assert!(!m(r"\W", "A"));
    assert!(!m(r"\W", "_"));
    assert!(!m(r"\W", "5"));
}

#[test]
fn space_class() {
    assert!(m(r"a\s+b", "a\t b"));
    assert!(m(r"a\s*b", "a\n\nb"));
    assert!(m(r"\s", " "));
    assert!(m(r"\s", "\t"));
    assert!(m(r"\s", "\n"));
    assert!(m(r"\s", "\r"));
    assert!(m(r"\s", "\u{0B}"));
    assert!(m(r"\s", "\u{0C}"));

    assert!(m(r"\S+", "abc"));
    assert!(!m(r"\S+", "a b"));
}

#[test]
fn combined_preset_classes() {
    assert!(m(r"\w+\s*\w+", "hello_world"));
    assert!(m(r"\w+\s*\w+", "hello  world"));
    assert!(!m(r"\w+\s*\w+", "hello- world"));
}

#[test]
fn escaped_literals() {
    assert!(m(r"\.", "."));
    assert!(m(r"\*", "*"));
    assert!(m(r"\+", "+"));
    assert!(m(r"\?", "?"));
    assert!(m(r"\|", "|"));
    assert!(m(r"\(", "("));
    assert!(m(r"\)", ")"));
    assert!(m(r"\\", r"\"));
    assert!(m(r"\[", "["));
    assert!(m(r"\]", "]"));
}

#[test]
fn escaped_controls() {
    assert!(m(r"a\tb", "a\tb"));
    assert!(m(r"a\nb", "a\nb"));
    assert!(m(r"a\rb", "a\rb"));
    assert!(!m(r"a\tb", "a b"));
}

#[test]
fn literal_full_match_ok_ng() {
    assert!(m("abc", "abc"));
    assert!(!m("abc", "ab"));
    assert!(!m("abc", "abcd"));
    assert!(!m("abc", "zabc"));
}

#[test]
fn concat_and_alt_precedence() {
    assert!(m(r"(ab)|(cd)", "ab"));
    assert!(m(r"(ab)|(cd)", "cd"));
    assert!(!m(r"(ab)|(cd)", "ad"));
    assert!(m(r"a(b|c)d", "abd"));
    assert!(m(r"a(b|c)d", "acd"));
    assert!(!m(r"a(b|c)d", "ab"));
}

#[test]
fn quantifiers_star_plus_qmark() {
    assert!(m(r"a*b", "b"));
    assert!(m(r"a*b", "aaaaab"));
    assert!(!m(r"a*b", "aaaabx"));

    assert!(m(r"a+b", "ab"));
    assert!(m(r"a+b", "aaaab"));
    assert!(!m(r"a+b", "b"));

    assert!(m(r"a?b", "b"));
    assert!(m(r"a?b", "ab"));
    assert!(!m(r"a?b", "aab"));
}

#[test]
fn dot_matches_any_including_newline() {
    assert!(m(r"a.b", "a\nb"));
    assert!(m(r".", "x"));
    assert!(!m(r".", ""));
}

#[test]
fn char_class_basic_and_neg() {
    assert!(m(r"[abc]+", "abca"));
    assert!(!m(r"[abc]+", "abdX"));
    assert!(m(r"[^0-9]+", "abc_"));
    assert!(!m(r"[^0-9]+", "abc3"));
    assert!(m(r"[0-9][0-9][0-9]", "123"));
    assert!(!m(r"[0-9][0-9][0-9]", "12a"));
}

#[test]
fn presets_mix_again() {
    assert!(m(r"\w+\s*\w+", "hello_world"));
    assert!(m(r"\w+\s*\w+", "hello  world"));
    assert!(!m(r"\w+\s*\w+", "hello- world"));
    assert!(m(r"\D+\S", "ab-"));
}

#[test]
fn escapes_again() {
    assert!(m(r"\(", "("));
    assert!(m(r"\)", ")"));
    assert!(m(r"\|", "|"));
    assert!(m(r"\[", "["));
    assert!(m(r"\]", "]"));
    assert!(m(r"\\", r"\"));
    assert!(m(r"\.", "."));
    assert!(m(r"\*", "*"));
    assert!(m(r"\+", "+"));
    assert!(m(r"\?", "?"));
}

#[test]
fn capture_simple_two_groups() {
    let got = mc(r"(foo)(bar)", "foobar").unwrap();
    assert_eq!(got[0], Some(b"foobar".to_vec()));
    assert_eq!(got[1], Some(b"foo".to_vec()));
    assert_eq!(got[2], Some(b"bar".to_vec()));
}

#[test]
fn capture_nested_numbering_and_values() {
    let got = mc(r"(a(b)c)", "abc").unwrap();
    assert_eq!(got.len(), 1 + 2);
    assert_eq!(got[0], Some(b"abc".to_vec()));
    assert_eq!(got[1], Some(b"abc".to_vec()));
    assert_eq!(got[2], Some(b"b".to_vec()));
}

#[test]
fn capture_empty_group() {
    let got = mc(r"a()b", "ab").unwrap();
    assert_eq!(got[0], Some(b"ab".to_vec()));
    assert_eq!(got[1], Some(b"".to_vec()));
}

#[test]
fn capture_optional_group_absent_is_none() {
    let g1 = mc(r"(ab)?c", "abc").unwrap();
    assert_eq!(g1[1], Some(b"ab".to_vec()));

    let g2 = mc(r"(ab)?c", "c").unwrap();
    assert_eq!(g2[1], None);
}

#[test]
fn capture_alt() {
    let a = mc(r"(foo|bar)baz", "foobaz").unwrap();
    assert_eq!(a[1], Some(b"foo".to_vec()));
    let b = mc(r"(foo|bar)baz", "barbaz").unwrap();
    assert_eq!(b[1], Some(b"bar".to_vec()));
}

#[test]
fn capture_repetition_picks_last_iteration() {
    let got = mc(r"(ab)+", "abab").unwrap();
    assert_eq!(got[1], Some(b"ab".to_vec()));
}

#[test]
fn capture_many_and_order() {
    let got = mc(r"(a)(b(c))(d)", "abcd").unwrap();
    assert_eq!(got[1], Some(b"a".to_vec()));
    assert_eq!(got[2], Some(b"bc".to_vec()));
    assert_eq!(got[3], Some(b"c".to_vec()));
    assert_eq!(got[4], Some(b"d".to_vec()));
}

#[test]
fn capture_mixed_with_classes_and_dot() {
    let got = mc(r"(\w+)\s+(.+)", "abc   123-XYZ").unwrap();
    assert_eq!(got[1], Some(b"abc".to_vec()));
    assert_eq!(got[2], Some(b"123-XYZ".to_vec()));
}

#[test]
fn error_unbalanced_paren() {
    let e = Regex::new("(ab");
    assert!(e.is_err());
}

#[test]
fn error_dangling_quantifier() {
    assert!(Regex::new("*a").is_err());
    assert!(Regex::new("+a").is_err());
    assert!(Regex::new("?a").is_err());
    assert!(Regex::new("a**").is_err());
}

#[test]
fn error_bad_class_or_empty_class() {
    // [] opens a class whose first ']' is a literal, so it runs to the end
    // of the pattern and fails as an unterminated class.
    assert!(Regex::new("[]").is_err());
    // A reversed range compiles and simply matches nothing.
    let _ = Regex::new("[z-a]").is_err();
}
