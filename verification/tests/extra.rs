// Additional coverage: exact error kinds and positions, the documented
// boundary cases, and determinism of compilation and matching.

use minregex::ErrorKind;
use minregex::Regex;
use minregex::Token;
use minregex::build_nfa;
use minregex::to_postfix;

#[test]
fn error_kinds_and_positions() {
    // A doubled quantifier is reported at the second quantifier's token.
    let e = Regex::new("a**").unwrap_err();
    assert!(matches!(e.kind, ErrorKind::DanglingQuantifier));
    assert_eq!(e.pos, 2);

    // An unclosed group is reported at end of input, at the sentinel's
    // token position.
    let e = Regex::new("(ab").unwrap_err();
    assert!(matches!(e.kind, ErrorKind::UnbalancedParen));
    assert_eq!(e.pos, 0);

    // A stray closing parenthesis is reported where it stands.
    let e = Regex::new(")a").unwrap_err();
    assert!(matches!(e.kind, ErrorKind::UnbalancedParen));
    assert_eq!(e.pos, 0);

    // A trailing backslash runs off the end of the pattern.
    let e = Regex::new("\\").unwrap_err();
    assert!(matches!(e.kind, ErrorKind::UnexpectedEof));
    assert_eq!(e.pos, 1);

    // An unterminated class is reported at end of input.
    let e = Regex::new("[abc").unwrap_err();
    assert!(matches!(e.kind, ErrorKind::UnbalancedClass));
    assert_eq!(e.pos, 4);
}

#[test]
fn error_unexpected_token_variants() {
    // Capture markers cannot appear in the converter's input.
    let e = to_postfix(&[Token::CapStart(1)]).unwrap_err();
    assert!(matches!(e.kind, ErrorKind::UnexpectedToken('^')));

    // An empty postfix stream leaves the builder without a fragment.
    let e = build_nfa(&[]).unwrap_err();
    assert!(matches!(e.kind, ErrorKind::UnexpectedToken('$')));
}

#[test]
fn empty_group_captures_empty_string() {
    // A lone empty group matches the empty input and captures "".
    let caps = Regex::new("()").unwrap().captures("").unwrap();
    assert_eq!(caps.len(), 2);
    assert_eq!(caps[0], Some(b"".to_vec()));
    assert_eq!(caps[1], Some(b"".to_vec()));
}

#[test]
fn negated_class_complement_over_ascii() {
    // [^a-c] accepts exactly the bytes outside 'a'..='c'; checked over the
    // whole single-byte (ASCII) input space reachable through &str.
    let re = Regex::new("[^a-c]").unwrap();
    for b in 0u8..128u8 {
        let s = (b as char).to_string();
        let inside = b'a' <= b && b <= b'c';
        assert_eq!(re.is_match(&s), !inside, "byte {b}");
    }
}

#[test]
fn compile_is_deterministic() {
    // Two compilations of one pattern agree on every probe.
    let r1 = Regex::new(r"(a|ab)(c?)").unwrap();
    let r2 = Regex::new(r"(a|ab)(c?)").unwrap();
    for s in ["a", "ab", "ac", "abc", "", "abcc"] {
        assert_eq!(r1.is_match(s), r2.is_match(s), "input {s}");
        assert_eq!(r1.captures(s), r2.captures(s), "input {s}");
    }
}

#[test]
fn alternation_requires_full_consumption() {
    // Both branches are explored; the one consuming the whole input wins.
    let caps = Regex::new("(a|ab)").unwrap().captures("ab").unwrap();
    assert_eq!(caps[1], Some(b"ab".to_vec()));
    assert!(!Regex::new("(ab|a)").unwrap().is_match("abx"));
}

#[test]
fn match_iff_captures_present() {
    let re = Regex::new(r"a+").unwrap();
    for s in ["", "a", "aa", "ab"] {
        assert_eq!(re.is_match(s), re.captures(s).is_some(), "input {s}");
    }
}

#[test]
fn whole_match_slot_is_input() {
    let re = Regex::new(r"\w*-?\w*").unwrap();
    for s in ["", "ab", "a-b", "-"] {
        if let Some(caps) = re.captures(s) {
            assert_eq!(caps[0], Some(s.as_bytes().to_vec()), "input {s}");
        }
    }
}

#[test]
fn reversed_range_matches_nothing() {
    // [z-a] compiles; its reversed range admits no byte.
    let re = Regex::new("[z-a]").unwrap();
    for b in 0u8..128u8 {
        let s = (b as char).to_string();
        assert!(!re.is_match(&s), "byte {b}");
    }
}

#[test]
fn greedy_star_takes_whole_consumable_prefix() {
    // a*b must leave exactly one byte for b: total consumption decides.
    let re = Regex::new("(a*)b").unwrap();
    let caps = re.captures("aaab").unwrap();
    assert_eq!(caps[1], Some(b"aaa".to_vec()));
}

#[test]
fn empty_pattern_is_rejected() {
    // An empty pattern leaves the builder without a fragment.
    let e = Regex::new("").unwrap_err();
    assert!(matches!(e.kind, ErrorKind::UnexpectedToken('$')));
}

#[test]
fn star_accepts_empty_input() {
    assert!(Regex::new("a*").unwrap().is_match(""));
    assert!(Regex::new("(ab)*").unwrap().is_match(""));
    assert!(!Regex::new("a+").unwrap().is_match(""));
}

#[test]
fn nested_quantified_groups() {
    // (a|b)* over mixed input; the last iteration's bytes are captured.
    let caps = Regex::new("(a|b)*").unwrap().captures("abba").unwrap();
    assert_eq!(caps[0], Some(b"abba".to_vec()));
    assert_eq!(caps[1], Some(b"a".to_vec()));
}

#[test]
fn quantified_bare_group_open_fails_at_build() {
    // A quantifier directly after `(` is tolerated by the converter (the
    // open parenthesis starts an operand), but the builder then lacks an
    // operand for the group's concatenation and reports the arity error.
    let e = Regex::new("(*)").unwrap_err();
    assert!(matches!(e.kind, ErrorKind::UnexpectedToken(_)));
}
