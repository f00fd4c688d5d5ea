// Tests for the concatenation inserter and the postfix converter.

use minregex::ErrorKind;
use minregex::Token;
use minregex::insert_concat;
use minregex::to_postfix;
use minregex::tokenize;

/// tokenize, insert concatenation, convert to postfix.
fn rpn(s: &str) -> Vec<Token> {
    let t = tokenize(s).unwrap();
    let t = insert_concat(&t);
    to_postfix(&t).unwrap()
}

/// tokenize and insert concatenation only.
fn with_concat(s: &str) -> Vec<Token> {
    let t = tokenize(s).unwrap();
    insert_concat(&t)
}

/// Symbolizes a token sequence for comparison: 'c' for a literal, '[' for a
/// class, the operator characters for themselves, '\u{00B7}' for
/// concatenation, and 'S'/'E' for the capture markers (ids ignored).
fn sym(ts: &[Token]) -> String {
    ts.iter()
        .map(|t| match t {
            Token::Char(_) => "c",
            Token::Dot => ".",
            Token::Class { .. } => "[",
            Token::Star => "*",
            Token::Plus => "+",
            Token::Qmark => "?",
            Token::Concat => "\u{00B7}",
            Token::Alt => "|",
            Token::CapStart(_) => "S",
            Token::CapEnd(_) => "E",
            Token::LParen | Token::RParen => unreachable!("Paren should not remain after RPN"),
        })
        .collect::<Vec<_>>()
        .join(" ")
}

#[test]
fn insert_concat_basic_between_literals() {
    let got = with_concat("ab");
    assert_eq!(
        got,
        vec![Token::Char(b'a'), Token::Concat, Token::Char(b'b')]
    );
}

#[test]
fn insert_concat_between_atom_and_group() {
    let got = with_concat("a(b)c");
    assert_eq!(
        got,
        vec![
            Token::Char(b'a'),
            Token::Concat,
            Token::LParen,
            Token::Char(b'b'),
            Token::RParen,
            Token::Concat,
            Token::Char(b'c')
        ]
    );
}

#[test]
fn insert_concat_around_quantified_atom() {
    let got = with_concat("a*b");
    assert_eq!(
        got,
        vec![Token::Char(b'a'), Token::Star, Token::Concat, Token::Char(b'b')]
    );
}

#[test]
fn insert_concat_class_and_dot() {
    let got = with_concat("[0-9].");
    assert_eq!(sym(&got), "[ \u{00B7} .");
}

#[test]
fn rpn_concat_has_higher_precedence_than_alt() {
    let s = sym(&rpn("ab|cd"));
    assert_eq!(s, "c c \u{00B7} c c \u{00B7} |");
}

#[test]
fn rpn_quantifier_then_concat() {
    let s = sym(&rpn("a*b"));
    assert_eq!(s, "c * c \u{00B7}");
}

#[test]
fn rpn_group_non_empty() {
    let s = sym(&rpn("(ab)"));
    assert_eq!(s, "S c c \u{00B7} \u{00B7} E \u{00B7}");
}

#[test]
fn rpn_group_empty() {
    let s = sym(&rpn("()"));
    assert_eq!(s, "S E \u{00B7}");
}

#[test]
fn rpn_group_plus_followed_by_concat() {
    let s = sym(&rpn("(ab)+c"));
    assert_eq!(s, "S c c \u{00B7} \u{00B7} E \u{00B7} + c \u{00B7}");
}

#[test]
fn rpn_optional_group_then_concat() {
    let s = sym(&rpn("(a|b)?c"));
    assert_eq!(s, "S c c | \u{00B7} E \u{00B7} ? c \u{00B7}");
}

#[test]
fn rpn_class_and_dot_concat() {
    let s = sym(&rpn("[0-9]."));
    assert_eq!(s, "[ . \u{00B7}");
}

#[test]
fn rpn_error_on_dangling_quantifier_prefix() {
    let t = tokenize("*a").unwrap();
    let t = insert_concat(&t);
    let err = to_postfix(&t).unwrap_err();
    assert!(matches!(err.kind, ErrorKind::DanglingQuantifier));
}

#[test]
fn rpn_error_on_dangling_quantifier_chain() {
    let t = tokenize("a**").unwrap();
    let t = insert_concat(&t);
    let err = to_postfix(&t).unwrap_err();
    assert!(matches!(err.kind, ErrorKind::DanglingQuantifier));
}

#[test]
fn rpn_error_on_unbalanced_paren_leftover() {
    let t = tokenize("(ab").unwrap();
    let t = insert_concat(&t);
    let err = to_postfix(&t).unwrap_err();
    assert!(matches!(err.kind, ErrorKind::UnbalancedParen));
}

#[test]
fn rpn_error_on_unexpected_cap_tokens() {
    let err = to_postfix(&[Token::CapStart(1)]).unwrap_err();
    assert!(matches!(err.kind, ErrorKind::UnexpectedToken(_)));

    let err = to_postfix(&[Token::CapEnd(1)]).unwrap_err();
    assert!(matches!(err.kind, ErrorKind::UnexpectedToken(_)));
}

#[test]
fn rpn_of_group_plus_strict() {
    let s = sym(&rpn("(ab)+"));
    assert_eq!(s, "S c c \u{00B7} \u{00B7} E \u{00B7} +");
}
