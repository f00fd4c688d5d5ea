// Tests for the Thompson construction and the shape of the automata it
// builds, including the capture structure of a representative pattern.

use std::collections::VecDeque;

use minregex::ErrorKind;
use minregex::Label;
use minregex::Nfa;
use minregex::Regex;
use minregex::Token;
use minregex::build_nfa;
use minregex::insert_concat;
use minregex::to_postfix;
use minregex::tokenize;

fn make_postfix(pat: &str) -> Vec<Token> {
    let t = tokenize(pat).unwrap();
    let t = insert_concat(&t);
    to_postfix(&t).unwrap()
}

fn make_nfa(pat: &str) -> Nfa {
    let p = make_postfix(pat);
    build_nfa(&p).unwrap()
}

fn labels(nfa: &Nfa, sid: usize) -> Vec<String> {
    nfa.states[sid]
        .edges
        .iter()
        .map(|(l, _)| match l {
            Label::Eps => "\u{03B5}".to_string(),
            Label::Byte(b) => format!("{}", *b as char),
            Label::Any => ".".to_string(),
            Label::Class { .. } => "[]".to_string(),
            Label::CapBegin(g) => format!("S{}", g),
            Label::CapEnd(g) => format!("E{}", g),
        })
        .collect()
}

/// Symbolizes a postfix token sequence, as in the converter's tests.
fn sym(ts: &[Token]) -> String {
    ts.iter()
        .map(|t| match t {
            Token::Char(_) => "c",
            Token::Dot => ".",
            Token::Class { .. } => "[",
            Token::Star => "*",
            Token::Plus => "+",
            Token::Qmark => "?",
            Token::Concat => "\u{00B7}",
            Token::Alt => "|",
            Token::CapStart(_) => "S",
            Token::CapEnd(_) => "E",
            Token::LParen | Token::RParen => unreachable!("Paren should not appear in postfix"),
        })
        .collect::<Vec<_>>()
        .join(" ")
}

#[test]
fn literal_nfa() {
    let nfa = make_nfa("a");
    assert_eq!(nfa.start, 0);
    assert!(nfa.accept < nfa.states.len());
    let lbls = labels(&nfa, nfa.start);
    assert_eq!(lbls, vec!["\u{03B5}"]);
}

#[test]
fn concat_nfa() {
    let nfa = make_nfa("ab");
    let mut seen = false;
    for st in &nfa.states {
        if st.edges.iter().any(|(l, _)| matches!(l, Label::Byte(b'a'))) {
            seen = true;
        }
    }
    assert!(seen, "should contain edge labeled 'a'");
}

#[test]
fn alt_nfa() {
    let nfa = make_nfa("a|b");
    let (_, to) = &nfa.states[nfa.start].edges[0];
    let lbls = labels(&nfa, *to);
    assert_eq!(lbls, vec!["\u{03B5}", "\u{03B5}"]);
}

#[test]
fn star_nfa() {
    let nfa = make_nfa("a*");
    let has_loop = nfa.states.iter().any(|st| {
        st.edges
            .iter()
            .any(|(l, to)| matches!(l, Label::Eps) && st.edges.iter().any(|(_, t2)| t2 == to))
    });
    assert!(has_loop, "should contain epsilon loop");
}

#[test]
fn plus_nfa() {
    let nfa = make_nfa("a+");
    let has_a = nfa
        .states
        .iter()
        .any(|st| st.edges.iter().any(|(l, _)| matches!(l, Label::Byte(b'a'))));
    assert!(has_a);
}

#[test]
fn qmark_nfa() {
    let nfa = make_nfa("a?");
    let start_lbls = labels(&nfa, nfa.start);
    assert!(start_lbls.contains(&"\u{03B5}".to_string()));
}

#[test]
fn class_and_dot_nfa() {
    let nfa = make_nfa("[0-9].");
    let mut seen_dot = false;
    let mut seen_class = false;
    for st in &nfa.states {
        for (l, _) in &st.edges {
            match l {
                Label::Any => seen_dot = true,
                Label::Class { .. } => seen_class = true,
                _ => {}
            }
        }
    }
    assert!(seen_dot && seen_class);
}

#[test]
fn capture_group_nfa() {
    let nfa = make_nfa("(ab)");
    let mut has_begin = false;
    let mut has_end = false;
    for st in &nfa.states {
        for (l, _) in &st.edges {
            match l {
                Label::CapBegin(_) => has_begin = true,
                Label::CapEnd(_) => has_end = true,
                _ => {}
            }
        }
    }
    assert!(has_begin && has_end);
}

#[test]
fn error_on_empty_postfix() {
    let err = build_nfa(&[]).unwrap_err();
    assert!(matches!(err.kind, ErrorKind::UnexpectedToken(_)));
}

#[test]
fn postfix_for_capture_w_space_dot() {
    let p = make_postfix(r"(\w+)\s+(.+)");
    let s = sym(&p);
    assert!(
        s.contains("S [ + \u{00B7} E \u{00B7}"),
        "missing (\\\\w+) block: {s}"
    );
    assert!(s.contains("[ + \u{00B7}"), "missing \\\\s+ block: {s}");
    assert!(
        s.contains("S . + \u{00B7} E \u{00B7}"),
        "missing (.+) block: {s}"
    );
}

#[test]
fn nfa_contains_two_capture_pairs_and_classes() {
    let nfa = make_nfa(r"(\w+)\s+(.+)");
    let mut cb = 0;
    let mut ce = 0;
    let mut has_w = false;
    let mut has_s = false;
    let mut has_dot = false;

    for st in &nfa.states {
        for (lbl, _) in &st.edges {
            match lbl {
                Label::CapBegin(_) => cb += 1,
                Label::CapEnd(_) => ce += 1,
                Label::Class { ranges, neg } => {
                    if !*neg
                        && ranges.iter().any(|&(a, b)| a == b'0' && b == b'9')
                        && ranges.iter().any(|&(a, b)| a == b'A' && b == b'Z')
                        && ranges.iter().any(|&(a, b)| a == b'a' && b == b'z')
                    {
                        has_w = true;
                    }
                    if !*neg && ranges.iter().any(|&(a, b)| a == b' ' && b == b' ') {
                        has_s = true;
                    }
                }
                Label::Any => has_dot = true,
                _ => {}
            }
        }
    }

    assert_eq!(cb, 2, "CapBegin should appear twice, got {cb}");
    assert_eq!(ce, 2, "CapEnd should appear twice, got {ce}");
    assert!(has_w, "NFA should contain \\\\w class");
    assert!(has_s, "NFA should contain \\\\s class");
    assert!(has_dot, "NFA should contain '.' Any");
}

/// From just after CapBegin(1), CapEnd(1) must not be reachable through
/// non-consuming edges alone: group 1 of this pattern cannot close on a
/// zero-length body.
#[test]
fn no_zero_length_path_from_cap1_begin_to_end() {
    let nfa = make_nfa(r"(\w+)\s+(.+)");

    let mut begin_targets: Vec<usize> = vec![];
    let mut end_sources: Vec<usize> = vec![];
    for (sid, st) in nfa.states.iter().enumerate() {
        for (lbl, to) in &st.edges {
            match lbl {
                Label::CapBegin(g) if *g == 1 => begin_targets.push(*to),
                Label::CapEnd(g) if *g == 1 => end_sources.push(sid),
                _ => {}
            }
        }
    }
    assert!(!begin_targets.is_empty(), "CapBegin(1) not found");
    assert!(!end_sources.is_empty(), "CapEnd(1) not found");

    let mut reachable = false;
    for start in begin_targets {
        let mut seen = vec![false; nfa.states.len()];
        let mut q = VecDeque::new();
        seen[start] = true;
        q.push_back(start);

        while let Some(u) = q.pop_front() {
            if end_sources.contains(&u) {
                reachable = true;
                break;
            }
            for (lbl, v) in &nfa.states[u].edges {
                match lbl {
                    Label::Eps | Label::CapBegin(_) | Label::CapEnd(_) => {
                        if !seen[*v] {
                            seen[*v] = true;
                            q.push_back(*v);
                        }
                    }
                    _ => {}
                }
            }
        }
    }

    assert!(
        !reachable,
        "CapEnd(1) is reachable from CapBegin(1) through non-consuming edges alone (the group could close with zero length)"
    );
}

#[test]
fn smoke_match_and_captures() {
    let re = Regex::new(r"(\w+)\s+(.+)").unwrap();
    let caps = re.captures("abc   123-XYZ").expect("should match fully");
    assert_eq!(caps[1], Some(b"abc".to_vec()));
    assert_eq!(caps[2], Some(b"123-XYZ".to_vec()));
}
