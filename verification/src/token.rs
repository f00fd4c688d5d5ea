//! The lexer: a pattern, seen as a sequence of bytes, becomes a sequence of
//! tokens. Preset escapes (`\d \D \s \S \w \W`) expand to character-class
//! tokens, short escapes (`\t \n \r`) to control bytes, any other escaped byte
//! to a literal. Bracketed classes are parsed here as well.
//!
//! `lex_spec` is the mathematical description of the lexer; `tokenize` is the
//! executable lexer, proved to return exactly what `lex_spec` says.

use vstd::prelude::*;
use vstd::string::StringSliceAdditionalSpecFns;

use crate::error::Error;
use crate::error::ErrorKind;
use crate::error::err;

verus! {

/// Byte values of the pattern metacharacters and of other bytes the lexer
/// inspects, named for readability.
pub const B_BACKSLASH: u8 = 92;
pub const B_DOT: u8 = 46;
pub const B_LPAREN: u8 = 40;
pub const B_RPAREN: u8 = 41;
pub const B_PIPE: u8 = 124;
pub const B_STAR: u8 = 42;
pub const B_PLUS: u8 = 43;
pub const B_QMARK: u8 = 63;
pub const B_LBRACKET: u8 = 91;
pub const B_RBRACKET: u8 = 93;
pub const B_CARET: u8 = 94;
pub const B_DASH: u8 = 45;
pub const B_TAB: u8 = 9;
pub const B_LF: u8 = 10;
pub const B_CR: u8 = 13;
pub const B_SPACE: u8 = 32;
pub const B_VT: u8 = 11;
pub const B_FF: u8 = 12;
pub const B_0: u8 = 48;
pub const B_9: u8 = 57;
pub const B_UPPER_A: u8 = 65;
pub const B_UPPER_Z: u8 = 90;
pub const B_LOWER_A: u8 = 97;
pub const B_LOWER_Z: u8 = 122;
pub const B_UNDERSCORE: u8 = 95;
pub const B_LOWER_D: u8 = 100;
pub const B_UPPER_D: u8 = 68;
pub const B_LOWER_S: u8 = 115;
pub const B_UPPER_S: u8 = 83;
pub const B_LOWER_W: u8 = 119;
pub const B_UPPER_W: u8 = 87;
pub const B_LOWER_T: u8 = 116;
pub const B_LOWER_N: u8 = 110;
pub const B_LOWER_R: u8 = 114;


/// A lexical token of the pattern language. `Concat` is inserted between
/// adjacent atoms by a later stage; `CapStart`/`CapEnd` are produced only by
/// the postfix converter, never by the lexer.
#[derive(Clone, Debug, PartialEq, Eq)]
pub enum Token {
    Char(u8),
    Dot,
    LParen,
    RParen,
    Alt,
    Star,
    Plus,
    Qmark,
    Class { ranges: Vec<(u8, u8)>, neg: bool },
    Concat,
    CapStart(usize),
    CapEnd(usize),
}

/// The mathematical value of a `Token`: the same shape, with class ranges as
/// a `Seq` instead of a `Vec`.
pub enum TokenM {
    Char(u8),
    Dot,
    LParen,
    RParen,
    Alt,
    Star,
    Plus,
    Qmark,
    Class { ranges: Seq<(u8, u8)>, neg: bool },
    Concat,
    CapStart(usize),
    CapEnd(usize),
}

impl View for Token {
    type V = TokenM;

    open spec fn view(&self) -> TokenM {
        match self {
            Token::Char(b) => TokenM::Char(*b),
            Token::Dot => TokenM::Dot,
            Token::LParen => TokenM::LParen,
            Token::RParen => TokenM::RParen,
            Token::Alt => TokenM::Alt,
            Token::Star => TokenM::Star,
            Token::Plus => TokenM::Plus,
            Token::Qmark => TokenM::Qmark,
            Token::Class { ranges, neg } => TokenM::Class { ranges: ranges@, neg: *neg },
            Token::Concat => TokenM::Concat,
            Token::CapStart(g) => TokenM::CapStart(*g),
            Token::CapEnd(g) => TokenM::CapEnd(*g),
        }
    }
}

impl DeepView for Token {
    type V = TokenM;

    open spec fn deep_view(&self) -> TokenM {
        self.view()
    }
}

/// The ranges of the preset class named by an escaped byte, together with its
/// negation flag; `None` when the byte names no preset class.
pub open spec fn preset_class(esc: u8) -> Option<(Seq<(u8, u8)>, bool)> {
    if esc == B_LOWER_D {
        Some((seq![(B_0, B_9)], false))
    } else if esc == B_UPPER_D {
        Some((seq![(B_0, B_9)], true))
    } else if esc == B_LOWER_S {
        Some((space_ranges(), false))
    } else if esc == B_UPPER_S {
        Some((space_ranges(), true))
    } else if esc == B_LOWER_W {
        Some((word_ranges(), false))
    } else if esc == B_UPPER_W {
        Some((word_ranges(), true))
    } else {
        None
    }
}

/// The ASCII whitespace ranges of `\s`: space, `\t`, `\n`, `\r`, VT, FF.
pub open spec fn space_ranges() -> Seq<(u8, u8)> {
    seq![
        (B_SPACE, B_SPACE),
        (B_TAB, B_TAB),
        (B_LF, B_LF),
        (B_CR, B_CR),
        (B_VT, B_VT),
        (B_FF, B_FF),
    ]
}

/// The ranges of `\w`: digits, upper- and lower-case letters, underscore.
pub open spec fn word_ranges() -> Seq<(u8, u8)> {
    seq![(B_0, B_9), (B_UPPER_A, B_UPPER_Z), (B_LOWER_A, B_LOWER_Z), (B_UNDERSCORE, B_UNDERSCORE)]
}

/// Scans the body of a bracketed class from position `i`. `first` is the
/// position of the first content byte (after an optional leading `^`); a `]`
/// at `first` itself is a literal. Returns the ranges and the position just
/// past the closing `]`, or `UnbalancedClass` at end of input.
pub open spec fn scan_class(s: Seq<u8>, i: int, first: int) -> Result<(Seq<(u8, u8)>, int), Error>
    decreases s.len() - i,
{
    if i >= s.len() {
        Err(Error { kind: ErrorKind::UnbalancedClass, pos: s.len() as usize })
    } else if s[i] == B_RBRACKET && i > first {
        Ok((Seq::empty(), i + 1))
    } else if i + 2 < s.len() && s[i + 1] == B_DASH && s[i + 2] != B_RBRACKET {
        match scan_class(s, i + 3, first) {
            Ok((rest, j)) => Ok((seq![(s[i], s[i + 2])].add(rest), j)),
            Err(e) => Err(e),
        }
    } else {
        match scan_class(s, i + 1, first) {
            Ok((rest, j)) => Ok((seq![(s[i], s[i])].add(rest), j)),
            Err(e) => Err(e),
        }
    }
}

/// Parses a whole bracketed class whose `[` sits just before position `i`:
/// an optional leading `^` negates, then the body is scanned.
pub open spec fn scan_class_token(s: Seq<u8>, i: int) -> Result<(TokenM, int), Error> {
    if i < s.len() && s[i] == B_CARET {
        match scan_class(s, i + 1, i + 1) {
            Ok((rs, j)) => Ok((TokenM::Class { ranges: rs, neg: true }, j)),
            Err(e) => Err(e),
        }
    } else {
        match scan_class(s, i, i) {
            Ok((rs, j)) => Ok((TokenM::Class { ranges: rs, neg: false }, j)),
            Err(e) => Err(e),
        }
    }
}

/// On success, the class scan ends strictly beyond where it began and within
/// the pattern.
pub proof fn lemma_scan_class_bounds(s: Seq<u8>, i: int, first: int)
    ensures
        scan_class(s, i, first) is Ok ==> i < scan_class(s, i, first)->Ok_0.1 <= s.len(),
    decreases s.len() - i,
{
    if i >= s.len() {
    } else if s[i] == B_RBRACKET && i > first {
    } else if i + 2 < s.len() && s[i + 1] == B_DASH && s[i + 2] != B_RBRACKET {
        lemma_scan_class_bounds(s, i + 3, first);
    } else {
        lemma_scan_class_bounds(s, i + 1, first);
    }
}

/// Same bound for the whole class parse.
pub proof fn lemma_scan_class_token_bounds(s: Seq<u8>, i: int)
    ensures
        scan_class_token(s, i) is Ok ==> i < scan_class_token(s, i)->Ok_0.1 <= s.len(),
{
    if i < s.len() && s[i] == B_CARET {
        lemma_scan_class_bounds(s, i + 1, i + 1);
    } else {
        lemma_scan_class_bounds(s, i, i);
    }
}

/// Prepends one token to the result of lexing the rest of the pattern.
pub open spec fn lex_cons(t: TokenM, rest: Result<Seq<TokenM>, Error>) -> Result<
    Seq<TokenM>,
    Error,
> {
    match rest {
        Ok(ts) => Ok(seq![t].add(ts)),
        Err(e) => Err(e),
    }
}

/// The lexer, from position `i` to the end of the pattern.
pub open spec fn lex_from(s: Seq<u8>, i: int) -> Result<Seq<TokenM>, Error>
    decreases s.len() - i,
        via lex_from_dec
{
    if i >= s.len() {
        Ok(Seq::empty())
    } else if s[i] == B_BACKSLASH {
        if i + 1 >= s.len() {
            Err(Error { kind: ErrorKind::UnexpectedEof, pos: (i + 1) as usize })
        } else {
            let esc = s[i + 1];
            let tok = match preset_class(esc) {
                Some((rs, neg)) => TokenM::Class { ranges: rs, neg },
                None => if esc == B_LOWER_T {
                    TokenM::Char(B_TAB)
                } else if esc == B_LOWER_N {
                    TokenM::Char(B_LF)
                } else if esc == B_LOWER_R {
                    TokenM::Char(B_CR)
                } else {
                    TokenM::Char(esc)
                },
            };
            lex_cons(tok, lex_from(s, i + 2))
        }
    } else if s[i] == B_DOT {
        lex_cons(TokenM::Dot, lex_from(s, i + 1))
    } else if s[i] == B_LPAREN {
        lex_cons(TokenM::LParen, lex_from(s, i + 1))
    } else if s[i] == B_RPAREN {
        lex_cons(TokenM::RParen, lex_from(s, i + 1))
    } else if s[i] == B_PIPE {
        lex_cons(TokenM::Alt, lex_from(s, i + 1))
    } else if s[i] == B_STAR {
        lex_cons(TokenM::Star, lex_from(s, i + 1))
    } else if s[i] == B_PLUS {
        lex_cons(TokenM::Plus, lex_from(s, i + 1))
    } else if s[i] == B_QMARK {
        lex_cons(TokenM::Qmark, lex_from(s, i + 1))
    } else if s[i] == B_LBRACKET {
        match scan_class_token(s, i + 1) {
            Ok((t, j)) => lex_cons(t, lex_from(s, j)),
            Err(e) => Err(e),
        }
    } else {
        lex_cons(TokenM::Char(s[i]), lex_from(s, i + 1))
    }
}

#[via_fn]
proof fn lex_from_dec(s: Seq<u8>, i: int) {
    if i < s.len() && s[i] == B_LBRACKET {
        lemma_scan_class_token_bounds(s, i + 1);
    }
}

/// What the lexer returns for a whole pattern.
pub open spec fn lex_spec(s: Seq<u8>) -> Result<Seq<TokenM>, Error> {
    lex_from(s, 0)
}

/// The preset classes, as executable data; mirrors `preset_class`.
fn predefined_class(esc: u8) -> (r: Option<(Vec<(u8, u8)>, bool)>)
    ensures
        r matches Some(p) ==> preset_class(esc) == Some((p.0@, p.1)),
        r is None ==> preset_class(esc) is None,
{
    if esc == B_LOWER_D || esc == B_UPPER_D {
        let mut v: Vec<(u8, u8)> = Vec::new();
        v.push((B_0, B_9));
        proof {
            assert(v@ =~= seq![(B_0, B_9)]);
        }
        Some((v, esc == B_UPPER_D))
    } else if esc == B_LOWER_S || esc == B_UPPER_S {
        let v = space_class_vec();
        Some((v, esc == B_UPPER_S))
    } else if esc == B_LOWER_W || esc == B_UPPER_W {
        let v = word_class_vec();
        Some((v, esc == B_UPPER_W))
    } else {
        None
    }
}

/// The `\s` ranges as a vector.
fn space_class_vec() -> (v: Vec<(u8, u8)>)
    ensures
        v@ == space_ranges(),
{
    let mut v: Vec<(u8, u8)> = Vec::new();
    v.push((B_SPACE, B_SPACE));
    v.push((B_TAB, B_TAB));
    v.push((B_LF, B_LF));
    v.push((B_CR, B_CR));
    v.push((B_VT, B_VT));
    v.push((B_FF, B_FF));
    proof {
        assert(v@ =~= space_ranges());
    }
    v
}

/// The `\w` ranges as a vector.
fn word_class_vec() -> (v: Vec<(u8, u8)>)
    ensures
        v@ == word_ranges(),
{
    let mut v: Vec<(u8, u8)> = Vec::new();
    v.push((B_0, B_9));
    v.push((B_UPPER_A, B_UPPER_Z));
    v.push((B_LOWER_A, B_LOWER_Z));
    v.push((B_UNDERSCORE, B_UNDERSCORE));
    proof {
        assert(v@ =~= word_ranges());
    }
    v
}

/// Parses a bracketed class; `start` is the position just after the `[`.
/// Returns the class token and the position just past the closing `]`.
fn parse_class(bytes: &[u8], start: usize) -> (r: Result<(Token, usize), Error>)
    requires
        start <= bytes@.len(),
    ensures
        r matches Ok(p) ==> scan_class_token(bytes@, start as int) == Ok::<(TokenM, int), Error>(
            (p.0@, p.1 as int),
        ),
        r matches Err(e) ==> scan_class_token(bytes@, start as int) == Err::<(TokenM, int), Error>(
            e,
        ),
{
    let n: usize = bytes.len();
    let mut i: usize = start;
    let mut neg: bool = false;

    if i < n && bytes[i] == B_CARET {
        neg = true;
        i = i + 1;
    }
    let first: usize = i;
    let ghost fi = first as int;
    let mut ranges: Vec<(u8, u8)> = Vec::new();

    proof {
        match scan_class(bytes@, fi, fi) {
            Ok(p) => {
                assert(Seq::<(u8, u8)>::empty().add(p.0) =~= p.0);
            },
            Err(_) => {},
        }
    }
    while i < n
        invariant
            first <= i <= n,
            n == bytes@.len(),
            fi == first as int,
            scan_class_token(bytes@, start as int) == (match scan_class(bytes@, i as int, fi) {
                Ok(p) => Ok::<(TokenM, int), Error>(
                    (TokenM::Class { ranges: ranges@.add(p.0), neg }, p.1),
                ),
                Err(e) => Err::<(TokenM, int), Error>(e),
            }),
        decreases n - i,
    {
        if bytes[i] == B_RBRACKET && i > first {
            proof {
                assert(scan_class(bytes@, i as int, fi) == Ok::<(Seq<(u8, u8)>, int), Error>(
                    (Seq::empty(), i + 1),
                ));
                assert(ranges@.add(Seq::empty()) =~= ranges@);
            }
            return Ok((Token::Class { ranges, neg }, i + 1));
        }
        let c1 = bytes[i];
        let is_range: bool = if i + 1 < n {
            if bytes[i + 1] == B_DASH {
                if i + 2 < n {
                    bytes[i + 2] != B_RBRACKET
                } else {
                    false
                }
            } else {
                false
            }
        } else {
            false
        };
        let ghost old_ranges = ranges@;
        if is_range {
            let c2 = bytes[i + 2];
            ranges.push((c1, c2));
            i = i + 3;
            proof {
                match scan_class(bytes@, i as int, fi) {
                    Ok(p) => {
                        assert(old_ranges.add(seq![(c1, c2)].add(p.0)) =~= ranges@.add(p.0));
                    },
                    Err(_) => {},
                }
            }
        } else {
            ranges.push((c1, c1));
            i = i + 1;
            proof {
                match scan_class(bytes@, i as int, fi) {
                    Ok(p) => {
                        assert(old_ranges.add(seq![(c1, c1)].add(p.0)) =~= ranges@.add(p.0));
                    },
                    Err(_) => {},
                }
            }
        }
    }
    err(ErrorKind::UnbalancedClass, i)
}

/// Copies a range vector element by element.
pub(crate) fn copy_ranges(v: &Vec<(u8, u8)>) -> (r: Vec<(u8, u8)>)
    ensures
        r@ == v@,
{
    let mut r: Vec<(u8, u8)> = Vec::new();
    let mut k: usize = 0;
    while k < v.len()
        invariant
            k <= v@.len(),
            r@ == v@.subrange(0, k as int),
        decreases v@.len() - k,
    {
        r.push(v[k]);
        k = k + 1;
        proof {
            assert(r@ =~= v@.subrange(0, k as int));
        }
    }
    proof {
        assert(v@.subrange(0, v@.len() as int) =~= v@);
    }
    r
}

/// Copies a token; the copy has the same mathematical value.
pub(crate) fn copy_token(t: &Token) -> (r: Token)
    ensures
        r@ == t@,
{
    match t {
        Token::Char(b) => Token::Char(*b),
        Token::Dot => Token::Dot,
        Token::LParen => Token::LParen,
        Token::RParen => Token::RParen,
        Token::Alt => Token::Alt,
        Token::Star => Token::Star,
        Token::Plus => Token::Plus,
        Token::Qmark => Token::Qmark,
        Token::Class { ranges, neg } => Token::Class { ranges: copy_ranges(ranges), neg: *neg },
        Token::Concat => Token::Concat,
        Token::CapStart(g) => Token::CapStart(*g),
        Token::CapEnd(g) => Token::CapEnd(*g),
    }
}

/// The lexer: a pattern's bytes become tokens, exactly as `lex_spec` says.
pub fn tokenize(pattern: &str) -> (r: Result<Vec<Token>, Error>)
    ensures
        r matches Ok(v) ==> lex_spec(pattern.spec_bytes()) == Ok::<Seq<TokenM>, Error>(
            v.deep_view(),
        ),
        r matches Err(e) ==> lex_spec(pattern.spec_bytes()) == Err::<Seq<TokenM>, Error>(e),
{
    let bytes: &[u8] = pattern.as_bytes();
    let n: usize = bytes.len();
    let ghost sb = pattern.spec_bytes();
    let mut i: usize = 0;
    let mut out: Vec<Token> = Vec::new();

    while i < n
        invariant
            i <= n,
            n == sb.len(),
            bytes@ == sb,
            sb == pattern.spec_bytes(),
            lex_from(sb, 0) == (match lex_from(sb, i as int) {
                Ok(ts) => Ok::<Seq<TokenM>, Error>(out.deep_view().add(ts)),
                Err(e) => Err::<Seq<TokenM>, Error>(e),
            }),
        decreases n - i,
    {
        let ghost old_out = out.deep_view();
        let ghost old_i = i as int;
        let c = bytes[i];
        if c == B_BACKSLASH {
            i = i + 1;
            if i >= n {
                return err(ErrorKind::UnexpectedEof, i);
            }
            let esc = bytes[i];
            match predefined_class(esc) {
                Some((rv, neg)) => {
                    out.push(Token::Class { ranges: rv, neg });
                    i = i + 1;
                },
                None => {
                    if esc == B_LOWER_T {
                        out.push(Token::Char(B_TAB));
                    } else if esc == B_LOWER_N {
                        out.push(Token::Char(B_LF));
                    } else if esc == B_LOWER_R {
                        out.push(Token::Char(B_CR));
                    } else {
                        out.push(Token::Char(esc));
                    }
                    i = i + 1;
                },
            }
        } else if c == B_DOT {
            out.push(Token::Dot);
            i = i + 1;
        } else if c == B_LPAREN {
            out.push(Token::LParen);
            i = i + 1;
        } else if c == B_RPAREN {
            out.push(Token::RParen);
            i = i + 1;
        } else if c == B_PIPE {
            out.push(Token::Alt);
            i = i + 1;
        } else if c == B_STAR {
            out.push(Token::Star);
            i = i + 1;
        } else if c == B_PLUS {
            out.push(Token::Plus);
            i = i + 1;
        } else if c == B_QMARK {
            out.push(Token::Qmark);
            i = i + 1;
        } else if c == B_LBRACKET {
            match parse_class(bytes, i + 1) {
                Ok((token, j)) => {
                    proof {
                        lemma_scan_class_token_bounds(sb, i + 1);
                    }
                    out.push(token);
                    i = j;
                },
                Err(e) => {
                    return Err(e);
                },
            }
        } else {
            out.push(Token::Char(c));
            i = i + 1;
        }
        proof {
            let tok_m = out@[out@.len() - 1]@;
            assert(out.deep_view() =~= old_out.push(tok_m));
            assert(lex_from(sb, old_i) == lex_cons(tok_m, lex_from(sb, i as int)));
            match lex_from(sb, i as int) {
                Ok(ts) => {
                    assert(old_out.add(seq![tok_m].add(ts)) =~= out.deep_view().add(ts));
                },
                Err(_) => {},
            }
        }
    }
    proof {
        assert(out.deep_view().add(Seq::<TokenM>::empty()) =~= out.deep_view());
    }
    Ok(out)
}


/// The lexer never returns more tokens than there are bytes left.
pub proof fn lemma_lex_from_len(s: Seq<u8>, i: int)
    requires
        0 <= i <= s.len(),
    ensures
        lex_from(s, i) is Ok ==> lex_from(s, i)->Ok_0.len() <= s.len() - i,
    decreases s.len() - i,
{
    if i >= s.len() {
    } else if s[i] == B_BACKSLASH {
        if i + 1 >= s.len() {
        } else {
            lemma_lex_from_len(s, i + 2);
        }
    } else if s[i] == B_LBRACKET {
        lemma_scan_class_token_bounds(s, i + 1);
        match scan_class_token(s, i + 1) {
            Ok((t, j)) => {
                lemma_lex_from_len(s, j);
            },
            Err(_) => {},
        }
    } else {
        lemma_lex_from_len(s, i + 1);
    }
}

} // verus!
