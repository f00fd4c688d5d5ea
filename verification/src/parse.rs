//! The middle of the pipeline: `insert_concat` makes implicit concatenation
//! explicit, and `to_postfix` converts the infix token stream to postfix with
//! a shunting-yard variant that also numbers capture groups and emits
//! `CapStart`/`CapEnd` markers around them.
//!
//! `insert_concat_spec` and `to_postfix_spec` are the mathematical
//! descriptions; the executable functions are proved to return exactly what
//! they say.

use vstd::prelude::*;

use crate::error::Error;
use crate::error::ErrorKind;
use crate::error::err;
use crate::token::Token;
use crate::token::TokenM;
use crate::token::copy_token;

verus! {

/// Tokens that can begin an atom: a concatenation is inserted before them.
pub open spec fn is_atom_start(t: TokenM) -> bool {
    match t {
        TokenM::Char(_) => true,
        TokenM::Dot => true,
        TokenM::LParen => true,
        TokenM::Class { .. } => true,
        _ => false,
    }
}

/// Tokens that can end an atom: a concatenation is inserted after them.
pub open spec fn is_atom_end(t: TokenM) -> bool {
    match t {
        TokenM::Char(_) => true,
        TokenM::Dot => true,
        TokenM::RParen => true,
        TokenM::Class { .. } => true,
        TokenM::Star => true,
        TokenM::Plus => true,
        TokenM::Qmark => true,
        _ => false,
    }
}

/// The concatenation inserter from position `i` on: each token is kept, with
/// a `Concat` in front of it when its predecessor ends an atom and it begins
/// one.
pub open spec fn ic_from(ts: Seq<TokenM>, i: int) -> Seq<TokenM>
    decreases ts.len() - i,
{
    if i >= ts.len() {
        Seq::empty()
    } else {
        let head = if 0 < i && is_atom_end(ts[i - 1]) && is_atom_start(ts[i]) {
            seq![TokenM::Concat, ts[i]]
        } else {
            seq![ts[i]]
        };
        head.add(ic_from(ts, i + 1))
    }
}

/// What the concatenation inserter returns for a whole token stream.
pub open spec fn insert_concat_spec(ts: Seq<TokenM>) -> Seq<TokenM> {
    ic_from(ts, 0)
}

/// Whether a token begins an atom, as executable code.
fn is_atom_start_exec(t: &Token) -> (r: bool)
    ensures
        r == is_atom_start(t@),
{
    matches!(t, Token::Char(_) | Token::Dot | Token::LParen | Token::Class { .. })
}

/// Whether a token ends an atom, as executable code.
fn is_atom_end_exec(t: &Token) -> (r: bool)
    ensures
        r == is_atom_end(t@),
{
    matches!(
        t,
        Token::Char(_)
            | Token::Dot
            | Token::RParen
            | Token::Class { .. }
            | Token::Star
            | Token::Plus
            | Token::Qmark
    )
}

/// Inserts an explicit `Concat` token wherever two adjacent tokens stand in
/// atom-end / atom-start position, exactly as `insert_concat_spec` says.
pub fn insert_concat(tokens: &[Token]) -> (out: Vec<Token>)
    ensures
        out.deep_view() == insert_concat_spec(tokens.deep_view()),
{
    let n: usize = tokens.len();
    let mut out: Vec<Token> = Vec::new();
    let mut k: usize = 0;

    while k < n
        invariant
            k <= n,
            n == tokens@.len(),
            insert_concat_spec(tokens.deep_view()) == out.deep_view().add(
                ic_from(tokens.deep_view(), k as int),
            ),
        decreases n - k,
    {
        let ghost old_out = out.deep_view();
        let ghost tsd = tokens.deep_view();
        let ghost head = if 0 < k && is_atom_end(tsd[k as int - 1]) && is_atom_start(
            tsd[k as int],
        ) {
            seq![TokenM::Concat, tsd[k as int]]
        } else {
            seq![tsd[k as int]]
        };
        if k > 0 {
            let pe = is_atom_end_exec(&tokens[k - 1]);
            let ps = is_atom_start_exec(&tokens[k]);
            if pe && ps {
                out.push(Token::Concat);
            }
        }
        out.push(copy_token(&tokens[k]));
        k = k + 1;
        proof {
            assert(out.deep_view() =~= old_out.add(head));
            assert(old_out.add(head).add(ic_from(tsd, k as int)) =~= old_out.add(
                head.add(ic_from(tsd, k as int)),
            ));
        }
    }
    proof {
        assert(out.deep_view().add(Seq::<TokenM>::empty()) =~= out.deep_view());
    }
    out
}

/// An entry of the shunting-yard operator stack: a group sentinel carrying
/// its group id and the output length at which the group's body starts, or a
/// pending binary operator.
pub enum Op {
    LParen { gid: usize, mark: usize },
    Bin(Token),
}

/// The mathematical value of an `Op`.
pub enum OpM {
    LParen { gid: usize, mark: usize },
    Bin(TokenM),
}

impl View for Op {
    type V = OpM;

    open spec fn view(&self) -> OpM {
        match self {
            Op::LParen { gid, mark } => OpM::LParen { gid: *gid, mark: *mark },
            Op::Bin(t) => OpM::Bin(t@),
        }
    }
}

impl DeepView for Op {
    type V = OpM;

    open spec fn deep_view(&self) -> OpM {
        self.view()
    }
}

/// Whether a token is a binary operator of the postfix converter.
pub open spec fn is_bin_op(t: TokenM) -> bool {
    t is Concat || t is Alt
}

/// Operator precedence: concatenation binds tighter than alternation.
pub open spec fn precedence(t: TokenM) -> int {
    if t is Concat {
        2
    } else if t is Alt {
        1
    } else {
        0
    }
}

/// Pops pending binary operators of precedence at least that of `t` to the
/// output; stops at a group sentinel or a looser operator.
pub open spec fn pop_higher(out: Seq<TokenM>, stack: Seq<(OpM, usize)>, t: TokenM) -> (Seq<
    TokenM,
>, Seq<(OpM, usize)>)
    decreases stack.len(),
{
    if stack.len() == 0 {
        (out, stack)
    } else {
        match stack.last().0 {
            OpM::Bin(op2) => if is_bin_op(op2) && precedence(op2) >= precedence(t) {
                pop_higher(out.push(op2), stack.drop_last(), t)
            } else {
                (out, stack)
            },
            OpM::LParen { .. } => (out, stack),
        }
    }
}

/// Pops operators to the output until the innermost group sentinel; an empty
/// stack means the closing parenthesis at token position `pos` is unbalanced.
pub open spec fn pop_group(out: Seq<TokenM>, stack: Seq<(OpM, usize)>, pos: usize) -> Result<
    (usize, usize, Seq<TokenM>, Seq<(OpM, usize)>),
    Error,
>
    decreases stack.len(),
{
    if stack.len() == 0 {
        Err(Error { kind: ErrorKind::UnbalancedParen, pos })
    } else {
        match stack.last().0 {
            OpM::LParen { gid, mark } => Ok((gid, mark, out, stack.drop_last())),
            OpM::Bin(b) => pop_group(out.push(b), stack.drop_last(), pos),
        }
    }
}

/// What a closing parenthesis at token position `i` emits, given the result
/// of popping to the sentinel: for an empty group `CapEnd · Concat`, else
/// `Concat · CapEnd · Concat`.
pub open spec fn rparen_step(
    ts: Seq<TokenM>,
    i: int,
    res: Result<(usize, usize, Seq<TokenM>, Seq<(OpM, usize)>), Error>,
    gid: usize,
) -> Result<Seq<TokenM>, Error>
    decreases ts.len() - i, 0int,
    when i < ts.len()
{
    match res {
        Err(e) => Err(e),
        Ok((g, mark, out2, stack2)) => {
            if out2.len() <= mark {
                pf_from(
                    ts,
                    i + 1,
                    out2.push(TokenM::CapEnd(g)).push(TokenM::Concat),
                    stack2,
                    true,
                    false,
                    gid,
                )
            } else {
                pf_from(
                    ts,
                    i + 1,
                    out2.push(TokenM::Concat).push(TokenM::CapEnd(g)).push(TokenM::Concat),
                    stack2,
                    true,
                    false,
                    gid,
                )
            }
        },
    }
}

/// Flushes the remaining operators at end of input; a surviving group
/// sentinel means its opening parenthesis was never closed.
pub open spec fn flush_ops(out: Seq<TokenM>, stack: Seq<(OpM, usize)>) -> Result<
    Seq<TokenM>,
    Error,
>
    decreases stack.len(),
{
    if stack.len() == 0 {
        Ok(out)
    } else {
        match stack.last() {
            (OpM::LParen { .. }, pos) => Err(Error { kind: ErrorKind::UnbalancedParen, pos }),
            (OpM::Bin(b), _) => flush_ops(out.push(b), stack.drop_last()),
        }
    }
}

/// The postfix converter from token position `i` on, carrying the output so
/// far, the operator stack, the two operand-tracking flags and the next group
/// id. Error positions are token indices.
pub open spec fn pf_from(
    ts: Seq<TokenM>,
    i: int,
    out: Seq<TokenM>,
    stack: Seq<(OpM, usize)>,
    last_was_operand: bool,
    last_was_quant: bool,
    gid: usize,
) -> Result<Seq<TokenM>, Error>
    decreases ts.len() - i, 1int,
{
    if i >= ts.len() {
        flush_ops(out, stack)
    } else {
        let t = ts[i];
        match t {
            TokenM::Char(_) => pf_from(ts, i + 1, out.push(t), stack, true, false, gid),
            TokenM::Dot => pf_from(ts, i + 1, out.push(t), stack, true, false, gid),
            TokenM::Class { .. } => pf_from(ts, i + 1, out.push(t), stack, true, false, gid),
            TokenM::LParen => {
                let out2 = out.push(TokenM::CapStart(gid));
                let mark = out2.len() as usize;
                pf_from(
                    ts,
                    i + 1,
                    out2,
                    stack.push((OpM::LParen { gid, mark }, i as usize)),
                    true,
                    false,
                    (gid + 1) as usize,
                )
            },
            TokenM::RParen => rparen_step(ts, i, pop_group(out, stack, i as usize), gid),
            TokenM::Star => if !last_was_operand || last_was_quant {
                Err(Error { kind: ErrorKind::DanglingQuantifier, pos: i as usize })
            } else {
                pf_from(ts, i + 1, out.push(t), stack, true, true, gid)
            },
            TokenM::Plus => if !last_was_operand || last_was_quant {
                Err(Error { kind: ErrorKind::DanglingQuantifier, pos: i as usize })
            } else {
                pf_from(ts, i + 1, out.push(t), stack, true, true, gid)
            },
            TokenM::Qmark => if !last_was_operand || last_was_quant {
                Err(Error { kind: ErrorKind::DanglingQuantifier, pos: i as usize })
            } else {
                pf_from(ts, i + 1, out.push(t), stack, true, true, gid)
            },
            TokenM::Concat => {
                let popped = pop_higher(out, stack, t);
                pf_from(
                    ts,
                    i + 1,
                    popped.0,
                    popped.1.push((OpM::Bin(t), i as usize)),
                    false,
                    false,
                    gid,
                )
            },
            TokenM::Alt => {
                let popped = pop_higher(out, stack, t);
                pf_from(
                    ts,
                    i + 1,
                    popped.0,
                    popped.1.push((OpM::Bin(t), i as usize)),
                    false,
                    false,
                    gid,
                )
            },
            TokenM::CapStart(_) => Err(
                Error { kind: ErrorKind::UnexpectedToken('^'), pos: i as usize },
            ),
            TokenM::CapEnd(_) => Err(
                Error { kind: ErrorKind::UnexpectedToken('^'), pos: i as usize },
            ),
        }
    }
}

/// What the postfix converter returns for a whole token stream.
pub open spec fn to_postfix_spec(ts: Seq<TokenM>) -> Result<Seq<TokenM>, Error> {
    pf_from(ts, 0, Seq::empty(), Seq::empty(), false, false, 1)
}

/// Whether a token is a binary operator, as executable code.
fn is_bin_op_exec(t: &Token) -> (r: bool)
    ensures
        r == is_bin_op(t@),
{
    matches!(t, Token::Concat | Token::Alt)
}

/// Operator precedence, as executable code.
fn precedence_exec(t: &Token) -> (r: u8)
    ensures
        r as int == precedence(t@),
{
    match t {
        Token::Concat => 2,
        Token::Alt => 1,
        _ => 0,
    }
}

/// Converts an infix token stream (with explicit `Concat`) to postfix,
/// numbering capture groups in order of their opening parentheses, exactly as
/// `to_postfix_spec` says. The stream must leave the group counter
/// representable.
pub fn to_postfix(tokens: &[Token]) -> (r: Result<Vec<Token>, Error>)
    requires
        tokens@.len() < usize::MAX,
    ensures
        r matches Ok(v) ==> to_postfix_spec(tokens.deep_view()) == Ok::<Seq<TokenM>, Error>(
            v.deep_view(),
        ),
        r matches Err(e) ==> to_postfix_spec(tokens.deep_view()) == Err::<Seq<TokenM>, Error>(e),
{
    let ghost tsd = tokens.deep_view();
    let n: usize = tokens.len();
    let mut out: Vec<Token> = Vec::new();
    let mut operator_stack: Vec<(Op, usize)> = Vec::new();
    let mut last_was_operand: bool = false;
    let mut last_was_quant: bool = false;
    let mut next_group_id: usize = 1;
    let mut i: usize = 0;

    proof {
        assert(out.deep_view() =~= Seq::<TokenM>::empty());
        assert(operator_stack.deep_view() =~= Seq::<(OpM, usize)>::empty());
    }
    while i < n
        invariant
            i <= n,
            n == tokens@.len(),
            n < usize::MAX,
            tsd == tokens.deep_view(),
            next_group_id as int <= 1 + i as int,
            to_postfix_spec(tsd) == pf_from(
                tsd,
                i as int,
                out.deep_view(),
                operator_stack.deep_view(),
                last_was_operand,
                last_was_quant,
                next_group_id,
            ),
        decreases n - i,
    {
        let ghost out0 = out.deep_view();
        let ghost stack0 = operator_stack.deep_view();
        let ghost i0 = i as int;
        let t = &tokens[i];
        proof {
            assert(tsd[i0] == tokens@[i0]@);
        }
        if matches!(t, Token::Char(_) | Token::Dot | Token::Class { .. }) {
            out.push(copy_token(t));
            last_was_operand = true;
            last_was_quant = false;
            i = i + 1;
            proof {
                assert(out.deep_view() =~= out0.push(tsd[i0]));
            }
        } else if matches!(t, Token::LParen) {
            let gid = next_group_id;
            next_group_id = next_group_id + 1;
            out.push(Token::CapStart(gid));
            let mark = out.len();
            operator_stack.push((Op::LParen { gid, mark }, i));
            last_was_operand = true;
            last_was_quant = false;
            i = i + 1;
            proof {
                assert(out.deep_view() =~= out0.push(TokenM::CapStart(gid)));
                assert(operator_stack.deep_view() =~= stack0.push(
                    (OpM::LParen { gid, mark }, i0 as usize),
                ));
            }
        } else if matches!(t, Token::RParen) {
            let mut gid: usize = 0;
            let mut mark: usize = 0;
            let mut found: bool = false;
            while !found
                invariant
                    tsd == tokens.deep_view(),
                    i0 == i as int,
                    0 <= i0 < tsd.len(),
                    !found ==> pop_group(out0, stack0, i0 as usize) == pop_group(
                        out.deep_view(),
                        operator_stack.deep_view(),
                        i0 as usize,
                    ),
                    found ==> pop_group(out0, stack0, i0 as usize) == Ok::<
                        (usize, usize, Seq<TokenM>, Seq<(OpM, usize)>),
                        Error,
                    >((gid, mark, out.deep_view(), operator_stack.deep_view())),
                    to_postfix_spec(tsd) == rparen_step(
                        tsd,
                        i0,
                        pop_group(out0, stack0, i0 as usize),
                        next_group_id,
                    ),
                decreases operator_stack@.len() + (if found { 0int } else { 1int }),
            {
                let ghost sd = operator_stack.deep_view();
                let ghost od = out.deep_view();
                match operator_stack.pop() {
                    None => {
                        return err(ErrorKind::UnbalancedParen, i);
                    },
                    Some((top, _pos_top)) => {
                        proof {
                            assert(sd.last() == (top@, _pos_top));
                        }
                        match top {
                            Op::LParen { gid: g, mark: m } => {
                                gid = g;
                                mark = m;
                                found = true;
                                proof {
                                    assert(operator_stack.deep_view() =~= sd.drop_last());
                                }
                            },
                            Op::Bin(bop) => {
                                out.push(bop);
                                proof {
                                    assert(operator_stack.deep_view() =~= sd.drop_last());
                                    assert(out.deep_view() =~= od.push(
                                        sd.last().0->Bin_0,
                                    ));
                                }
                            },
                        }
                    },
                }
            }
            let produced_empty = out.len() <= mark;
            if produced_empty {
                out.push(Token::CapEnd(gid));
                out.push(Token::Concat);
            } else {
                out.push(Token::Concat);
                out.push(Token::CapEnd(gid));
                out.push(Token::Concat);
            }
            last_was_operand = true;
            last_was_quant = false;
            i = i + 1;
            proof {
                if produced_empty {
                    assert(out.deep_view() =~= pop_group(out0, stack0, i0 as usize)->Ok_0.2.push(
                        TokenM::CapEnd(gid),
                    ).push(TokenM::Concat));
                } else {
                    assert(out.deep_view() =~= pop_group(out0, stack0, i0 as usize)->Ok_0.2.push(
                        TokenM::Concat,
                    ).push(TokenM::CapEnd(gid)).push(TokenM::Concat));
                }
            }
        } else if matches!(t, Token::Star | Token::Plus | Token::Qmark) {
            if !last_was_operand {
                return err(ErrorKind::DanglingQuantifier, i);
            }
            if last_was_quant {
                return err(ErrorKind::DanglingQuantifier, i);
            }
            out.push(copy_token(t));
            last_was_operand = true;
            last_was_quant = true;
            i = i + 1;
            proof {
                assert(out.deep_view() =~= out0.push(tsd[i0]));
            }
        } else if matches!(t, Token::Concat | Token::Alt) {
            let prec_t = precedence_exec(t);
            let mut done: bool = false;
            while !done
                invariant
                    tsd == tokens.deep_view(),
                    i0 == i as int,
                    prec_t as int == precedence(tsd[i0]),
                    !done ==> pop_higher(out0, stack0, tsd[i0]) == pop_higher(
                        out.deep_view(),
                        operator_stack.deep_view(),
                        tsd[i0],
                    ),
                    done ==> pop_higher(out0, stack0, tsd[i0]) == (
                        out.deep_view(),
                        operator_stack.deep_view(),
                    ),
                decreases operator_stack@.len() + (if done { 0int } else { 1int }),
            {
                let ghost sd = operator_stack.deep_view();
                let ghost od = out.deep_view();
                let slen = operator_stack.len();
                if slen == 0 {
                    done = true;
                } else {
                    let qualifies = match &operator_stack[slen - 1].0 {
                        Op::Bin(op2) => is_bin_op_exec(op2) && precedence_exec(op2) >= prec_t,
                        Op::LParen { .. } => false,
                    };
                    if qualifies {
                        match operator_stack.pop() {
                            Some((op, _p)) => {
                                match op {
                                    Op::Bin(op2) => {
                                        out.push(op2);
                                        proof {
                                            assert(operator_stack.deep_view() =~= sd.drop_last());
                                            assert(out.deep_view() =~= od.push(
                                                sd.last().0->Bin_0,
                                            ));
                                        }
                                    },
                                    Op::LParen { .. } => {
                                        proof {
                                            assert(false);
                                        }
                                    },
                                }
                            },
                            None => {
                                proof {
                                    assert(false);
                                }
                            },
                        }
                    } else {
                        done = true;
                    }
                }
            }
            operator_stack.push((Op::Bin(copy_token(t)), i));
            last_was_operand = false;
            last_was_quant = false;
            i = i + 1;
            proof {
                assert(operator_stack.deep_view() =~= pop_higher(out0, stack0, tsd[i0]).1.push(
                    (OpM::Bin(tsd[i0]), i0 as usize),
                ));
            }
        } else {
            return err(ErrorKind::UnexpectedToken('^'), i);
        }
    }

    while operator_stack.len() > 0
        invariant
            tsd == tokens.deep_view(),
            to_postfix_spec(tsd) == flush_ops(out.deep_view(), operator_stack.deep_view()),
        decreases operator_stack@.len(),
    {
        let ghost sd = operator_stack.deep_view();
        let ghost od = out.deep_view();
        match operator_stack.pop() {
            Some((op, pos)) => {
                proof {
                    assert(sd.last() == (op@, pos));
                }
                match op {
                    Op::LParen { .. } => {
                        return err(ErrorKind::UnbalancedParen, pos);
                    },
                    Op::Bin(b) => {
                        out.push(b);
                        proof {
                            assert(operator_stack.deep_view() =~= sd.drop_last());
                            assert(out.deep_view() =~= od.push(sd.last().0->Bin_0));
                        }
                    },
                }
            },
            None => {
                proof {
                    assert(false);
                }
            },
        }
    }
    Ok(out)
}


/// Whether a group sentinel for `g` is still open on the stack.
pub open spec fn stack_pending(stack: Seq<(OpM, usize)>, g: usize) -> bool {
    exists|f: int|
        0 <= f < stack.len() && ((#[trigger] stack[f]).0 matches OpM::LParen { gid, .. }
            && gid == g)
}

/// The operator stack's shape during conversion: sentinels carry distinct
/// group ids below the counter, and pending operators are binary.
pub open spec fn stack_ok(stack: Seq<(OpM, usize)>, gid: usize) -> bool {
    &&& forall|f: int|
        0 <= f < stack.len() ==> (match (#[trigger] stack[f]).0 {
            OpM::LParen { gid: pg, .. } => 1 <= pg < gid,
            OpM::Bin(b) => is_bin_op(b),
        })
    &&& forall|f1: int, f2: int|
        (0 <= f1 < stack.len() && 0 <= f2 < stack.len() && f1 != f2 && (#[trigger] stack[f1]).0
            is LParen && (#[trigger] stack[f2]).0 is LParen) ==> stack[f1].0->LParen_gid
            != stack[f2].0->LParen_gid
}

/// The capture markers the output holds so far: a `CapStart` for every group
/// the counter has assigned, and a `CapEnd` for every assigned group whose
/// sentinel is no longer open.
pub open spec fn out_caps_ok(out: Seq<TokenM>, stack: Seq<(OpM, usize)>, gid: usize) -> bool {
    &&& forall|g: usize|
        #![trigger out.contains(TokenM::CapStart(g))]
        out.contains(TokenM::CapStart(g)) <==> 1 <= g < gid
    &&& forall|g: usize|
        #![trigger out.contains(TokenM::CapEnd(g))]
        out.contains(TokenM::CapEnd(g)) <==> (1 <= g < gid && !stack_pending(stack, g))
}

/// Membership in a pushed sequence: the new element, or an old member.
pub proof fn lemma_push_contains<A>(s: Seq<A>, x: A, y: A)
    ensures
        s.push(y).contains(x) <==> (x == y || s.contains(x)),
{
    if s.push(y).contains(x) {
        let k = choose|k: int| 0 <= k < s.push(y).len() && s.push(y)[k] == x;
        if k < s.len() {
            assert(s[k] == x);
        }
    }
    if x == y {
        assert(s.push(y)[s.len() as int] == x);
    }
    if s.contains(x) {
        let k = choose|k: int| 0 <= k < s.len() && s[k] == x;
        assert(s.push(y)[k] == x);
    }
}

/// Dropping the stack's top entry keeps the stack well-shaped.
pub proof fn lemma_stack_ok_drop_last(stack: Seq<(OpM, usize)>, gid: usize)
    requires
        stack.len() > 0,
        stack_ok(stack, gid),
    ensures
        stack_ok(stack.drop_last(), gid),
{
    let stack2 = stack.drop_last();
    assert forall|f: int| 0 <= f < stack2.len() implies (match (#[trigger] stack2[f]).0 {
        OpM::LParen { gid: pg, .. } => 1 <= pg < gid,
        OpM::Bin(b) => is_bin_op(b),
    }) by {
        assert(stack2[f] == stack[f]);
    }
    assert forall|f1: int, f2: int|
        (0 <= f1 < stack2.len() && 0 <= f2 < stack2.len() && f1 != f2 && (#[trigger] stack2[
        f1]).0 is LParen && (#[trigger] stack2[f2]).0 is LParen) implies stack2[f1].0->LParen_gid
        != stack2[f2].0->LParen_gid by {
        assert(stack2[f1] == stack[f1]);
        assert(stack2[f2] == stack[f2]);
    }
}

/// Dropping a pending binary operator leaves the open sentinels unchanged.
pub proof fn lemma_pending_drop_last_bin(stack: Seq<(OpM, usize)>, g: usize)
    requires
        stack.len() > 0,
        stack.last().0 is Bin,
    ensures
        stack_pending(stack.drop_last(), g) <==> stack_pending(stack, g),
{
    let stack2 = stack.drop_last();
    if stack_pending(stack, g) {
        let f = choose|f: int|
            0 <= f < stack.len() && ((#[trigger] stack[f]).0 matches OpM::LParen {
                gid: pg,
                ..
            } && pg == g);
        assert(f < stack2.len());
        assert(stack2[f] == stack[f]);
    }
    if stack_pending(stack2, g) {
        let f = choose|f: int|
            0 <= f < stack2.len() && ((#[trigger] stack2[f]).0 matches OpM::LParen {
                gid: pg,
                ..
            } && pg == g);
        assert(stack[f] == stack2[f]);
    }
}

/// Pushing a binary operator to the output moves no capture marker.
pub proof fn lemma_out_caps_push_bin(
    out: Seq<TokenM>,
    stack: Seq<(OpM, usize)>,
    stack2: Seq<(OpM, usize)>,
    gid: usize,
    b: TokenM,
)
    requires
        out_caps_ok(out, stack, gid),
        is_bin_op(b),
        forall|g: usize| stack_pending(stack2, g) <==> stack_pending(stack, g),
    ensures
        out_caps_ok(out.push(b), stack2, gid),
{
    assert forall|g: usize|
        #![trigger out.push(b).contains(TokenM::CapStart(g))]
        out.push(b).contains(TokenM::CapStart(g)) <==> 1 <= g < gid by {
        lemma_push_contains(out, TokenM::CapStart(g), b);
    }
    assert forall|g: usize|
        #![trigger out.push(b).contains(TokenM::CapEnd(g))]
        out.push(b).contains(TokenM::CapEnd(g)) <==> (1 <= g < gid && !stack_pending(
            stack2,
            g,
        )) by {
        lemma_push_contains(out, TokenM::CapEnd(g), b);
        assert(b != TokenM::CapEnd(g));
        assert(out.contains(TokenM::CapEnd(g)) <==> (1 <= g < gid && !stack_pending(stack, g)));
        assert(stack_pending(stack2, g) <==> stack_pending(stack, g));
    }
}

/// Popping binary operators to the output moves no capture marker and no
/// sentinel.
pub proof fn lemma_pop_higher_caps(
    out: Seq<TokenM>,
    stack: Seq<(OpM, usize)>,
    t: TokenM,
    gid: usize,
)
    requires
        out_caps_ok(out, stack, gid),
        stack_ok(stack, gid),
    ensures
        out_caps_ok(pop_higher(out, stack, t).0, pop_higher(out, stack, t).1, gid),
        stack_ok(pop_higher(out, stack, t).1, gid),
        forall|g: usize|
            stack_pending(pop_higher(out, stack, t).1, g) <==> stack_pending(stack, g),
    decreases stack.len(),
{
    if stack.len() == 0 {
    } else {
        match stack.last().0 {
            OpM::Bin(op2) => {
                if is_bin_op(op2) && precedence(op2) >= precedence(t) {
                    let out2 = out.push(op2);
                    let stack2 = stack.drop_last();
                    assert forall|g: usize|
                        stack_pending(stack2, g) <==> stack_pending(stack, g) by {
                        lemma_pending_drop_last_bin(stack, g);
                    }
                    lemma_out_caps_push_bin(out, stack, stack2, gid, op2);
                    lemma_stack_ok_drop_last(stack, gid);
                    lemma_pop_higher_caps(out2, stack2, t, gid);
                }
            },
            OpM::LParen { .. } => {},
        }
    }
}

/// The open sentinels of `stack2` are those of `stack` except `g2`.
pub open spec fn pending_minus(
    stack2: Seq<(OpM, usize)>,
    stack: Seq<(OpM, usize)>,
    g2: usize,
) -> bool {
    forall|g: usize|
        #![trigger stack_pending(stack2, g)]
        stack_pending(stack2, g) <==> (stack_pending(stack, g) && g != g2)
}

/// Popping to a sentinel moves no capture marker; the found sentinel was
/// open and is open no longer, and every other sentinel stays open.
pub proof fn lemma_pop_group_caps(
    out: Seq<TokenM>,
    stack: Seq<(OpM, usize)>,
    pos: usize,
    gid: usize,
)
    requires
        out_caps_ok(out, stack, gid),
        stack_ok(stack, gid),
    ensures
        pop_group(out, stack, pos) matches Ok(r) ==> (1 <= r.0 < gid && stack_ok(r.3, gid)
            && out_caps_ok(r.2, stack, gid) && pending_minus(r.3, stack, r.0) && stack_pending(
            stack,
            r.0,
        )),
    decreases stack.len(),
{
    if stack.len() == 0 {
    } else {
        match stack.last().0 {
            OpM::LParen { gid: g2, mark } => {
                let stack2 = stack.drop_last();
                assert((#[trigger] stack[stack.len() - 1]).0 matches OpM::LParen { gid: pg, .. }
                    && pg == g2);
                assert(stack_pending(stack, g2));
                lemma_stack_ok_drop_last(stack, gid);
                assert forall|g: usize|
                    #![trigger stack_pending(stack2, g)]
                    stack_pending(stack2, g) <==> (stack_pending(stack, g) && g != g2) by {
                    if stack_pending(stack2, g) {
                        let f = choose|f: int|
                            0 <= f < stack2.len() && ((#[trigger] stack2[f]).0
                                matches OpM::LParen { gid: pg, .. } && pg == g);
                        assert(stack[f] == stack2[f]);
                        assert(stack[f].0 is LParen && stack[stack.len() - 1].0 is LParen);
                        assert(g != g2);
                    }
                    if stack_pending(stack, g) && g != g2 {
                        let f = choose|f: int|
                            0 <= f < stack.len() && ((#[trigger] stack[f]).0 matches OpM::LParen {
                                gid: pg,
                                ..
                            } && pg == g);
                        assert(f != stack.len() - 1);
                        assert(stack2[f] == stack[f]);
                    }
                }
            },
            OpM::Bin(b) => {
                let out2 = out.push(b);
                let stack2 = stack.drop_last();
                assert forall|g: usize|
                    stack_pending(stack2, g) <==> stack_pending(stack, g) by {
                    lemma_pending_drop_last_bin(stack, g);
                }
                lemma_out_caps_push_bin(out, stack, stack2, gid, b);
                lemma_stack_ok_drop_last(stack, gid);
                lemma_pop_group_caps(out2, stack2, pos, gid);
                match pop_group(out2, stack2, pos) {
                    Err(_) => {},
                    Ok(r) => {
                        assert(stack_pending(stack2, r.0));
                        assert(stack_pending(stack, r.0)) by {
                            lemma_pending_drop_last_bin(stack, r.0);
                        }
                        assert(out_caps_ok(r.2, stack, gid)) by {
                            assert forall|g: usize|
                                #![trigger r.2.contains(TokenM::CapEnd(g))]
                                r.2.contains(TokenM::CapEnd(g)) <==> (1 <= g < gid
                                    && !stack_pending(stack, g)) by {
                                assert(r.2.contains(TokenM::CapEnd(g)) <==> (1 <= g < gid
                                    && !stack_pending(stack2, g)));
                                lemma_pending_drop_last_bin(stack, g);
                            }
                        }
                        assert(pending_minus(r.3, stack, r.0)) by {
                            assert forall|g: usize|
                                #![trigger stack_pending(r.3, g)]
                                stack_pending(r.3, g) <==> (stack_pending(stack, g) && g
                                    != r.0) by {
                                assert(stack_pending(r.3, g) <==> (stack_pending(stack2, g) && g
                                    != r.0));
                                lemma_pending_drop_last_bin(stack, g);
                            }
                        }
                    },
                }
            },
        }
    }
}

/// Flushing succeeds only with no sentinel left, and moves no capture
/// marker; the result then holds a `CapStart` and a `CapEnd` for exactly
/// the assigned groups.
pub proof fn lemma_flush_caps(out: Seq<TokenM>, stack: Seq<(OpM, usize)>, gid: usize)
    requires
        out_caps_ok(out, stack, gid),
        stack_ok(stack, gid),
    ensures
        flush_ops(out, stack) matches Ok(res) ==> {
            &&& forall|g: usize| res.contains(TokenM::CapStart(g)) <==> 1 <= g < gid
            &&& forall|g: usize| res.contains(TokenM::CapEnd(g)) <==> 1 <= g < gid
        },
    decreases stack.len(),
{
    if stack.len() == 0 {
        assert forall|g: usize| out.contains(TokenM::CapEnd(g)) <==> 1 <= g < gid by {
            assert(!stack_pending(stack, g));
        }
    } else {
        match stack.last() {
            (OpM::LParen { .. }, _) => {},
            (OpM::Bin(b), _) => {
                let out2 = out.push(b);
                let stack2 = stack.drop_last();
                assert forall|g: usize|
                    stack_pending(stack2, g) <==> stack_pending(stack, g) by {
                    lemma_pending_drop_last_bin(stack, g);
                }
                lemma_out_caps_push_bin(out, stack, stack2, gid, b);
                lemma_stack_ok_drop_last(stack, gid);
                lemma_flush_caps(out2, stack2, gid);
            },
        }
    }
}

/// Pushing a token that is no capture marker moves no capture marker.
pub proof fn lemma_out_caps_push_noncap(
    out: Seq<TokenM>,
    stack: Seq<(OpM, usize)>,
    gid: usize,
    t: TokenM,
)
    requires
        out_caps_ok(out, stack, gid),
        !(t is CapStart),
        !(t is CapEnd),
    ensures
        out_caps_ok(out.push(t), stack, gid),
{
    assert forall|g: usize|
        #![trigger out.push(t).contains(TokenM::CapStart(g))]
        out.push(t).contains(TokenM::CapStart(g)) <==> 1 <= g < gid by {
        lemma_push_contains(out, TokenM::CapStart(g), t);
    }
    assert forall|g: usize|
        #![trigger out.push(t).contains(TokenM::CapEnd(g))]
        out.push(t).contains(TokenM::CapEnd(g)) <==> (1 <= g < gid && !stack_pending(
            stack,
            g,
        )) by {
        lemma_push_contains(out, TokenM::CapEnd(g), t);
    }
}

/// What pushing a stack entry does to the open sentinels.
pub proof fn lemma_pending_push(stack: Seq<(OpM, usize)>, e: (OpM, usize), g: usize)
    ensures
        stack_pending(stack.push(e), g) <==> (stack_pending(stack, g) || (e.0
            matches OpM::LParen { gid: pg, .. } && pg == g)),
{
    let stack2 = stack.push(e);
    if stack_pending(stack2, g) {
        let f = choose|f: int|
            0 <= f < stack2.len() && ((#[trigger] stack2[f]).0 matches OpM::LParen {
                gid: pg,
                ..
            } && pg == g);
        if f < stack.len() {
            assert(stack[f] == stack2[f]);
        } else {
            assert(stack2[f] == e);
        }
    }
    if stack_pending(stack, g) {
        let f = choose|f: int|
            0 <= f < stack.len() && ((#[trigger] stack[f]).0 matches OpM::LParen {
                gid: pg,
                ..
            } && pg == g);
        assert(stack2[f] == stack[f]);
    }
    if e.0 matches OpM::LParen { gid: pg, .. } && pg == g {
        assert(stack2[stack.len() as int] == e);
    }
}

/// The capture markers of a finished conversion pair up: starts and ends
/// name the same groups, every group id is positive, and the named ids are
/// contiguous from 1.
pub open spec fn caps_paired(pf: Seq<TokenM>) -> bool {
    &&& forall|g: usize|
        #![trigger pf.contains(TokenM::CapStart(g))]
        #![trigger pf.contains(TokenM::CapEnd(g))]
        pf.contains(TokenM::CapStart(g)) <==> pf.contains(TokenM::CapEnd(g))
    &&& forall|g: usize|
        #![trigger pf.contains(TokenM::CapStart(g))]
        pf.contains(TokenM::CapStart(g)) ==> 1 <= g
    &&& forall|g1: usize, g2: usize|
        #![trigger pf.contains(TokenM::CapStart(g1)), pf.contains(TokenM::CapStart(g2))]
        (pf.contains(TokenM::CapStart(g2)) && 1 <= g1 <= g2) ==> pf.contains(
            TokenM::CapStart(g1),
        )
}

/// Through the whole conversion, the output's capture markers stay exactly
/// the assigned groups (ends lacking only the still-open ones), so a
/// finished conversion's markers pair up.
pub proof fn lemma_pf_from_caps(
    ts: Seq<TokenM>,
    i: int,
    out: Seq<TokenM>,
    stack: Seq<(OpM, usize)>,
    lwo: bool,
    lwq: bool,
    gid: usize,
)
    requires
        0 <= i,
        1 <= gid,
        ts.len() - i + gid <= usize::MAX,
        out_caps_ok(out, stack, gid),
        stack_ok(stack, gid),
    ensures
        pf_from(ts, i, out, stack, lwo, lwq, gid) matches Ok(pf) ==> caps_paired(pf),
    decreases ts.len() - i,
{
    if i >= ts.len() {
        lemma_flush_caps(out, stack, gid);
    } else {
        let t = ts[i];
        match t {
            TokenM::Char(_) => {
                lemma_out_caps_push_noncap(out, stack, gid, t);
                lemma_pf_from_caps(ts, i + 1, out.push(t), stack, true, false, gid);
            },
            TokenM::Dot => {
                lemma_out_caps_push_noncap(out, stack, gid, t);
                lemma_pf_from_caps(ts, i + 1, out.push(t), stack, true, false, gid);
            },
            TokenM::Class { .. } => {
                lemma_out_caps_push_noncap(out, stack, gid, t);
                lemma_pf_from_caps(ts, i + 1, out.push(t), stack, true, false, gid);
            },
            TokenM::LParen => {
                let out2 = out.push(TokenM::CapStart(gid));
                let mark = out2.len() as usize;
                let e = (OpM::LParen { gid, mark }, i as usize);
                let stack2 = stack.push(e);
                let gid2 = (gid + 1) as usize;
                assert(gid + 1 <= usize::MAX);
                assert(gid2 == gid + 1);
                assert forall|g: usize|
                    #![trigger out2.contains(TokenM::CapStart(g))]
                    out2.contains(TokenM::CapStart(g)) <==> 1 <= g < gid2 by {
                    lemma_push_contains(out, TokenM::CapStart(g), TokenM::CapStart(gid));
                }
                assert forall|g: usize|
                    #![trigger out2.contains(TokenM::CapEnd(g))]
                    out2.contains(TokenM::CapEnd(g)) <==> (1 <= g < gid2 && !stack_pending(
                        stack2,
                        g,
                    )) by {
                    lemma_push_contains(out, TokenM::CapEnd(g), TokenM::CapStart(gid));
                    lemma_pending_push(stack, e, g);
                }
                assert(stack_ok(stack2, gid2)) by {
                    assert forall|f: int| 0 <= f < stack2.len() implies (match (
                    #[trigger] stack2[f]).0 {
                        OpM::LParen { gid: pg, .. } => 1 <= pg < gid2,
                        OpM::Bin(b) => is_bin_op(b),
                    }) by {
                        if f < stack.len() {
                            assert(stack2[f] == stack[f]);
                        } else {
                            assert(stack2[f] == e);
                        }
                    }
                    assert forall|f1: int, f2: int|
                        (0 <= f1 < stack2.len() && 0 <= f2 < stack2.len() && f1 != f2 && (
                        #[trigger] stack2[f1]).0 is LParen && (#[trigger] stack2[f2]).0
                            is LParen) implies stack2[f1].0->LParen_gid
                        != stack2[f2].0->LParen_gid by {
                        if f1 < stack.len() && f2 < stack.len() {
                            assert(stack2[f1] == stack[f1] && stack2[f2] == stack[f2]);
                        } else if f1 < stack.len() {
                            assert(stack2[f1] == stack[f1] && stack2[f2] == e);
                        } else {
                            assert(stack2[f1] == e && stack2[f2] == stack[f2]);
                        }
                    }
                }
                lemma_pf_from_caps(ts, i + 1, out2, stack2, true, false, gid2);
            },
            TokenM::RParen => {
                lemma_pop_group_caps(out, stack, i as usize, gid);
                match pop_group(out, stack, i as usize) {
                    Err(_) => {},
                    Ok(r) => {
                        let (g2, mark, out2, stack2) = r;
                        let out3 = if out2.len() <= mark {
                            out2.push(TokenM::CapEnd(g2)).push(TokenM::Concat)
                        } else {
                            out2.push(TokenM::Concat).push(TokenM::CapEnd(g2)).push(
                                TokenM::Concat,
                            )
                        };
                        let mid = if out2.len() <= mark {
                            out2.push(TokenM::CapEnd(g2))
                        } else {
                            out2.push(TokenM::Concat).push(TokenM::CapEnd(g2))
                        };
                        assert(out_caps_ok(mid, stack2, gid)) by {
                            let base = if out2.len() <= mark {
                                out2
                            } else {
                                out2.push(TokenM::Concat)
                            };
                            if out2.len() > mark {
                                lemma_out_caps_push_noncap(out2, stack, gid, TokenM::Concat);
                            }
                            assert(out_caps_ok(base, stack, gid));
                            assert forall|g: usize|
                                #![trigger mid.contains(TokenM::CapStart(g))]
                                mid.contains(TokenM::CapStart(g)) <==> 1 <= g < gid by {
                                lemma_push_contains(base, TokenM::CapStart(g), TokenM::CapEnd(g2));
                            }
                            assert forall|g: usize|
                                #![trigger mid.contains(TokenM::CapEnd(g))]
                                mid.contains(TokenM::CapEnd(g)) <==> (1 <= g < gid
                                    && !stack_pending(stack2, g)) by {
                                lemma_push_contains(base, TokenM::CapEnd(g), TokenM::CapEnd(g2));
                                assert(stack_pending(stack2, g) <==> (stack_pending(stack, g) && g
                                    != g2));
                            }
                        }
                        lemma_out_caps_push_noncap(mid, stack2, gid, TokenM::Concat);
                        assert(out3 == mid.push(TokenM::Concat));
                        lemma_pf_from_caps(ts, i + 1, out3, stack2, true, false, gid);
                        assert(pop_group(out, stack, i as usize) == Ok::<
                            (usize, usize, Seq<TokenM>, Seq<(OpM, usize)>),
                            Error,
                        >(r));
                        assert(rparen_step(ts, i, pop_group(out, stack, i as usize), gid)
                            == pf_from(ts, i + 1, out3, stack2, true, false, gid));
                        assert(pf_from(ts, i, out, stack, lwo, lwq, gid) == pf_from(
                            ts,
                            i + 1,
                            out3,
                            stack2,
                            true,
                            false,
                            gid,
                        ));
                    },
                }
            },
            TokenM::Star => {
                if !lwo || lwq {
                } else {
                    lemma_out_caps_push_noncap(out, stack, gid, t);
                    lemma_pf_from_caps(ts, i + 1, out.push(t), stack, true, true, gid);
                }
            },
            TokenM::Plus => {
                if !lwo || lwq {
                } else {
                    lemma_out_caps_push_noncap(out, stack, gid, t);
                    lemma_pf_from_caps(ts, i + 1, out.push(t), stack, true, true, gid);
                }
            },
            TokenM::Qmark => {
                if !lwo || lwq {
                } else {
                    lemma_out_caps_push_noncap(out, stack, gid, t);
                    lemma_pf_from_caps(ts, i + 1, out.push(t), stack, true, true, gid);
                }
            },
            TokenM::Concat => {
                lemma_pop_higher_caps(out, stack, t, gid);
                let popped = pop_higher(out, stack, t);
                let e = (OpM::Bin(t), i as usize);
                let stack3 = popped.1.push(e);
                assert(out_caps_ok(popped.0, stack3, gid)) by {
                    assert forall|g: usize|
                        #![trigger popped.0.contains(TokenM::CapEnd(g))]
                        popped.0.contains(TokenM::CapEnd(g)) <==> (1 <= g < gid && !stack_pending(
                            stack3,
                            g,
                        )) by {
                        lemma_pending_push(popped.1, e, g);
                    }
                }
                assert(stack_ok(stack3, gid)) by {
                    assert forall|f: int| 0 <= f < stack3.len() implies (match (
                    #[trigger] stack3[f]).0 {
                        OpM::LParen { gid: pg, .. } => 1 <= pg < gid,
                        OpM::Bin(b) => is_bin_op(b),
                    }) by {
                        if f < popped.1.len() {
                            assert(stack3[f] == popped.1[f]);
                        } else {
                            assert(stack3[f] == e);
                        }
                    }
                    assert forall|f1: int, f2: int|
                        (0 <= f1 < stack3.len() && 0 <= f2 < stack3.len() && f1 != f2 && (
                        #[trigger] stack3[f1]).0 is LParen && (#[trigger] stack3[f2]).0
                            is LParen) implies stack3[f1].0->LParen_gid
                        != stack3[f2].0->LParen_gid by {
                        assert(stack3[f1] == popped.1[f1] && stack3[f2] == popped.1[f2]);
                    }
                }
                lemma_pf_from_caps(ts, i + 1, popped.0, stack3, false, false, gid);
            },
            TokenM::Alt => {
                lemma_pop_higher_caps(out, stack, t, gid);
                let popped = pop_higher(out, stack, t);
                let e = (OpM::Bin(t), i as usize);
                let stack3 = popped.1.push(e);
                assert(out_caps_ok(popped.0, stack3, gid)) by {
                    assert forall|g: usize|
                        #![trigger popped.0.contains(TokenM::CapEnd(g))]
                        popped.0.contains(TokenM::CapEnd(g)) <==> (1 <= g < gid && !stack_pending(
                            stack3,
                            g,
                        )) by {
                        lemma_pending_push(popped.1, e, g);
                    }
                }
                assert(stack_ok(stack3, gid)) by {
                    assert forall|f: int| 0 <= f < stack3.len() implies (match (
                    #[trigger] stack3[f]).0 {
                        OpM::LParen { gid: pg, .. } => 1 <= pg < gid,
                        OpM::Bin(b) => is_bin_op(b),
                    }) by {
                        if f < popped.1.len() {
                            assert(stack3[f] == popped.1[f]);
                        } else {
                            assert(stack3[f] == e);
                        }
                    }
                    assert forall|f1: int, f2: int|
                        (0 <= f1 < stack3.len() && 0 <= f2 < stack3.len() && f1 != f2 && (
                        #[trigger] stack3[f1]).0 is LParen && (#[trigger] stack3[f2]).0
                            is LParen) implies stack3[f1].0->LParen_gid
                        != stack3[f2].0->LParen_gid by {
                        assert(stack3[f1] == popped.1[f1] && stack3[f2] == popped.1[f2]);
                    }
                }
                lemma_pf_from_caps(ts, i + 1, popped.0, stack3, false, false, gid);
            },
            TokenM::CapStart(_) => {},
            TokenM::CapEnd(_) => {},
        }
    }
}

/// A finished conversion's capture markers pair up and are contiguously
/// numbered from 1.
pub proof fn lemma_to_postfix_caps(ts: Seq<TokenM>)
    requires
        ts.len() < usize::MAX,
    ensures
        to_postfix_spec(ts) matches Ok(pf) ==> caps_paired(pf),
{
    assert(out_caps_ok(Seq::empty(), Seq::empty(), 1)) by {
        assert forall|g: usize|
            #![trigger Seq::<TokenM>::empty().contains(TokenM::CapStart(g))]
            !Seq::<TokenM>::empty().contains(TokenM::CapStart(g)) by {
            if Seq::<TokenM>::empty().contains(TokenM::CapStart(g)) {
                let k = choose|k: int|
                    0 <= k < Seq::<TokenM>::empty().len() && Seq::<TokenM>::empty()[k]
                        == TokenM::CapStart(g);
            }
        }
        assert forall|g: usize|
            #![trigger Seq::<TokenM>::empty().contains(TokenM::CapEnd(g))]
            !Seq::<TokenM>::empty().contains(TokenM::CapEnd(g)) by {
            if Seq::<TokenM>::empty().contains(TokenM::CapEnd(g)) {
                let k = choose|k: int|
                    0 <= k < Seq::<TokenM>::empty().len() && Seq::<TokenM>::empty()[k]
                        == TokenM::CapEnd(g);
            }
        }
    }
    lemma_pf_from_caps(ts, 0, Seq::empty(), Seq::empty(), false, false, 1);
}

/// Inserting concatenations at most doubles the token count.
pub proof fn lemma_ic_from_len(ts: Seq<TokenM>, i: int)
    requires
        0 <= i <= ts.len(),
    ensures
        ic_from(ts, i).len() <= 2 * (ts.len() - i),
    decreases ts.len() - i,
{
    if i >= ts.len() {
    } else {
        lemma_ic_from_len(ts, i + 1);
    }
}

} // verus!
