//! Thompson construction: a postfix token stream becomes a nondeterministic
//! finite automaton. States live in one contiguous vector; an edge is a
//! `(label, target)` pair. During construction an edge's target may still be
//! open (a "hole", addressed as `(state, edge-index)`); composing fragments
//! patches holes in place, and the final fragment's holes are patched to the
//! accept state.
//!
//! `build_nfa_spec` is the mathematical description; `build_nfa` is proved to
//! return exactly what it says, and on success a well-formed automaton.

use vstd::prelude::*;

use crate::error::Error;
use crate::error::ErrorKind;
use crate::error::err;
use crate::token::Token;
use crate::token::TokenM;
use crate::token::copy_ranges;

verus! {

/// The label of an NFA edge: consuming labels (`Byte`, `Any`, `Class`), the
/// empty label `Eps`, and the capture markers.
#[derive(Clone, Debug, PartialEq, Eq)]
pub enum Label {
    Eps,
    Byte(u8),
    Any,
    Class { ranges: Vec<(u8, u8)>, neg: bool },
    CapBegin(usize),
    CapEnd(usize),
}

/// The mathematical value of a `Label`.
#[verifier::ext_equal]
pub enum LabelM {
    Eps,
    Byte(u8),
    Any,
    Class { ranges: Seq<(u8, u8)>, neg: bool },
    CapBegin(usize),
    CapEnd(usize),
}

impl View for Label {
    type V = LabelM;

    open spec fn view(&self) -> LabelM {
        match self {
            Label::Eps => LabelM::Eps,
            Label::Byte(b) => LabelM::Byte(*b),
            Label::Any => LabelM::Any,
            Label::Class { ranges, neg } => LabelM::Class { ranges: ranges@, neg: *neg },
            Label::CapBegin(g) => LabelM::CapBegin(*g),
            Label::CapEnd(g) => LabelM::CapEnd(*g),
        }
    }
}

impl DeepView for Label {
    type V = LabelM;

    open spec fn deep_view(&self) -> LabelM {
        self.view()
    }
}

/// Copies a label; the copy has the same mathematical value.
pub(crate) fn copy_label(l: &Label) -> (r: Label)
    ensures
        r@ == l@,
{
    match l {
        Label::Eps => Label::Eps,
        Label::Byte(b) => Label::Byte(*b),
        Label::Any => Label::Any,
        Label::Class { ranges, neg } => Label::Class { ranges: copy_ranges(ranges), neg: *neg },
        Label::CapBegin(g) => Label::CapBegin(*g),
        Label::CapEnd(g) => Label::CapEnd(*g),
    }
}

/// An NFA state: its ordered list of outgoing `(label, target)` edges.
#[derive(Clone, Debug)]
pub struct State {
    pub edges: Vec<(Label, usize)>,
}

/// The mathematical value of a `State`.
#[verifier::ext_equal]
pub struct StateM {
    pub edges: Seq<(LabelM, usize)>,
}

impl View for State {
    type V = StateM;

    open spec fn view(&self) -> StateM {
        StateM { edges: self.edges.deep_view() }
    }
}

impl DeepView for State {
    type V = StateM;

    open spec fn deep_view(&self) -> StateM {
        self.view()
    }
}

/// A whole automaton: the state vector, the start state (always 0) and the
/// accept state (always the last state, without outgoing edges).
#[derive(Clone, Debug)]
pub struct Nfa {
    pub states: Vec<State>,
    pub start: usize,
    pub accept: usize,
}

/// The mathematical value of an `Nfa`.
#[verifier::ext_equal]
pub struct NfaM {
    pub states: Seq<StateM>,
    pub start: usize,
    pub accept: usize,
}

impl View for Nfa {
    type V = NfaM;

    open spec fn view(&self) -> NfaM {
        NfaM { states: self.states.deep_view(), start: self.start, accept: self.accept }
    }
}

/// Every edge of every state points at an existing state.
pub open spec fn states_targets_ok(states: Seq<StateM>) -> bool {
    forall|s: int, e: int|
        0 <= s < states.len() && 0 <= e < states[s].edges.len() ==> (
        #[trigger] states[s].edges[e]).1 < states.len()
}

/// A well-formed automaton: valid start and accept states, valid edge
/// targets, and no edge out of the accept state.
pub open spec fn nfa_wf(m: NfaM) -> bool {
    &&& m.start == 0
    &&& m.start < m.states.len()
    &&& m.accept < m.states.len()
    &&& states_targets_ok(m.states)
    &&& m.states[m.accept as int].edges.len() == 0
}

/// An edge under construction: its target may still be open.
pub struct EdgeBuilder {
    pub label: Label,
    pub to: Option<usize>,
}

/// The mathematical value of an `EdgeBuilder`.
#[verifier::ext_equal]
pub struct EdgeBuilderM {
    pub label: LabelM,
    pub to: Option<usize>,
}

impl View for EdgeBuilder {
    type V = EdgeBuilderM;

    open spec fn view(&self) -> EdgeBuilderM {
        EdgeBuilderM { label: self.label@, to: self.to }
    }
}

impl DeepView for EdgeBuilder {
    type V = EdgeBuilderM;

    open spec fn deep_view(&self) -> EdgeBuilderM {
        self.view()
    }
}

/// A state under construction.
pub struct StateBuilder {
    pub edges: Vec<EdgeBuilder>,
}

impl View for StateBuilder {
    type V = Seq<EdgeBuilderM>;

    open spec fn view(&self) -> Seq<EdgeBuilderM> {
        self.edges.deep_view()
    }
}

impl DeepView for StateBuilder {
    type V = Seq<EdgeBuilderM>;

    open spec fn deep_view(&self) -> Seq<EdgeBuilderM> {
        self.view()
    }
}

/// A fragment: a partial automaton with one entry state and the holes that
/// still await a target, each addressed as `(state, edge-index)`.
pub struct Frag {
    pub start: usize,
    pub outs: Vec<(usize, usize)>,
}

/// The mathematical value of a `Frag`.
#[verifier::ext_equal]
pub struct FragM {
    pub start: usize,
    pub outs: Seq<(usize, usize)>,
}

impl View for Frag {
    type V = FragM;

    open spec fn view(&self) -> FragM {
        FragM { start: self.start, outs: self.outs@ }
    }
}

impl DeepView for Frag {
    type V = FragM;

    open spec fn deep_view(&self) -> FragM {
        self.view()
    }
}

/// Every hole addresses an existing edge.
pub open spec fn holes_ok(states: Seq<Seq<EdgeBuilderM>>, outs: Seq<(usize, usize)>) -> bool {
    forall|k: int|
        0 <= k < outs.len() ==> (#[trigger] outs[k]).0 < states.len() && outs[k].1 < states[
            outs[k].0 as int
        ].len()
}

/// Every fragment's entry state exists and its holes address existing edges.
pub open spec fn frags_ok(states: Seq<Seq<EdgeBuilderM>>, frags: Seq<FragM>) -> bool {
    forall|f: int|
        0 <= f < frags.len() ==> (#[trigger] frags[f]).start < states.len() && holes_ok(
            states,
            frags[f].outs,
        )
}

/// Whether some fragment on the stack lists the hole `h`.
pub open spec fn hole_listed(frags: Seq<FragM>, h: (usize, usize)) -> bool {
    exists|f: int| 0 <= f < frags.len() && (#[trigger] frags[f]).outs.contains(h)
}

/// Every open target is listed as a hole of some fragment on the stack, so
/// that composing and finishing the fragments patches them all.
pub open spec fn nones_covered(states: Seq<Seq<EdgeBuilderM>>, frags: Seq<FragM>) -> bool {
    forall|s: int, e: int|
        0 <= s < states.len() && 0 <= e < states[s].len() && (#[trigger] states[s][e]).to
            is None ==> hole_listed(frags, (s as usize, e as usize))
}

/// Every already-patched target points at an existing state.
pub open spec fn builder_targets_ok(states: Seq<Seq<EdgeBuilderM>>) -> bool {
    forall|s: int, e: int|
        0 <= s < states.len() && 0 <= e < states[s].len() ==> ((#[trigger] states[s][e]).to
            matches Some(t) ==> t < states.len())
}

/// Patches each listed hole to `target`, in order. An out-of-range hole is
/// ignored, which keeps the function total; the construction never produces
/// one.
pub open spec fn patch_m(
    states: Seq<Seq<EdgeBuilderM>>,
    holes: Seq<(usize, usize)>,
    target: usize,
) -> Seq<Seq<EdgeBuilderM>>
    decreases holes.len(),
{
    if holes.len() == 0 {
        states
    } else {
        let sid = holes[0].0 as int;
        let ei = holes[0].1 as int;
        let states2 = if 0 <= sid < states.len() && 0 <= ei < states[sid].len() {
            states.update(
                sid,
                states[sid].update(
                    ei,
                    EdgeBuilderM { label: states[sid][ei].label, to: Some(target) },
                ),
            )
        } else {
            states
        };
        patch_m(states2, holes.drop_first(), target)
    }
}

/// What patching does, edge by edge: lengths and labels are unchanged, the
/// listed holes now carry `Some(target)`, every other edge keeps its target.
pub proof fn lemma_patch_m_props(
    states: Seq<Seq<EdgeBuilderM>>,
    holes: Seq<(usize, usize)>,
    target: usize,
)
    requires
        states.len() <= usize::MAX,
        forall|s: int| 0 <= s < states.len() ==> (#[trigger] states[s]).len() <= usize::MAX,
    ensures
        patch_m(states, holes, target).len() == states.len(),
        forall|s: int|
            0 <= s < states.len() ==> (#[trigger] patch_m(states, holes, target)[s]).len()
                == states[s].len(),
        forall|s: int, e: int|
            0 <= s < states.len() && 0 <= e < states[s].len() ==> (#[trigger] patch_m(
                states,
                holes,
                target,
            )[s][e]).label == states[s][e].label,
        forall|s: int, e: int|
            0 <= s < states.len() && 0 <= e < states[s].len() ==> (#[trigger] patch_m(
                states,
                holes,
                target,
            )[s][e]).to == (if holes.contains((s as usize, e as usize)) {
                Some(target)
            } else {
                states[s][e].to
            }),
    decreases holes.len(),
{
    if holes.len() == 0 {
    } else {
        let sid = holes[0].0 as int;
        let ei = holes[0].1 as int;
        let states2 = if 0 <= sid < states.len() && 0 <= ei < states[sid].len() {
            states.update(
                sid,
                states[sid].update(
                    ei,
                    EdgeBuilderM { label: states[sid][ei].label, to: Some(target) },
                ),
            )
        } else {
            states
        };
        lemma_patch_m_props(states2, holes.drop_first(), target);
        assert forall|s: int, e: int| 0 <= s < states.len() && 0 <= e < states[s].len() implies (
        #[trigger] patch_m(states, holes, target)[s][e]).to == (if holes.contains(
            (s as usize, e as usize),
        ) {
            Some(target)
        } else {
            states[s][e].to
        }) by {
            if holes.contains((s as usize, e as usize)) {
                let k = choose|k: int|
                    0 <= k < holes.len() && holes[k] == (s as usize, e as usize);
                if k == 0 {
                    assert(sid == s && ei == e);
                    assert(states2[s][e].to == Some(target));
                    if holes.drop_first().contains((s as usize, e as usize)) {
                    } else {
                    }
                    assert(patch_m(states, holes, target)[s][e].to == Some(target));
                } else {
                    assert(holes.drop_first()[k - 1] == (s as usize, e as usize));
                    assert(holes.drop_first().contains((s as usize, e as usize)));
                }
            } else {
                assert(!holes.drop_first().contains((s as usize, e as usize))) by {
                    if holes.drop_first().contains((s as usize, e as usize)) {
                        let k = choose|k: int|
                            0 <= k < holes.drop_first().len() && holes.drop_first()[k] == (
                            s as usize,
                            e as usize,
                            );
                        assert(holes[k + 1] == (s as usize, e as usize));
                    }
                }
                assert(!(sid == s && ei == e)) by {
                    if sid == s && ei == e {
                        assert(holes[0] == (s as usize, e as usize));
                    }
                }
            }
        }
    }
}

/// A fresh state holding one edge with the given label and an open target,
/// pushed as a fragment of its own.
pub open spec fn unary_frag_m(
    states: Seq<Seq<EdgeBuilderM>>,
    frags: Seq<FragM>,
    label: LabelM,
) -> (Seq<Seq<EdgeBuilderM>>, Seq<FragM>) {
    let s = states.len() as usize;
    (
        states.push(seq![EdgeBuilderM { label, to: None }]),
        frags.push(FragM { start: s, outs: seq![(s, 0usize)] }),
    )
}

/// The character a token is reported as in arity errors.
pub open spec fn op_char_m(t: TokenM) -> char {
    match t {
        TokenM::Alt => '|',
        TokenM::Concat => '\u{00B7}',
        TokenM::Star => '*',
        TokenM::Plus => '+',
        TokenM::Qmark => '?',
        TokenM::LParen => '(',
        TokenM::RParen => ')',
        TokenM::Dot => '.',
        TokenM::Char(c) => c as char,
        TokenM::Class { .. } => ']',
        TokenM::CapStart(_) => '(',
        TokenM::CapEnd(_) => ')',
    }
}

/// One Thompson step: how the postfix token at position `i` transforms the
/// state vector and the fragment stack.
pub open spec fn bn_step(
    states: Seq<Seq<EdgeBuilderM>>,
    frags: Seq<FragM>,
    t: TokenM,
    i: int,
) -> Result<(Seq<Seq<EdgeBuilderM>>, Seq<FragM>), Error> {
    match t {
        TokenM::Char(b) => Ok(unary_frag_m(states, frags, LabelM::Byte(b))),
        TokenM::Dot => Ok(unary_frag_m(states, frags, LabelM::Any)),
        TokenM::Class { ranges, neg } => Ok(
            unary_frag_m(states, frags, LabelM::Class { ranges, neg }),
        ),
        TokenM::CapStart(g) => Ok(unary_frag_m(states, frags, LabelM::CapBegin(g))),
        TokenM::CapEnd(g) => Ok(unary_frag_m(states, frags, LabelM::CapEnd(g))),
        TokenM::Concat => if frags.len() < 2 {
            Err(Error { kind: ErrorKind::UnexpectedToken(op_char_m(t)), pos: i as usize })
        } else {
            let b = frags.last();
            let a = frags[frags.len() - 2];
            let states2 = patch_m(states, a.outs, b.start);
            Ok(
                (
                    states2,
                    frags.drop_last().drop_last().push(FragM { start: a.start, outs: b.outs }),
                ),
            )
        },
        TokenM::Alt => if frags.len() < 2 {
            Err(Error { kind: ErrorKind::UnexpectedToken(op_char_m(t)), pos: i as usize })
        } else {
            let b = frags.last();
            let a = frags[frags.len() - 2];
            let s = states.len() as usize;
            let states2 = states.push(
                seq![
                    EdgeBuilderM { label: LabelM::Eps, to: Some(a.start) },
                    EdgeBuilderM { label: LabelM::Eps, to: Some(b.start) },
                ],
            );
            Ok(
                (
                    states2,
                    frags.drop_last().drop_last().push(
                        FragM { start: s, outs: a.outs.add(b.outs) },
                    ),
                ),
            )
        },
        TokenM::Star => if frags.len() < 1 {
            Err(Error { kind: ErrorKind::UnexpectedToken(op_char_m(t)), pos: i as usize })
        } else {
            let a = frags.last();
            let s = states.len() as usize;
            let states2 = states.push(
                seq![
                    EdgeBuilderM { label: LabelM::Eps, to: Some(a.start) },
                    EdgeBuilderM { label: LabelM::Eps, to: None },
                ],
            );
            let states3 = patch_m(states2, a.outs, s);
            Ok((states3, frags.drop_last().push(FragM { start: s, outs: seq![(s, 1usize)] })))
        },
        TokenM::Plus => if frags.len() < 1 {
            Err(Error { kind: ErrorKind::UnexpectedToken(op_char_m(t)), pos: i as usize })
        } else {
            let a = frags.last();
            let s = states.len() as usize;
            let states2 = states.push(
                seq![
                    EdgeBuilderM { label: LabelM::Eps, to: Some(a.start) },
                    EdgeBuilderM { label: LabelM::Eps, to: None },
                ],
            );
            let states3 = patch_m(states2, a.outs, s);
            Ok(
                (
                    states3,
                    frags.drop_last().push(FragM { start: a.start, outs: seq![(s, 1usize)] }),
                ),
            )
        },
        TokenM::Qmark => if frags.len() < 1 {
            Err(Error { kind: ErrorKind::UnexpectedToken(op_char_m(t)), pos: i as usize })
        } else {
            let a = frags.last();
            let s = states.len() as usize;
            let states2 = states.push(
                seq![
                    EdgeBuilderM { label: LabelM::Eps, to: Some(a.start) },
                    EdgeBuilderM { label: LabelM::Eps, to: None },
                ],
            );
            Ok(
                (
                    states2,
                    frags.drop_last().push(FragM { start: s, outs: a.outs.push((s, 1usize)) }),
                ),
            )
        },
        TokenM::LParen => Err(Error { kind: ErrorKind::UnbalancedParen, pos: i as usize }),
        TokenM::RParen => Err(Error { kind: ErrorKind::UnbalancedParen, pos: i as usize }),
    }
}

/// The Thompson construction from postfix position `i` on.
pub open spec fn bn_from(
    postfix: Seq<TokenM>,
    i: int,
    states: Seq<Seq<EdgeBuilderM>>,
    frags: Seq<FragM>,
) -> Result<(Seq<Seq<EdgeBuilderM>>, Seq<FragM>), Error>
    decreases postfix.len() - i,
{
    if i >= postfix.len() {
        Ok((states, frags))
    } else {
        match bn_step(states, frags, postfix[i], i) {
            Err(e) => Err(e),
            Ok((s2, f2)) => bn_from(postfix, i + 1, s2, f2),
        }
    }
}

/// Closes every remaining hole: an unpatched target becomes state 0. The
/// finished construction leaves none.
pub open spec fn finalize_m(states: Seq<Seq<EdgeBuilderM>>) -> Seq<StateM> {
    states.map_values(
        |edges: Seq<EdgeBuilderM>|
            StateM {
                edges: edges.map_values(
                    |e: EdgeBuilderM|
                        (
                            e.label,
                            match e.to {
                                Some(t) => t,
                                None => 0usize,
                            },
                        ),
                ),
            },
    )
}

/// What the whole construction returns: state 0 is pre-allocated as the
/// global start; after all tokens, exactly one fragment must remain; its
/// holes are patched to a fresh accept state, and the start is wired to the
/// fragment's entry by an empty edge where they differ.
pub open spec fn build_nfa_spec(postfix: Seq<TokenM>) -> Result<NfaM, Error> {
    let init = seq![Seq::<EdgeBuilderM>::empty()];
    match bn_from(postfix, 0, init, Seq::empty()) {
        Err(e) => Err(e),
        Ok((states, frags)) => {
            if frags.len() != 1 {
                Err(
                    Error {
                        kind: ErrorKind::UnexpectedToken('$'),
                        pos: postfix.len() as usize,
                    },
                )
            } else {
                let top = frags.last();
                let accept = states.len() as usize;
                let states2 = states.push(Seq::empty());
                let states3 = patch_m(states2, top.outs, accept);
                let states4 = if top.start != 0 {
                    states3.update(
                        0,
                        states3[0].push(EdgeBuilderM { label: LabelM::Eps, to: Some(top.start) }),
                    )
                } else {
                    states3
                };
                Ok(NfaM { states: finalize_m(states4), start: 0, accept })
            }
        },
    }
}

/// Whether some edge under construction carries the label.
pub open spec fn builder_has_label(states: Seq<Seq<EdgeBuilderM>>, l: LabelM) -> bool {
    exists|s: int, e: int|
        0 <= s < states.len() && 0 <= e < states[s].len() && (#[trigger] states[s][e]).label == l
}

/// Whether some edge of the finished automaton carries the label.
pub open spec fn nfa_has_label(states: Seq<StateM>, l: LabelM) -> bool {
    exists|s: int, e: int|
        0 <= s < states.len() && 0 <= e < states[s].edges.len() && (#[trigger] states[s].edges[
            e
        ]).0 == l
}

/// Whether the token occurs in the stream from position `i` on.
pub open spec fn suffix_has(pf: Seq<TokenM>, i: int, t: TokenM) -> bool {
    exists|j: int| i <= j < pf.len() && pf[j] == t
}

/// Patching changes no label and no shape.
pub proof fn lemma_patch_m_keeps_labels(
    states: Seq<Seq<EdgeBuilderM>>,
    holes: Seq<(usize, usize)>,
    target: usize,
)
    ensures
        patch_m(states, holes, target).len() == states.len(),
        forall|s: int|
            0 <= s < states.len() ==> (#[trigger] patch_m(states, holes, target)[s]).len()
                == states[s].len(),
        forall|s: int, e: int|
            0 <= s < states.len() && 0 <= e < states[s].len() ==> (#[trigger] patch_m(
                states,
                holes,
                target,
            )[s][e]).label == states[s][e].label,
    decreases holes.len(),
{
    if holes.len() == 0 {
    } else {
        let sid = holes[0].0 as int;
        let ei = holes[0].1 as int;
        let states2 = if 0 <= sid < states.len() && 0 <= ei < states[sid].len() {
            states.update(
                sid,
                states[sid].update(
                    ei,
                    EdgeBuilderM { label: states[sid][ei].label, to: Some(target) },
                ),
            )
        } else {
            states
        };
        lemma_patch_m_keeps_labels(states2, holes.drop_first(), target);
    }
}

/// Patching leaves the set of labels unchanged.
pub proof fn lemma_has_label_patch(
    states: Seq<Seq<EdgeBuilderM>>,
    holes: Seq<(usize, usize)>,
    target: usize,
    l: LabelM,
)
    ensures
        builder_has_label(patch_m(states, holes, target), l) <==> builder_has_label(states, l),
{
    lemma_patch_m_keeps_labels(states, holes, target);
    let r = patch_m(states, holes, target);
    if builder_has_label(r, l) {
        let (s, e) = choose|s: int, e: int|
            0 <= s < r.len() && 0 <= e < r[s].len() && (#[trigger] r[s][e]).label == l;
        assert(states[s][e].label == l);
    }
    if builder_has_label(states, l) {
        let (s, e) = choose|s: int, e: int|
            0 <= s < states.len() && 0 <= e < states[s].len() && (#[trigger] states[s][e]).label
                == l;
        assert(r[s][e].label == l);
    }
}

/// Appending a state adds exactly that state's labels.
pub proof fn lemma_has_label_push(
    states: Seq<Seq<EdgeBuilderM>>,
    st: Seq<EdgeBuilderM>,
    l: LabelM,
)
    ensures
        builder_has_label(states.push(st), l) <==> (builder_has_label(states, l) || exists|e: int|
            0 <= e < st.len() && (#[trigger] st[e]).label == l),
{
    let r = states.push(st);
    if builder_has_label(r, l) {
        let (s, e) = choose|s: int, e: int|
            0 <= s < r.len() && 0 <= e < r[s].len() && (#[trigger] r[s][e]).label == l;
        if s < states.len() {
            assert(states[s][e].label == l);
        } else {
            assert(st[e].label == l);
        }
    }
    if builder_has_label(states, l) {
        let (s, e) = choose|s: int, e: int|
            0 <= s < states.len() && 0 <= e < states[s].len() && (#[trigger] states[s][e]).label
                == l;
        assert(r[s][e].label == l);
    }
    if exists|e: int| 0 <= e < st.len() && (#[trigger] st[e]).label == l {
        let e = choose|e: int| 0 <= e < st.len() && (#[trigger] st[e]).label == l;
        assert(r[states.len() as int][e].label == l);
    }
}

/// Adding one edge to a state adds exactly that edge's label.
pub proof fn lemma_has_label_add_edge(
    states: Seq<Seq<EdgeBuilderM>>,
    sid: int,
    edge: EdgeBuilderM,
    l: LabelM,
)
    requires
        0 <= sid < states.len(),
    ensures
        builder_has_label(states.update(sid, states[sid].push(edge)), l) <==> (builder_has_label(
            states,
            l,
        ) || edge.label == l),
{
    let r = states.update(sid, states[sid].push(edge));
    if builder_has_label(r, l) {
        let (s, e) = choose|s: int, e: int|
            0 <= s < r.len() && 0 <= e < r[s].len() && (#[trigger] r[s][e]).label == l;
        if s == sid {
            if e < states[sid].len() {
                assert(states[s][e].label == l);
            } else {
                assert(edge.label == l);
            }
        } else {
            assert(states[s][e].label == l);
        }
    }
    if builder_has_label(states, l) {
        let (s, e) = choose|s: int, e: int|
            0 <= s < states.len() && 0 <= e < states[s].len() && (#[trigger] states[s][e]).label
                == l;
        if s == sid {
            assert(r[s][e].label == l);
        } else {
            assert(r[s][e].label == l);
        }
    }
    if edge.label == l {
        assert(r[sid][states[sid].len() as int].label == l);
    }
}

/// Through the construction, an edge carries a capture label exactly when
/// the consumed tokens carried the matching capture marker.
pub proof fn lemma_bn_from_labels(
    pf: Seq<TokenM>,
    i: int,
    states: Seq<Seq<EdgeBuilderM>>,
    frags: Seq<FragM>,
    g: usize,
)
    requires
        0 <= i,
    ensures
        bn_from(pf, i, states, frags) matches Ok(r) ==> (builder_has_label(
            r.0,
            LabelM::CapBegin(g),
        ) <==> (builder_has_label(states, LabelM::CapBegin(g)) || suffix_has(
            pf,
            i,
            TokenM::CapStart(g),
        ))),
        bn_from(pf, i, states, frags) matches Ok(r) ==> (builder_has_label(
            r.0,
            LabelM::CapEnd(g),
        ) <==> (builder_has_label(states, LabelM::CapEnd(g)) || suffix_has(
            pf,
            i,
            TokenM::CapEnd(g),
        ))),
    decreases pf.len() - i,
{
    if i >= pf.len() {
        assert(!suffix_has(pf, i, TokenM::CapStart(g)));
        assert(!suffix_has(pf, i, TokenM::CapEnd(g)));
    } else {
        let t = pf[i];
        match bn_step(states, frags, t, i) {
            Err(_) => {},
            Ok(sf) => {
                let (s2, f2) = sf;
                assert(builder_has_label(s2, LabelM::CapBegin(g)) <==> (builder_has_label(
                    states,
                    LabelM::CapBegin(g),
                ) || t == TokenM::CapStart(g))) by {
                    lemma_bn_step_label(states, frags, t, i, LabelM::CapBegin(g));
                }
                assert(builder_has_label(s2, LabelM::CapEnd(g)) <==> (builder_has_label(
                    states,
                    LabelM::CapEnd(g),
                ) || t == TokenM::CapEnd(g))) by {
                    lemma_bn_step_label(states, frags, t, i, LabelM::CapEnd(g));
                }
                lemma_bn_from_labels(pf, i + 1, s2, f2, g);
                assert forall|tk: TokenM|
                    suffix_has(pf, i, tk) <==> (pf[i] == tk || suffix_has(pf, i + 1, tk)) by {
                    if suffix_has(pf, i, tk) {
                        let j = choose|j: int| i <= j < pf.len() && pf[j] == tk;
                        if j > i {
                            assert(suffix_has(pf, i + 1, tk));
                        }
                    }
                    if pf[i] == tk {
                        assert(suffix_has(pf, i, tk));
                    }
                    if suffix_has(pf, i + 1, tk) {
                        let j = choose|j: int| i + 1 <= j < pf.len() && pf[j] == tk;
                        assert(i <= j < pf.len() && pf[j] == tk);
                        assert(suffix_has(pf, i, tk));
                    }
                }
            },
        }
    }
}

/// Appending a one-edge state adds exactly that edge's label.
pub proof fn lemma_has_label_push_single(
    states: Seq<Seq<EdgeBuilderM>>,
    edge: EdgeBuilderM,
    l: LabelM,
)
    ensures
        builder_has_label(states.push(seq![edge]), l) <==> (builder_has_label(states, l)
            || edge.label == l),
{
    let st = seq![edge];
    lemma_has_label_push(states, st, l);
    assert((exists|e: int| 0 <= e < st.len() && (#[trigger] st[e]).label == l) <==> edge.label
        == l) by {
        if exists|e: int| 0 <= e < st.len() && (#[trigger] st[e]).label == l {
            let e = choose|e: int| 0 <= e < st.len() && (#[trigger] st[e]).label == l;
            assert(st[e] == st[0]);
        }
        if edge.label == l {
            assert(st[0].label == l);
        }
    }
}

/// Appending a two-edge state adds exactly those edges' labels.
pub proof fn lemma_has_label_push_pair(
    states: Seq<Seq<EdgeBuilderM>>,
    e0: EdgeBuilderM,
    e1: EdgeBuilderM,
    l: LabelM,
)
    ensures
        builder_has_label(states.push(seq![e0, e1]), l) <==> (builder_has_label(states, l)
            || e0.label == l || e1.label == l),
{
    let st = seq![e0, e1];
    lemma_has_label_push(states, st, l);
    assert((exists|e: int| 0 <= e < st.len() && (#[trigger] st[e]).label == l) <==> (e0.label == l
        || e1.label == l)) by {
        if exists|e: int| 0 <= e < st.len() && (#[trigger] st[e]).label == l {
            let e = choose|e: int| 0 <= e < st.len() && (#[trigger] st[e]).label == l;
            if e == 0 {
                assert(st[0].label == l);
            } else {
                assert(st[1].label == l);
            }
        }
        if e0.label == l {
            assert(st[0].label == l);
        }
        if e1.label == l {
            assert(st[1].label == l);
        }
    }
}

/// One construction step adds a capture label exactly when the token is the
/// matching capture marker; the label `l` is a capture label.
pub proof fn lemma_bn_step_label(
    states: Seq<Seq<EdgeBuilderM>>,
    frags: Seq<FragM>,
    t: TokenM,
    i: int,
    l: LabelM,
)
    requires
        l is CapBegin || l is CapEnd,
    ensures
        bn_step(states, frags, t, i) matches Ok(r) ==> (builder_has_label(r.0, l) <==> (
        builder_has_label(states, l) || (l matches LabelM::CapBegin(g) && t == TokenM::CapStart(
            g,
        )) || (l matches LabelM::CapEnd(g) && t == TokenM::CapEnd(g)))),
{
    match t {
        TokenM::Char(b) => {
            lemma_has_label_push_single(states, EdgeBuilderM { label: LabelM::Byte(b), to: None }, l);
        },
        TokenM::Dot => {
            lemma_has_label_push_single(states, EdgeBuilderM { label: LabelM::Any, to: None }, l);
        },
        TokenM::Class { ranges, neg } => {
            lemma_has_label_push_single(
                states,
                EdgeBuilderM { label: LabelM::Class { ranges, neg }, to: None },
                l,
            );
        },
        TokenM::CapStart(g2) => {
            lemma_has_label_push_single(
                states,
                EdgeBuilderM { label: LabelM::CapBegin(g2), to: None },
                l,
            );
        },
        TokenM::CapEnd(g2) => {
            lemma_has_label_push_single(
                states,
                EdgeBuilderM { label: LabelM::CapEnd(g2), to: None },
                l,
            );
        },
        TokenM::Concat => {
            if frags.len() >= 2 {
                let b = frags.last();
                let a = frags[frags.len() - 2];
                lemma_has_label_patch(states, a.outs, b.start, l);
            }
        },
        TokenM::Alt => {
            if frags.len() >= 2 {
                let b = frags.last();
                let a = frags[frags.len() - 2];
                lemma_has_label_push_pair(
                    states,
                    EdgeBuilderM { label: LabelM::Eps, to: Some(a.start) },
                    EdgeBuilderM { label: LabelM::Eps, to: Some(b.start) },
                    l,
                );
            }
        },
        TokenM::Star => {
            if frags.len() >= 1 {
                let a = frags.last();
                let s = states.len() as usize;
                let e0 = EdgeBuilderM { label: LabelM::Eps, to: Some(a.start) };
                let e1 = EdgeBuilderM { label: LabelM::Eps, to: None };
                lemma_has_label_push_pair(states, e0, e1, l);
                lemma_has_label_patch(states.push(seq![e0, e1]), a.outs, s, l);
            }
        },
        TokenM::Plus => {
            if frags.len() >= 1 {
                let a = frags.last();
                let s = states.len() as usize;
                let e0 = EdgeBuilderM { label: LabelM::Eps, to: Some(a.start) };
                let e1 = EdgeBuilderM { label: LabelM::Eps, to: None };
                lemma_has_label_push_pair(states, e0, e1, l);
                lemma_has_label_patch(states.push(seq![e0, e1]), a.outs, s, l);
            }
        },
        TokenM::Qmark => {
            if frags.len() >= 1 {
                let a = frags.last();
                let e0 = EdgeBuilderM { label: LabelM::Eps, to: Some(a.start) };
                let e1 = EdgeBuilderM { label: LabelM::Eps, to: None };
                lemma_has_label_push_pair(states, e0, e1, l);
            }
        },
        TokenM::LParen => {},
        TokenM::RParen => {},
    }
}

/// A finished automaton carries a capture label exactly when the postfix
/// stream carried the matching capture marker.
pub proof fn lemma_build_nfa_labels(pf: Seq<TokenM>, g: usize)
    ensures
        build_nfa_spec(pf) matches Ok(m) ==> (nfa_has_label(m.states, LabelM::CapBegin(g)) <==> pf.contains(
            TokenM::CapStart(g),
        )),
        build_nfa_spec(pf) matches Ok(m) ==> (nfa_has_label(m.states, LabelM::CapEnd(g)) <==> pf.contains(
            TokenM::CapEnd(g),
        )),
{
    let init = seq![Seq::<EdgeBuilderM>::empty()];
    assert(!builder_has_label(init, LabelM::CapBegin(g)));
    assert(!builder_has_label(init, LabelM::CapEnd(g)));
    lemma_bn_from_labels(pf, 0, init, Seq::empty(), g);
    assert forall|tk: TokenM| suffix_has(pf, 0, tk) <==> pf.contains(tk) by {
        if suffix_has(pf, 0, tk) {
            let j = choose|j: int| 0 <= j < pf.len() && pf[j] == tk;
            assert(pf.contains(tk));
        }
        if pf.contains(tk) {
            let j = choose|j: int| 0 <= j < pf.len() && pf[j] == tk;
            assert(suffix_has(pf, 0, tk));
        }
    }
    match bn_from(pf, 0, init, Seq::empty()) {
        Err(_) => {},
        Ok(r) => {
            let (states, frags) = r;
            if frags.len() == 1 {
                let top = frags.last();
                let accept = states.len() as usize;
                let states2 = states.push(Seq::empty());
                let states3 = patch_m(states2, top.outs, accept);
                let states4 = if top.start != 0 {
                    states3.update(
                        0,
                        states3[0].push(EdgeBuilderM { label: LabelM::Eps, to: Some(top.start) }),
                    )
                } else {
                    states3
                };
                assert forall|l: LabelM| l is CapBegin || l is CapEnd implies (
                builder_has_label(states4, l) <==> builder_has_label(states, l)) by {
                    lemma_has_label_push(states, Seq::empty(), l);
                    lemma_has_label_patch(states2, top.outs, accept, l);
                    if top.start != 0 {
                        lemma_patch_m_keeps_labels(states2, top.outs, accept);
                        lemma_has_label_add_edge(
                            states3,
                            0,
                            EdgeBuilderM { label: LabelM::Eps, to: Some(top.start) },
                            l,
                        );
                    }
                }
                assert forall|l: LabelM|
                    nfa_has_label(finalize_m(states4), l) <==> builder_has_label(states4, l) by {
                    if nfa_has_label(finalize_m(states4), l) {
                        let (s, e) = choose|s: int, e: int|
                            0 <= s < finalize_m(states4).len() && 0 <= e < finalize_m(states4)[
                                s
                            ].edges.len() && (#[trigger] finalize_m(states4)[s].edges[e]).0 == l;
                        assert(states4[s][e].label == l);
                    }
                    if builder_has_label(states4, l) {
                        let (s, e) = choose|s: int, e: int|
                            0 <= s < states4.len() && 0 <= e < states4[s].len() && (
                            #[trigger] states4[s][e]).label == l;
                        assert(finalize_m(states4)[s].edges[e].0 == l);
                    }
                }
            }
        },
    }
}

/// The view lengths of a vector and of each state's edge vector fit in
/// `usize`; patching and indexing lemmas need this bound.
pub proof fn lemma_builder_len_bounds(states: &Vec<StateBuilder>)
    ensures
        states.deep_view().len() <= usize::MAX,
        forall|s: int|
            0 <= s < states.deep_view().len() ==> (#[trigger] states.deep_view()[s]).len()
                <= usize::MAX,
{
    assert(vstd::std_specs::vec::spec_vec_len(states) == states@.len());
    assert forall|s: int| 0 <= s < states.deep_view().len() implies (
    #[trigger] states.deep_view()[s]).len() <= usize::MAX by {
        assert(states.deep_view()[s] == states@[s].deep_view());
        assert(vstd::std_specs::vec::spec_vec_len(&states@[s].edges) == states@[s].edges@.len());
    }
}

/// Allocates a fresh, edgeless state and returns its index.
fn new_state(states: &mut Vec<StateBuilder>) -> (id: usize)
    ensures
        id == old(states)@.len(),
        final(states)@.len() == old(states)@.len() + 1,
        final(states).deep_view() == old(states).deep_view().push(Seq::<EdgeBuilderM>::empty()),
{
    let id = states.len();
    states.push(StateBuilder { edges: Vec::new() });
    proof {
        assert(states.deep_view() =~~= old(states).deep_view().push(
            Seq::<EdgeBuilderM>::empty(),
        ));
    }
    id
}

/// Adds an edge with an open target to state `sid` and returns the hole.
fn hole(states: &mut Vec<StateBuilder>, sid: usize, label: Label) -> (h: (usize, usize))
    requires
        sid < old(states)@.len(),
    ensures
        h.0 == sid,
        h.1 == old(states).deep_view()[sid as int].len(),
        final(states)@.len() == old(states)@.len(),
        final(states).deep_view() == old(states).deep_view().update(
            sid as int,
            old(states).deep_view()[sid as int].push(EdgeBuilderM { label: label@, to: None }),
        ),
{
    let ghost lm = label@;
    let ei = states[sid].edges.len();
    states[sid].edges.push(EdgeBuilder { label, to: None });
    proof {
        assert(states.deep_view() =~~= old(states).deep_view().update(
            sid as int,
            old(states).deep_view()[sid as int].push(EdgeBuilderM { label: lm, to: None }),
        ));
    }
    (sid, ei)
}

/// Adds an edge with a known target to state `sid`.
fn edge_to(states: &mut Vec<StateBuilder>, sid: usize, label: Label, to: usize)
    requires
        sid < old(states)@.len(),
    ensures
        final(states)@.len() == old(states)@.len(),
        final(states).deep_view() == old(states).deep_view().update(
            sid as int,
            old(states).deep_view()[sid as int].push(
                EdgeBuilderM { label: label@, to: Some(to) },
            ),
        ),
{
    let ghost lm = label@;
    states[sid].edges.push(EdgeBuilder { label, to: Some(to) });
    proof {
        assert(states.deep_view() =~~= old(states).deep_view().update(
            sid as int,
            old(states).deep_view()[sid as int].push(EdgeBuilderM { label: lm, to: Some(to) }),
        ));
    }
}

/// Patches every listed hole to `target`, exactly as `patch_m` says.
fn patch(states: &mut Vec<StateBuilder>, holes: &Vec<(usize, usize)>, target: usize)
    requires
        holes_ok(old(states).deep_view(), holes@),
    ensures
        final(states)@.len() == old(states)@.len(),
        final(states).deep_view() == patch_m(old(states).deep_view(), holes@, target),
{
    let nh = holes.len();
    let mut k: usize = 0;
    proof {
        assert(holes@.skip(0) =~= holes@);
    }
    while k < nh
        invariant
            k <= nh,
            nh == holes@.len(),
            holes_ok(states.deep_view(), holes@),
            states.deep_view().len() == old(states).deep_view().len(),
            forall|s: int|
                0 <= s < states.deep_view().len() ==> (#[trigger] states.deep_view()[s]).len()
                    == old(states).deep_view()[s].len(),
            patch_m(old(states).deep_view(), holes@, target) == patch_m(
                states.deep_view(),
                holes@.skip(k as int),
                target,
            ),
        decreases nh - k,
    {
        let ghost pre = states.deep_view();
        let (sid, ei) = holes[k];
        states[sid].edges[ei].to = Some(target);
        k = k + 1;
        proof {
            let one = pre.update(
                sid as int,
                pre[sid as int].update(
                    ei as int,
                    EdgeBuilderM { label: pre[sid as int][ei as int].label, to: Some(target) },
                ),
            );
            assert(states.deep_view() =~~= one);
            assert(holes@.skip(k - 1).drop_first() =~= holes@.skip(k as int));
            assert(holes@.skip(k - 1)[0] == holes@[k - 1]);
        }
    }
    proof {
        assert(holes@.skip(nh as int) =~= Seq::<(usize, usize)>::empty());
    }
}

/// Pops a fragment; an empty stack reports the operator at postfix position
/// `i` as unexpected.
fn pop1(st: &mut Vec<Frag>, i: usize, t: &Token) -> (r: Result<Frag, Error>)
    ensures
        old(st)@.len() == 0 ==> r == Result::<Frag, Error>::Err(
            Error { kind: ErrorKind::UnexpectedToken(op_char_m(t@)), pos: i },
        ) && final(st).deep_view() == old(st).deep_view(),
        old(st)@.len() > 0 ==> (r matches Ok(f) && f@ == old(st).deep_view().last()
            && final(st).deep_view() == old(st).deep_view().drop_last()),
{
    match st.pop() {
        Some(f) => {
            proof {
                assert(st.deep_view() =~= old(st).deep_view().drop_last());
            }
            Ok(f)
        },
        None => err(ErrorKind::UnexpectedToken(op_char(t)), i),
    }
}

/// The character a token is reported as in arity errors.
fn op_char(t: &Token) -> (c: char)
    ensures
        c == op_char_m(t@),
{
    match t {
        Token::Alt => '|',
        Token::Concat => '\u{00B7}',
        Token::Star => '*',
        Token::Plus => '+',
        Token::Qmark => '?',
        Token::LParen => '(',
        Token::RParen => ')',
        Token::Dot => '.',
        Token::Char(c) => *c as char,
        Token::Class { .. } => ']',
        Token::CapStart(_) => '(',
        Token::CapEnd(_) => ')',
    }
}

/// Builds the one-edge fragment of a single operand.
fn make_unary_frag(states: &mut Vec<StateBuilder>, label: Label) -> (f: Frag)
    ensures
        final(states).deep_view() == old(states).deep_view().push(
            seq![EdgeBuilderM { label: label@, to: None }],
        ),
        f@ == (FragM {
            start: old(states)@.len() as usize,
            outs: seq![(old(states)@.len() as usize, 0usize)],
        }),
{
    let ghost lm = label@;
    let s = new_state(states);
    let h = hole(states, s, label);
    let mut outs: Vec<(usize, usize)> = Vec::new();
    outs.push(h);
    proof {
        assert(states.deep_view() =~~= old(states).deep_view().push(
            seq![EdgeBuilderM { label: lm, to: None }],
        ));
        assert(outs@ =~= seq![(s, 0usize)]);
    }
    Frag { start: s, outs }
}

/// The construction's running well-formedness: at least the global start
/// state exists, every patched target and every fragment is valid.
pub open spec fn builder_ok(states: Seq<Seq<EdgeBuilderM>>, frags: Seq<FragM>) -> bool {
    &&& states.len() >= 1
    &&& builder_targets_ok(states)
    &&& frags_ok(states, frags)
}

/// Fragments stay valid when the state vector only grows: no state shrinks
/// and no state disappears.
pub proof fn lemma_frags_ok_grow(
    old_states: Seq<Seq<EdgeBuilderM>>,
    new_states: Seq<Seq<EdgeBuilderM>>,
    frags: Seq<FragM>,
)
    requires
        frags_ok(old_states, frags),
        old_states.len() <= new_states.len(),
        forall|s: int|
            0 <= s < old_states.len() ==> (#[trigger] old_states[s]).len() <= new_states[s].len(),
    ensures
        frags_ok(new_states, frags),
{
    assert forall|f: int|
        0 <= f < frags.len() implies (#[trigger] frags[f]).start < new_states.len() && holes_ok(
        new_states,
        frags[f].outs,
    ) by {
        assert(frags[f].start < old_states.len());
        assert(holes_ok(old_states, frags[f].outs));
        assert forall|k: int|
            0 <= k < frags[f].outs.len() implies (#[trigger] frags[f].outs[k]).0
                < new_states.len() && frags[f].outs[k].1 < new_states[frags[f].outs[k].0 as int].len() by {
            let h = frags[f].outs[k];
            assert(h.0 < old_states.len() && h.1 < old_states[h.0 as int].len());
            assert(old_states[h.0 as int].len() <= new_states[h.0 as int].len());
        }
    }
}

/// Builds the automaton of a postfix token stream, exactly as
/// `build_nfa_spec` says; on success the automaton is well-formed.
pub fn build_nfa(postfix: &[Token]) -> (r: Result<Nfa, Error>)
    ensures
        r matches Ok(nfa) ==> build_nfa_spec(postfix.deep_view()) == Ok::<NfaM, Error>(nfa@)
            && nfa_wf(nfa@),
        r matches Err(e) ==> build_nfa_spec(postfix.deep_view()) == Err::<NfaM, Error>(e),
{
    let ghost pfd = postfix.deep_view();
    let n: usize = postfix.len();

    let mut states: Vec<StateBuilder> = Vec::new();
    let global_start = new_state(&mut states);
    let mut st: Vec<Frag> = Vec::new();
    let mut i: usize = 0;

    proof {
        assert(states.deep_view() =~~= seq![Seq::<EdgeBuilderM>::empty()]);
        assert(st.deep_view() =~= Seq::<FragM>::empty());
    }
    while i < n
        invariant
            i <= n,
            n == postfix@.len(),
            pfd == postfix.deep_view(),
            bn_from(pfd, 0, seq![Seq::<EdgeBuilderM>::empty()], Seq::empty()) == bn_from(
                pfd,
                i as int,
                states.deep_view(),
                st.deep_view(),
            ),
            builder_ok(states.deep_view(), st.deep_view()),
            nones_covered(states.deep_view(), st.deep_view()),
        decreases n - i,
    {
        let ghost sdv0 = states.deep_view();
        let ghost fdv0 = st.deep_view();
        let ghost i0 = i as int;
        let ghost tm = pfd[i0];
        let t = &postfix[i];
        proof {
            assert(tm == postfix@[i0]@);
        }
        if matches!(
            t,
            Token::Char(_) | Token::Dot | Token::Class { .. } | Token::CapStart(_)
                | Token::CapEnd(_)
        ) {
            let label = match t {
                Token::Char(b) => Label::Byte(*b),
                Token::Dot => Label::Any,
                Token::Class { ranges, neg } => Label::Class {
                    ranges: copy_ranges(ranges),
                    neg: *neg,
                },
                Token::CapStart(g) => Label::CapBegin(*g),
                Token::CapEnd(g) => Label::CapEnd(*g),
                _ => Label::Eps,
            };
            let on0: usize = states.len();
            let f = make_unary_frag(&mut states, label);
            let ghost fm = f@;
            st.push(f);
            proof {
                let sdvn = states.deep_view();
                let fdvn = st.deep_view();
                let stepped = bn_step(sdv0, fdv0, tm, i0);
                assert(sdv0.len() == on0);
                assert(sdvn == stepped->Ok_0.0);
                assert(fdvn =~~= stepped->Ok_0.1);
                lemma_frags_ok_grow(sdv0, sdvn, fdv0);
                assert forall|s: int, e: int|
                    0 <= s < sdvn.len() && 0 <= e < sdvn[s].len() implies ((
                #[trigger] sdvn[s][e]).to matches Some(t_) ==> t_ < sdvn.len()) by {
                    if s < sdv0.len() {
                        assert(sdvn[s] == sdv0[s]);
                    }
                }
                assert forall|fk: int|
                    0 <= fk < fdvn.len() implies (#[trigger] fdvn[fk]).start < sdvn.len()
                    && holes_ok(sdvn, fdvn[fk].outs) by {
                    if fk < fdv0.len() {
                        assert(fdvn[fk] == fdv0[fk]);
                    } else {
                        assert(fdvn[fk] == fm);
                        assert(fm.start == on0 && fm.outs =~= seq![(on0, 0usize)]);
                        assert(holes_ok(sdvn, fm.outs));
                        assert(sdvn[on0 as int].len() == 1);
                        assert forall|k: int|
                            0 <= k < fdvn[fk].outs.len() implies (#[trigger] fdvn[fk].outs[k]).0
                            < sdvn.len() && fdvn[fk].outs[k].1 < sdvn[fdvn[fk].outs[k].0 as int].len() by {
                            assert(fdvn[fk].outs[k] == (on0, 0usize));
                        }
                    }
                }
            }
            proof {
                let sdvn = states.deep_view();
                let fdvn = st.deep_view();
                assert(nones_covered(sdvn, fdvn)) by {
                    assert forall|s_: int, e_: int|
                        0 <= s_ < sdvn.len() && 0 <= e_ < sdvn[s_].len() && (
                    #[trigger] sdvn[s_][e_]).to is None implies hole_listed(
                        fdvn,
                        (s_ as usize, e_ as usize),
                    ) by {
                        let h = (s_ as usize, e_ as usize);
                        if s_ < sdv0.len() {
                            assert(sdvn[s_] == sdv0[s_]);
                            assert(hole_listed(fdv0, h));
                            let f = choose|f: int|
                                0 <= f < fdv0.len() && (#[trigger] fdv0[f]).outs.contains(h);
                            assert(fdvn[f].outs.contains(h));
                        } else {
                            assert(s_ == on0 && e_ == 0);
                            assert(fdvn[fdvn.len() - 1].outs[0] == h);
                            assert(fdvn[fdvn.len() - 1].outs.contains(h));
                        }
                    }
                }
            }
        } else if matches!(t, Token::Concat) {
            let b = match pop1(&mut st, i, t) {
                Ok(f) => f,
                Err(e) => {
                    return Err(e);
                },
            };
            let a = match pop1(&mut st, i, t) {
                Ok(f) => f,
                Err(e) => {
                    return Err(e);
                },
            };
            proof {
                assert(a@ == fdv0[fdv0.len() - 2] && b@ == fdv0.last());
                assert(holes_ok(sdv0, a.outs@));
                lemma_builder_len_bounds(&states);
                lemma_patch_m_props(sdv0, a.outs@, b.start);
            }
            patch(&mut states, &a.outs, b.start);
            st.push(Frag { start: a.start, outs: b.outs });
            proof {
                let sdvn = states.deep_view();
                let fdvn = st.deep_view();
                let stepped = bn_step(sdv0, fdv0, tm, i0);
                assert(sdvn == stepped->Ok_0.0);
                assert(fdvn =~~= stepped->Ok_0.1);
                lemma_frags_ok_grow(sdv0, sdvn, fdv0);
                assert forall|s: int, e: int|
                    0 <= s < sdvn.len() && 0 <= e < sdvn[s].len() implies ((
                #[trigger] sdvn[s][e]).to matches Some(t_) ==> t_ < sdvn.len()) by {
                    assert(sdvn[s][e].to == (if a.outs@.contains((s as usize, e as usize)) {
                        Some(b.start)
                    } else {
                        sdv0[s][e].to
                    }));
                    assert(b.start < sdv0.len());
                }
                assert forall|fk: int|
                    0 <= fk < fdvn.len() implies (#[trigger] fdvn[fk]).start < sdvn.len()
                    && holes_ok(sdvn, fdvn[fk].outs) by {
                    if fk < fdv0.len() - 2 {
                        assert(fdvn[fk] == fdv0[fk]);
                    } else {
                        assert(fdvn[fk].start == a.start && fdvn[fk].outs == b.outs@);
                        assert(a@.start < sdv0.len());
                        assert(holes_ok(sdv0, b.outs@));
                    }
                }
            }
            proof {
                let sdvn = states.deep_view();
                let fdvn = st.deep_view();
                assert(nones_covered(sdvn, fdvn)) by {
                    assert forall|s_: int, e_: int|
                        0 <= s_ < sdvn.len() && 0 <= e_ < sdvn[s_].len() && (
                    #[trigger] sdvn[s_][e_]).to is None implies hole_listed(
                        fdvn,
                        (s_ as usize, e_ as usize),
                    ) by {
                        let h = (s_ as usize, e_ as usize);
                        let target = fdv0.last().start;
                        assert(sdvn[s_][e_].to == (if a.outs@.contains(h) {
                            Some(target)
                        } else {
                            sdv0[s_][e_].to
                        }));
                        assert(!a.outs@.contains(h));
                        assert(sdv0[s_][e_].to is None);
                        assert(hole_listed(fdv0, h));
                        let f = choose|f: int|
                            0 <= f < fdv0.len() && (#[trigger] fdv0[f]).outs.contains(h);
                        if f == fdv0.len() - 2 {
                            assert(fdv0[f].outs =~= a.outs@);
                            assert(false);
                        } else if f == fdv0.len() - 1 {
                            assert(fdvn[fdvn.len() - 1].outs.contains(h));
                        } else {
                            assert(fdvn[f].outs.contains(h));
                        }
                    }
                }
            }
        } else if matches!(t, Token::Alt) {
            let b = match pop1(&mut st, i, t) {
                Ok(f) => f,
                Err(e) => {
                    return Err(e);
                },
            };
            let a = match pop1(&mut st, i, t) {
                Ok(f) => f,
                Err(e) => {
                    return Err(e);
                },
            };
            proof {
                assert(a@ == fdv0[fdv0.len() - 2] && b@ == fdv0.last());
            }
            let s = new_state(&mut states);
            edge_to(&mut states, s, Label::Eps, a.start);
            edge_to(&mut states, s, Label::Eps, b.start);
            let Frag { start: _a_start, outs: mut outs } = a;
            extend_holes(&mut outs, &b.outs);
            st.push(Frag { start: s, outs });
            proof {
                let sdvn = states.deep_view();
                let fdvn = st.deep_view();
                let stepped = bn_step(sdv0, fdv0, tm, i0);
                assert(sdvn =~~= stepped->Ok_0.0);
                assert(fdvn =~~= stepped->Ok_0.1);
                lemma_frags_ok_grow(sdv0, sdvn, fdv0);
                assert forall|s_: int, e: int|
                    0 <= s_ < sdvn.len() && 0 <= e < sdvn[s_].len() implies ((
                #[trigger] sdvn[s_][e]).to matches Some(t_) ==> t_ < sdvn.len()) by {
                    if s_ < sdv0.len() {
                        assert(sdvn[s_] == sdv0[s_]);
                    }
                }
                assert forall|fk: int|
                    0 <= fk < fdvn.len() implies (#[trigger] fdvn[fk]).start < sdvn.len()
                    && holes_ok(sdvn, fdvn[fk].outs) by {
                    if fk < fdv0.len() - 2 {
                        assert(fdvn[fk] == fdv0[fk]);
                    } else {
                        assert(fdvn[fk].outs == fdv0[fdv0.len() - 2].outs.add(
                            fdv0.last().outs,
                        ));
                        assert(holes_ok(sdvn, fdv0[fdv0.len() - 2].outs));
                        assert(holes_ok(sdvn, fdv0.last().outs));
                        assert forall|k: int|
                            0 <= k < fdvn[fk].outs.len() implies (#[trigger] fdvn[fk].outs[
                        k]).0 < sdvn.len() && fdvn[fk].outs[k].1 < sdvn[fdvn[fk].outs[k].0 as int].len() by {
                            let pre = fdv0[fdv0.len() - 2].outs;
                            if k < pre.len() {
                                assert(fdvn[fk].outs[k] == pre[k]);
                            } else {
                                assert(fdvn[fk].outs[k] == fdv0.last().outs[k - pre.len()]);
                            }
                        }
                    }
                }
            }
            proof {
                let sdvn = states.deep_view();
                let fdvn = st.deep_view();
                assert(nones_covered(sdvn, fdvn)) by {
                    assert forall|s_: int, e_: int|
                        0 <= s_ < sdvn.len() && 0 <= e_ < sdvn[s_].len() && (
                    #[trigger] sdvn[s_][e_]).to is None implies hole_listed(
                        fdvn,
                        (s_ as usize, e_ as usize),
                    ) by {
                        let h = (s_ as usize, e_ as usize);
                        if s_ < sdv0.len() {
                            assert(sdvn[s_] == sdv0[s_]);
                            assert(hole_listed(fdv0, h));
                            let f = choose|f: int|
                                0 <= f < fdv0.len() && (#[trigger] fdv0[f]).outs.contains(h);
                            let pre = fdv0[fdv0.len() - 2].outs;
                            if f == fdv0.len() - 2 {
                                let k = choose|k: int|
                                    0 <= k < fdv0[f].outs.len() && fdv0[f].outs[k] == h;
                                assert(fdvn[fdvn.len() - 1].outs[k] == h);
                                assert(fdvn[fdvn.len() - 1].outs.contains(h));
                            } else if f == fdv0.len() - 1 {
                                let k = choose|k: int|
                                    0 <= k < fdv0[f].outs.len() && fdv0[f].outs[k] == h;
                                assert(fdvn[fdvn.len() - 1].outs[pre.len() + k] == h);
                                assert(fdvn[fdvn.len() - 1].outs.contains(h));
                            } else {
                                assert(fdvn[f].outs.contains(h));
                            }
                        } else {
                            assert(sdvn[s_][e_].to is Some);
                        }
                    }
                }
            }
        } else if matches!(t, Token::Star | Token::Plus) {
            let a = match pop1(&mut st, i, t) {
                Ok(f) => f,
                Err(e) => {
                    return Err(e);
                },
            };
            proof {
                assert(a@ == fdv0.last());
            }
            let s = new_state(&mut states);
            edge_to(&mut states, s, Label::Eps, a.start);
            let h = hole(&mut states, s, Label::Eps);
            let ghost sdv2 = states.deep_view();
            proof {
                assert(sdv2 =~~= sdv0.push(
                    seq![
                        EdgeBuilderM { label: LabelM::Eps, to: Some(a.start) },
                        EdgeBuilderM { label: LabelM::Eps, to: None },
                    ],
                ));
                assert(holes_ok(sdv0, a.outs@));
                lemma_frags_ok_grow(sdv0, sdv2, fdv0);
                assert(holes_ok(sdv2, a.outs@));
                lemma_builder_len_bounds(&states);
                lemma_patch_m_props(sdv2, a.outs@, s);
            }
            patch(&mut states, &a.outs, s);
            let mut outs: Vec<(usize, usize)> = Vec::new();
            outs.push(h);
            let keeps_start = matches!(t, Token::Plus);
            let fstart = if keeps_start {
                a.start
            } else {
                s
            };
            st.push(Frag { start: fstart, outs });
            proof {
                let sdvn = states.deep_view();
                let fdvn = st.deep_view();
                let stepped = bn_step(sdv0, fdv0, tm, i0);
                assert(sdvn =~~= stepped->Ok_0.0);
                assert(fdvn =~~= stepped->Ok_0.1);
                lemma_frags_ok_grow(sdv0, sdvn, fdv0);
                assert forall|s_: int, e: int|
                    0 <= s_ < sdvn.len() && 0 <= e < sdvn[s_].len() implies ((
                #[trigger] sdvn[s_][e]).to matches Some(t_) ==> t_ < sdvn.len()) by {
                    assert(sdvn[s_][e].to == (if a.outs@.contains((s_ as usize, e as usize)) {
                        Some(s)
                    } else {
                        sdv2[s_][e].to
                    }));
                    if s_ < sdv0.len() {
                        assert(sdv2[s_] == sdv0[s_]);
                    }
                }
                assert forall|fk: int|
                    0 <= fk < fdvn.len() implies (#[trigger] fdvn[fk]).start < sdvn.len()
                    && holes_ok(sdvn, fdvn[fk].outs) by {
                    if fk < fdv0.len() - 1 {
                        assert(fdvn[fk] == fdv0[fk]);
                    } else {
                        assert(fdvn[fk].outs =~= seq![(s, 1usize)]);
                        assert(sdvn[s as int].len() == 2);
                    }
                }
            }
            proof {
                let sdvn = states.deep_view();
                let fdvn = st.deep_view();
                assert(nones_covered(sdvn, fdvn)) by {
                    assert forall|s_: int, e_: int|
                        0 <= s_ < sdvn.len() && 0 <= e_ < sdvn[s_].len() && (
                    #[trigger] sdvn[s_][e_]).to is None implies hole_listed(
                        fdvn,
                        (s_ as usize, e_ as usize),
                    ) by {
                        let h = (s_ as usize, e_ as usize);
                        assert(sdvn[s_][e_].to == (if a.outs@.contains(h) {
                            Some(s)
                        } else {
                            sdv2[s_][e_].to
                        }));
                        assert(!a.outs@.contains(h));
                        if s_ < sdv0.len() {
                            assert(sdv2[s_] == sdv0[s_]);
                            assert(sdv0[s_][e_].to is None);
                            assert(hole_listed(fdv0, h));
                            let f = choose|f: int|
                                0 <= f < fdv0.len() && (#[trigger] fdv0[f]).outs.contains(h);
                            if f == fdv0.len() - 1 {
                                assert(fdv0[f].outs =~= a.outs@);
                                assert(false);
                            } else {
                                assert(fdvn[f].outs.contains(h));
                            }
                        } else {
                            assert(s_ == s as int && e_ == 1);
                            assert(fdvn[fdvn.len() - 1].outs[0] == h);
                            assert(fdvn[fdvn.len() - 1].outs.contains(h));
                        }
                    }
                }
            }
        } else if matches!(t, Token::Qmark) {
            let a = match pop1(&mut st, i, t) {
                Ok(f) => f,
                Err(e) => {
                    return Err(e);
                },
            };
            proof {
                assert(a@ == fdv0.last());
            }
            let s = new_state(&mut states);
            let Frag { start: a_start, outs: mut outs } = a;
            edge_to(&mut states, s, Label::Eps, a_start);
            let h = hole(&mut states, s, Label::Eps);
            outs.push(h);
            st.push(Frag { start: s, outs });
            proof {
                let sdvn = states.deep_view();
                let fdvn = st.deep_view();
                let stepped = bn_step(sdv0, fdv0, tm, i0);
                assert(sdvn =~~= stepped->Ok_0.0);
                assert(fdvn =~~= stepped->Ok_0.1);
                lemma_frags_ok_grow(sdv0, sdvn, fdv0);
                assert forall|s_: int, e: int|
                    0 <= s_ < sdvn.len() && 0 <= e < sdvn[s_].len() implies ((
                #[trigger] sdvn[s_][e]).to matches Some(t_) ==> t_ < sdvn.len()) by {
                    if s_ < sdv0.len() {
                        assert(sdvn[s_] == sdv0[s_]);
                    }
                }
                assert forall|fk: int|
                    0 <= fk < fdvn.len() implies (#[trigger] fdvn[fk]).start < sdvn.len()
                    && holes_ok(sdvn, fdvn[fk].outs) by {
                    if fk < fdv0.len() - 1 {
                        assert(fdvn[fk] == fdv0[fk]);
                    } else {
                        assert(fdvn[fk].outs == fdv0.last().outs.push((s, 1usize)));
                        assert(holes_ok(sdvn, fdv0.last().outs));
                        assert forall|k: int|
                            0 <= k < fdvn[fk].outs.len() implies (#[trigger] fdvn[fk].outs[
                        k]).0 < sdvn.len() && fdvn[fk].outs[k].1 < sdvn[fdvn[fk].outs[k].0 as int].len() by {
                            if k < fdv0.last().outs.len() {
                                assert(fdvn[fk].outs[k] == fdv0.last().outs[k]);
                            } else {
                                assert(fdvn[fk].outs[k] == (s, 1usize));
                                assert(sdvn[s as int].len() == 2);
                            }
                        }
                    }
                }
            }
            proof {
                let sdvn = states.deep_view();
                let fdvn = st.deep_view();
                assert(nones_covered(sdvn, fdvn)) by {
                    assert forall|s_: int, e_: int|
                        0 <= s_ < sdvn.len() && 0 <= e_ < sdvn[s_].len() && (
                    #[trigger] sdvn[s_][e_]).to is None implies hole_listed(
                        fdvn,
                        (s_ as usize, e_ as usize),
                    ) by {
                        let h = (s_ as usize, e_ as usize);
                        if s_ < sdv0.len() {
                            assert(sdvn[s_] == sdv0[s_]);
                            assert(hole_listed(fdv0, h));
                            let f = choose|f: int|
                                0 <= f < fdv0.len() && (#[trigger] fdv0[f]).outs.contains(h);
                            if f == fdv0.len() - 1 {
                                let k = choose|k: int|
                                    0 <= k < fdv0[f].outs.len() && fdv0[f].outs[k] == h;
                                assert(fdvn[fdvn.len() - 1].outs[k] == h);
                                assert(fdvn[fdvn.len() - 1].outs.contains(h));
                            } else {
                                assert(fdvn[f].outs.contains(h));
                            }
                        } else {
                            assert(s_ == s as int && e_ == 1);
                            let no = fdvn[fdvn.len() - 1].outs;
                            assert(no[no.len() - 1] == h);
                            assert(no.contains(h));
                        }
                    }
                }
            }
        } else {
            return err(ErrorKind::UnbalancedParen, i);
        }
        i = i + 1;
    }

    let ghost fdvend = st.deep_view();
    let ghost sdv1 = states.deep_view();
    let top = match st.pop() {
        Some(f) => f,
        None => {
            return err(ErrorKind::UnexpectedToken('$'), n);
        },
    };
    if st.len() > 0 {
        return err(ErrorKind::UnexpectedToken('$'), n);
    }
    proof {
        assert(st.deep_view().len() == 0);
        assert(fdvend =~~= Seq::<FragM>::empty().push(top@));
        assert(fdvend.len() == 1);
        assert(top@ == fdvend.last());
        assert(bn_from(pfd, 0, seq![Seq::<EdgeBuilderM>::empty()], Seq::empty()) == Ok::<
            (Seq<Seq<EdgeBuilderM>>, Seq<FragM>),
            Error,
        >((sdv1, fdvend)));
        assert(builder_ok(sdv1, fdvend));
    }

    let accept = new_state(&mut states);
    let ghost sdv2 = states.deep_view();
    proof {
        assert(holes_ok(sdv1, top.outs@));
        lemma_frags_ok_grow(sdv1, sdv2, fdvend);
        assert(holes_ok(sdv2, top.outs@));
        lemma_builder_len_bounds(&states);
        lemma_patch_m_props(sdv2, top.outs@, accept);
    }
    patch(&mut states, &top.outs, accept);
    let ghost sdv3 = states.deep_view();
    if top.start != global_start {
        edge_to(&mut states, global_start, Label::Eps, top.start);
    }
    let ghost sdv4 = states.deep_view();
    proof {
        assert(sdv2[accept as int].len() == 0);
        assert(sdv3[accept as int].len() == 0);
        assert(sdv4[accept as int].len() == 0);
        assert forall|s_: int, e_: int|
            0 <= s_ < sdv4.len() && 0 <= e_ < sdv4[s_].len() implies (#[trigger] sdv4[s_][
        e_]).to is Some by {
            let h = (s_ as usize, e_ as usize);
            if s_ == 0 && top.start != global_start && e_ == sdv3[0].len() {
                assert(sdv4[s_][e_].to == Some(top.start));
            } else {
                assert(sdv4[s_][e_] == sdv3[s_][e_]);
                assert(sdv3[s_][e_].to == (if top.outs@.contains(h) {
                    Some(accept)
                } else {
                    sdv2[s_][e_].to
                }));
                if !top.outs@.contains(h) && sdv2[s_][e_].to is None {
                    assert(s_ < sdv1.len() && e_ < sdv1[s_].len());
                    assert(sdv2[s_] == sdv1[s_]);
                    assert(hole_listed(fdvend, h));
                    let f = choose|f: int|
                        0 <= f < fdvend.len() && (#[trigger] fdvend[f]).outs.contains(h);
                    assert(fdvend[f].outs =~= top.outs@);
                    assert(false);
                }
            }
        }
        assert forall|s_: int, e: int|
            0 <= s_ < sdv4.len() && 0 <= e < sdv4[s_].len() implies ((
        #[trigger] sdv4[s_][e]).to matches Some(t_) ==> t_ < sdv4.len()) by {
            if s_ == 0 && top.start != 0 && e == sdv3[0].len() {
                assert(sdv4[s_][e].to == Some(top.start));
                assert(top@.start < sdv1.len());
            } else {
                assert(sdv4[s_][e] == sdv3[s_][e]);
                assert(sdv3[s_][e].to == (if top.outs@.contains((s_ as usize, e as usize)) {
                    Some(accept)
                } else {
                    sdv2[s_][e].to
                }));
                if s_ < sdv1.len() {
                    assert(sdv2[s_] == sdv1[s_]);
                }
            }
        }
    }

    let mut final_states: Vec<State> = Vec::new();
    let ns = states.len();
    let mut si: usize = 0;
    while si < ns
        invariant
            si <= ns,
            ns == states@.len(),
            sdv4 == states.deep_view(),
            forall|s_: int, e_: int|
                0 <= s_ < sdv4.len() && 0 <= e_ < sdv4[s_].len() ==> (#[trigger] sdv4[s_][
                e_]).to is Some,
            final_states.deep_view() == finalize_m(sdv4).subrange(0, si as int),
        decreases ns - si,
    {
        let ne = states[si].edges.len();
        let mut edges: Vec<(Label, usize)> = Vec::new();
        let mut ej: usize = 0;
        while ej < ne
            invariant
                ej <= ne,
                si < states@.len(),
                ne == states@[si as int].edges@.len(),
                sdv4 == states.deep_view(),
                forall|s_: int, e_: int|
                    0 <= s_ < sdv4.len() && 0 <= e_ < sdv4[s_].len() ==> (#[trigger] sdv4[s_][
                    e_]).to is Some,
                edges.deep_view() == finalize_m(sdv4)[si as int].edges.subrange(0, ej as int),
            decreases ne - ej,
        {
            let ghost ed0 = edges.deep_view();
            let e = &states[si].edges[ej];
            let lbl = copy_label(&e.label);
            proof {
                assert(e@ == sdv4[si as int][ej as int]);
            }
            let tgt = match e.to {
                Some(x) => x,
                None => vstd::pervasive::unreached(),
            };
            edges.push((lbl, tgt));
            ej = ej + 1;
            proof {
                let fme = finalize_m(sdv4)[si as int].edges;
                assert(sdv4[si as int][ej - 1] == states@[si as int].edges@[ej - 1]@);
                assert(fme[ej - 1] == (
                    sdv4[si as int][ej - 1].label,
                    match sdv4[si as int][ej - 1].to {
                        Some(x) => x,
                        None => 0usize,
                    },
                ));
                assert((lbl@, tgt) == fme[ej - 1]);
                assert(edges.deep_view() =~~= ed0.push(fme[ej - 1]));
                assert(ed0.push(fme[ej - 1]) =~~= fme.subrange(0, ej as int));
            }
        }
        let ghost fs0 = final_states.deep_view();
        final_states.push(State { edges });
        si = si + 1;
        proof {
            let fm4 = finalize_m(sdv4);
            assert(fm4[si - 1].edges.subrange(0, ne as int) =~~= fm4[si - 1].edges);
            assert(final_states.deep_view() =~~= fs0.push(StateM { edges: edges.deep_view() }));
            assert(StateM { edges: edges.deep_view() } =~~= fm4[si - 1]);
            assert(fs0.push(fm4[si - 1]) =~~= fm4.subrange(0, si as int));
        }
    }
    proof {
        assert(finalize_m(sdv4).subrange(0, ns as int) =~~= finalize_m(sdv4));
    }

    let nfa = Nfa { states: final_states, start: global_start, accept };
    proof {
        assert(nfa@.states == finalize_m(sdv4));
        assert(build_nfa_spec(pfd) == Ok::<NfaM, Error>(nfa@));
        assert(nfa_wf(nfa@)) by {
            assert(nfa@.states.len() == sdv4.len());
            assert(nfa@.states[accept as int].edges.len() == 0);
            assert forall|s_: int, e: int|
                0 <= s_ < nfa@.states.len() && 0 <= e < nfa@.states[s_].edges.len() implies (
            #[trigger] nfa@.states[s_].edges[e]).1 < nfa@.states.len() by {
                assert(nfa@.states[s_].edges[e] == (
                    sdv4[s_][e].label,
                    match sdv4[s_][e].to {
                        Some(x) => x,
                        None => 0usize,
                    },
                ));
            }
        }
    }
    Ok(nfa)
}

/// Appends the elements of `more` to `outs`.
fn extend_holes(outs: &mut Vec<(usize, usize)>, more: &Vec<(usize, usize)>)
    ensures
        final(outs)@ == old(outs)@.add(more@),
{
    let n = more.len();
    let mut k: usize = 0;
    while k < n
        invariant
            k <= n,
            n == more@.len(),
            outs@ == old(outs)@.add(more@.subrange(0, k as int)),
        decreases n - k,
    {
        outs.push(more[k]);
        k = k + 1;
        proof {
            assert(old(outs)@.add(more@.subrange(0, k - 1)).push(more@[k - 1]) =~= old(
                outs,
            )@.add(more@.subrange(0, k as int)));
        }
    }
    proof {
        assert(more@.subrange(0, n as int) =~= more@);
    }
}

} // verus!
