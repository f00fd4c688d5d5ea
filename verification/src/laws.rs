//! The engine's general laws, stated and proved over the same spec functions
//! that the public contracts use.

use vstd::prelude::*;

use crate::compile_spec;
use crate::error::Error;
use crate::lemma_max_gid_states_props;
use crate::nfa::lemma_build_nfa_labels;
use crate::nfa::nfa_has_label;
use crate::parse::caps_paired;
use crate::parse::insert_concat_spec;
use crate::parse::lemma_ic_from_len;
use crate::parse::lemma_to_postfix_caps;
use crate::parse::to_postfix_spec;
use crate::token::TokenM;
use crate::token::lemma_lex_from_len;
use crate::token::lex_spec;
use crate::matcher::CandM;
use crate::matcher::GroupSlot;
use crate::nfa::LabelM;
use crate::matcher::RegexM;
use crate::matcher::captures_rel;
use crate::matcher::captures_spec;
use crate::matcher::caps_result;
use crate::matcher::label_consumes;
use crate::matcher::lemma_captures_rel_unique;
use crate::matcher::run_rel;

verus! {

/// A match is reported exactly when a capture vector is handed out: any
/// outcome related to a pattern and input is present precisely when the
/// unique capture vector is. `Regex::is_match` and `Regex::captures` both
/// speak of `captures_spec`, so their answers always agree.
pub proof fn lemma_match_iff_captures(m: RegexM, input: Seq<u8>, c: Option<Seq<Option<Seq<u8>>>>)
    requires
        captures_rel(m, input, c),
    ensures
        c is Some <==> captures_spec(m, input) is Some,
{
    lemma_captures_rel_unique(m, input, c, captures_spec(m, input));
}

/// Whenever a match is found, the capture vector has one slot per group
/// plus slot 0, and slot 0 holds the whole input.
pub proof fn lemma_whole_capture(m: RegexM, input: Seq<u8>, cs: Seq<Option<Seq<u8>>>)
    requires
        captures_rel(m, input, Some(cs)),
    ensures
        cs.len() == m.groups + 1,
        cs[0] == Some(input),
{
    let rr = choose|rr: Option<CandM>|
        run_rel(m, input, rr) && Some(cs) == caps_result(m, input, rr);
}

/// Every present group capture is a contiguous substring of the input: the
/// bytes between the group's recorded start and end offsets.
pub proof fn lemma_group_capture_is_substring(
    m: RegexM,
    input: Seq<u8>,
    cs: Seq<Option<Seq<u8>>>,
    g: int,
    t: Seq<u8>,
)
    requires
        captures_rel(m, input, Some(cs)),
        1 <= g < cs.len(),
        cs[g] == Some(t),
    ensures
        exists|s: int, e: int| 0 <= s <= e <= input.len() && t == input.subrange(s, e),
{
    let rr = choose|rr: Option<CandM>|
        run_rel(m, input, rr) && Some(cs) == caps_result(m, input, rr);
    let caps = rr->Some_0.1;
    let s = caps[g].0->Some_0 as int;
    let e = caps[g].1->Some_0 as int;
    assert(0 <= s <= e <= input.len() && t == input.subrange(s, e));
}

/// Compilation is deterministic and idempotent: one pattern has one
/// compiled value, so compiling twice yields equal automata. `Regex::new`
/// returns exactly `compile_spec`, so every successful compilation of the
/// same pattern produces the same mathematical regex.
pub proof fn lemma_compile_deterministic(p: Seq<u8>, m1: RegexM, m2: RegexM)
    requires
        compile_spec(p) == Ok::<RegexM, Error>(m1),
        compile_spec(p) == Ok::<RegexM, Error>(m2),
    ensures
        m1 == m2,
{
}

/// Rejection is stable as well: a pattern that fails to compile fails with
/// one fixed error, on every run.
pub proof fn lemma_compile_rejection_stable(p: Seq<u8>, e1: Error, e2: Error)
    requires
        compile_spec(p) == Err::<RegexM, Error>(e1),
        compile_spec(p) == Err::<RegexM, Error>(e2),
    ensures
        e1 == e2,
{
}

/// The match result depends only on the pattern and the input: any two
/// outcomes that the simulation relation admits are equal, whatever
/// internal iteration order (fuel) produced them.
pub proof fn lemma_match_deterministic(
    m: RegexM,
    input: Seq<u8>,
    c1: Option<Seq<Option<Seq<u8>>>>,
    c2: Option<Seq<Option<Seq<u8>>>>,
)
    requires
        captures_rel(m, input, c1),
        captures_rel(m, input, c2),
    ensures
        c1 == c2,
{
    lemma_captures_rel_unique(m, input, c1, c2);
}

/// Matching is anchored, which is where greediness bottoms out: a match is
/// handed out only for an accepting candidate that consumed the whole
/// input, so among the accepting ends the one equal to the input's length
/// is the one chosen.
pub proof fn lemma_match_consumes_whole_input(m: RegexM, input: Seq<u8>, cs: Seq<Option<Seq<u8>>>)
    requires
        captures_rel(m, input, Some(cs)),
    ensures
        exists|end: usize, caps: Seq<GroupSlot>|
            run_rel(m, input, Some((end, caps))) && end == input.len(),
{
    let rr = choose|rr: Option<CandM>|
        run_rel(m, input, rr) && Some(cs) == caps_result(m, input, rr);
    assert(run_rel(m, input, Some((rr->Some_0.0, rr->Some_0.1))) && rr->Some_0.0 == input.len());
}

/// Every group of a compiled pattern is realized in its automaton: each id
/// from 1 to `groups` labels at least one begin-capture edge and at least
/// one end-capture edge. The group counter assigns contiguous ids, every
/// opened group is closed on success, and Thompson construction turns each
/// marker into exactly one edge.
pub proof fn lemma_capture_pairs_present(p: Seq<u8>, m: RegexM, g: usize)
    requires
        2 * p.len() < usize::MAX,
        compile_spec(p) == Ok::<RegexM, Error>(m),
        1 <= g <= m.groups,
    ensures
        nfa_has_label(m.states, LabelM::CapBegin(g)),
        nfa_has_label(m.states, LabelM::CapEnd(g)),
{
    let ts = lex_spec(p)->Ok_0;
    lemma_lex_from_len(p, 0);
    let ic = insert_concat_spec(ts);
    lemma_ic_from_len(ts, 0);
    assert(ic.len() < usize::MAX);
    lemma_to_postfix_caps(ic);
    let pf = to_postfix_spec(ic)->Ok_0;
    assert(caps_paired(pf));
    let bigm = m.groups;
    lemma_max_gid_states_props(m.states, 0, 0);
    assert(bigm != 0);
    let (s2, e) = choose|s2: int, e: int|
        0 <= s2 < m.states.len() && 0 <= e < m.states[s2].edges.len() && (match (
        #[trigger] m.states[s2].edges[e]).0 {
            LabelM::CapBegin(g_) => g_ == bigm,
            LabelM::CapEnd(g_) => g_ == bigm,
            _ => false,
        });
    lemma_build_nfa_labels(pf, bigm);
    assert(pf.contains(TokenM::CapStart(bigm))) by {
        match m.states[s2].edges[e].0 {
            LabelM::CapBegin(_) => {
                assert(nfa_has_label(m.states, LabelM::CapBegin(bigm)));
            },
            LabelM::CapEnd(_) => {
                assert(nfa_has_label(m.states, LabelM::CapEnd(bigm)));
                assert(pf.contains(TokenM::CapEnd(bigm)));
            },
            _ => {
                assert(false);
            },
        }
    }
    assert(pf.contains(TokenM::CapStart(g)));
    lemma_build_nfa_labels(pf, g);
    assert(pf.contains(TokenM::CapEnd(g)));
}

/// The dot label consumes every byte, newline included.
pub proof fn lemma_dot_matches_any_byte()
    ensures
        forall|b: u8| label_consumes(LabelM::Any, b),
{
}

/// A negated class consumes exactly the complement of its plain form, over
/// all byte values.
pub proof fn lemma_negated_class_complement(ranges: Seq<(u8, u8)>)
    ensures
        forall|b: u8|
            label_consumes(LabelM::Class { ranges, neg: true }, b) <==> !label_consumes(
                LabelM::Class { ranges, neg: false },
                b,
            ),
{
}

} // verus!
