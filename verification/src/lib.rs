//! A compact, backtracking-free regular-expression engine.
//!
//! A textual pattern is compiled through a fixed pipeline — lexer, implicit
//! concatenation insertion, shunting-yard postfix conversion, Thompson NFA
//! construction — and input byte strings are matched by a parallel thread-set
//! simulation that tracks capture-group positions. Matching is anchored: a
//! pattern matches only if it consumes the whole input.
//!
//! Every stage has a mathematical description (`lex_spec`,
//! `insert_concat_spec`, `to_postfix_spec`, `build_nfa_spec`, and
//! `captures_rel` for the matcher), and every executable function is proved
//! to return exactly what its description says; `compile_spec` and
//! `captures_spec` tie the pieces together at the public interface.

use vstd::prelude::*;
use vstd::string::StringSliceAdditionalSpecFns;

pub mod error;
pub mod laws;
pub mod matcher;
pub mod nfa;
pub mod parse;
pub mod token;

pub use error::Error;
pub use error::ErrorKind;
pub use nfa::Label;
pub use nfa::Nfa;
pub use nfa::State;
pub use nfa::build_nfa;
pub use parse::insert_concat;
pub use parse::to_postfix;
pub use token::Token;
pub use token::tokenize;

use crate::matcher::GroupSlot;
use crate::matcher::RegexM;
use crate::matcher::Thread;
use crate::matcher::ThreadM;
use crate::matcher::caps_eq;
use crate::matcher::closure_run;
use crate::matcher::copy_caps;
use crate::matcher::copy_thread;
use crate::matcher::dedup_spec;
use crate::matcher::dedup_threads;
use crate::matcher::lemma_distinct_threads_bound;
use crate::matcher::thread_univ;
use crate::matcher::CandM;
use crate::matcher::better_choice;
use crate::matcher::caps_result;
use crate::matcher::captures_rel;
use crate::matcher::captures_spec;
use crate::matcher::class_hit;
use crate::matcher::extract_caps;
use crate::matcher::init_caps;
use crate::matcher::lemma_captures_rel_unique;
use crate::matcher::lemma_closure_run_mono;
use crate::matcher::lemma_run_from_mono;
use crate::matcher::regex_wf;
use crate::matcher::run_from;
use crate::matcher::run_full;
use crate::matcher::run_rel;
use crate::matcher::select_best;
use crate::matcher::step_all;
use crate::matcher::step_edges;
use crate::matcher::succ_edges;
use crate::matcher::thread_in;
use crate::matcher::threads_wf;
use crate::nfa::LabelM;
use crate::nfa::StateM;
use crate::nfa::build_nfa_spec;
use crate::parse::insert_concat_spec;
use crate::parse::lemma_ic_from_len;
use crate::parse::to_postfix_spec;
use crate::token::lemma_lex_from_len;
use crate::token::lex_spec;

verus! {

/// The largest group id on any capture edge of the states from `s` on,
/// starting from the running maximum `acc`.
pub open spec fn max_gid_states(states: Seq<StateM>, s: int, acc: usize) -> usize
    decreases states.len() - s,
{
    if s >= states.len() {
        acc
    } else {
        max_gid_states(states, s + 1, max_gid_edges(states[s].edges, 0, acc))
    }
}

/// The largest group id on the capture edges from `j` on, starting from the
/// running maximum `acc`.
pub open spec fn max_gid_edges(edges: Seq<(LabelM, usize)>, j: int, acc: usize) -> usize
    decreases edges.len() - j,
{
    if j >= edges.len() {
        acc
    } else {
        let acc2 = match edges[j].0 {
            LabelM::CapBegin(g) => if g > acc {
                g
            } else {
                acc
            },
            LabelM::CapEnd(g) => if g > acc {
                g
            } else {
                acc
            },
            _ => acc,
        };
        max_gid_edges(edges, j + 1, acc2)
    }
}

/// The running maximum over the edges from `j` on never shrinks, bounds
/// every capture id seen, and is either the start value or attained by some
/// capture edge.
pub proof fn lemma_max_gid_edges_props(edges: Seq<(LabelM, usize)>, j: int, acc: usize)
    requires
        0 <= j,
    ensures
        acc <= max_gid_edges(edges, j, acc),
        forall|e: int|
            j <= e < edges.len() ==> (match (#[trigger] edges[e]).0 {
                LabelM::CapBegin(g) => g <= max_gid_edges(edges, j, acc),
                LabelM::CapEnd(g) => g <= max_gid_edges(edges, j, acc),
                _ => true,
            }),
        max_gid_edges(edges, j, acc) == acc || exists|e: int|
            j <= e < edges.len() && (match (#[trigger] edges[e]).0 {
                LabelM::CapBegin(g) => g == max_gid_edges(edges, j, acc),
                LabelM::CapEnd(g) => g == max_gid_edges(edges, j, acc),
                _ => false,
            }),
    decreases edges.len() - j,
{
    if j >= edges.len() {
    } else {
        let acc2 = match edges[j].0 {
            LabelM::CapBegin(g) => if g > acc {
                g
            } else {
                acc
            },
            LabelM::CapEnd(g) => if g > acc {
                g
            } else {
                acc
            },
            _ => acc,
        };
        lemma_max_gid_edges_props(edges, j + 1, acc2);
        let mm = max_gid_edges(edges, j, acc);
        if mm == acc2 && acc2 != acc {
            assert(match edges[j].0 {
                LabelM::CapBegin(g) => g == mm,
                LabelM::CapEnd(g) => g == mm,
                _ => false,
            });
        }
    }
}

/// The same properties for the running maximum over whole states.
pub proof fn lemma_max_gid_states_props(states: Seq<StateM>, s: int, acc: usize)
    requires
        0 <= s,
    ensures
        acc <= max_gid_states(states, s, acc),
        forall|s2: int, e: int|
            s <= s2 < states.len() && 0 <= e < states[s2].edges.len() ==> (match (
            #[trigger] states[s2].edges[e]).0 {
                LabelM::CapBegin(g) => g <= max_gid_states(states, s, acc),
                LabelM::CapEnd(g) => g <= max_gid_states(states, s, acc),
                _ => true,
            }),
        max_gid_states(states, s, acc) == acc || exists|s2: int, e: int|
            s <= s2 < states.len() && 0 <= e < states[s2].edges.len() && (match (
            #[trigger] states[s2].edges[e]).0 {
                LabelM::CapBegin(g) => g == max_gid_states(states, s, acc),
                LabelM::CapEnd(g) => g == max_gid_states(states, s, acc),
                _ => false,
            }),
    decreases states.len() - s,
{
    if s >= states.len() {
    } else {
        let inner = max_gid_edges(states[s].edges, 0, acc);
        lemma_max_gid_edges_props(states[s].edges, 0, acc);
        lemma_max_gid_states_props(states, s + 1, inner);
        let mm = max_gid_states(states, s, acc);
        assert forall|s2: int, e: int|
            s <= s2 < states.len() && 0 <= e < states[s2].edges.len() implies (match (
        #[trigger] states[s2].edges[e]).0 {
            LabelM::CapBegin(g) => g <= mm,
            LabelM::CapEnd(g) => g <= mm,
            _ => true,
        }) by {
            if s2 == s {
                assert(match states[s].edges[e].0 {
                    LabelM::CapBegin(g) => g <= inner,
                    LabelM::CapEnd(g) => g <= inner,
                    _ => true,
                });
            }
        }
        if mm == inner && inner != acc {
            let e = choose|e: int|
                0 <= e < states[s].edges.len() && (match (#[trigger] states[s].edges[e]).0 {
                    LabelM::CapBegin(g) => g == inner,
                    LabelM::CapEnd(g) => g == inner,
                    _ => false,
                });
            assert(s <= s < states.len() && 0 <= e < states[s].edges.len() && (match (
            #[trigger] states[s].edges[e]).0 {
                LabelM::CapBegin(g) => g == mm,
                LabelM::CapEnd(g) => g == mm,
                _ => false,
            }));
        }
    }
}

/// What compiling a pattern's bytes yields: the pipeline's stages composed,
/// with the group count read off the finished automaton.
pub open spec fn compile_spec(p: Seq<u8>) -> Result<RegexM, Error> {
    match lex_spec(p) {
        Err(e) => Err(e),
        Ok(ts) => match to_postfix_spec(insert_concat_spec(ts)) {
            Err(e) => Err(e),
            Ok(pf) => match build_nfa_spec(pf) {
                Err(e) => Err(e),
                Ok(nfa) => Ok(
                    RegexM {
                        states: nfa.states,
                        start: nfa.start,
                        accept: nfa.accept,
                        groups: max_gid_states(nfa.states, 0, 0),
                    },
                ),
            },
        },
    }
}

/// A compiled pattern: the automaton's states, its start and accept state,
/// and the number of capture groups. Immutable after compilation.
#[derive(Debug)]
pub struct Regex {
    states: Vec<State>,
    start: usize,
    accept: usize,
    groups: usize,
}

impl View for Regex {
    type V = RegexM;

    closed spec fn view(&self) -> RegexM {
        RegexM {
            states: self.states.deep_view(),
            start: self.start,
            accept: self.accept,
            groups: self.groups,
        }
    }
}

impl Regex {
    /// Every value of the type carries a well-formed automaton.
    #[verifier::type_invariant]
    spec fn type_inv(self) -> bool {
        regex_wf(self@)
    }

    /// Compiles a pattern, exactly as `compile_spec` says. The pattern must
    /// be small enough for the token stream to stay addressable.
    pub fn new(pat: &str) -> (r: Result<Regex, Error>)
        requires
            2 * pat.spec_bytes().len() < usize::MAX,
        ensures
            r matches Ok(re) ==> compile_spec(pat.spec_bytes()) == Ok::<RegexM, Error>(re@),
            r matches Err(e) ==> compile_spec(pat.spec_bytes()) == Err::<RegexM, Error>(e),
    {
        let ghost pb = pat.spec_bytes();
        let tokens = match tokenize(pat) {
            Ok(v) => v,
            Err(e) => {
                return Err(e);
            },
        };
        proof {
            lemma_lex_from_len(pb, 0);
        }
        let tokens2 = insert_concat(tokens.as_slice());
        proof {
            lemma_ic_from_len(tokens.deep_view(), 0);
        }
        let postfix = match to_postfix(tokens2.as_slice()) {
            Ok(v) => v,
            Err(e) => {
                return Err(e);
            },
        };
        let nfa = match build_nfa(postfix.as_slice()) {
            Ok(v) => v,
            Err(e) => {
                return Err(e);
            },
        };

        let ghost sdv = nfa@.states;
        let mut gmax: usize = 0;
        let ns = nfa.states.len();
        let mut si: usize = 0;
        while si < ns
            invariant
                si <= ns,
                ns == nfa.states@.len(),
                sdv == nfa@.states,
                max_gid_states(sdv, 0, 0) == max_gid_states(sdv, si as int, gmax),
            decreases ns - si,
        {
            let ne = nfa.states[si].edges.len();
            let mut ej: usize = 0;
            while ej < ne
                invariant
                    ej <= ne,
                    si < nfa.states@.len(),
                    ne == nfa.states@[si as int].edges@.len(),
                    sdv == nfa@.states,
                    max_gid_states(sdv, 0, 0) == max_gid_states(
                        sdv,
                        si as int + 1,
                        max_gid_edges(sdv[si as int].edges, ej as int, gmax),
                    ),
                decreases ne - ej,
            {
                let e = &nfa.states[si].edges[ej];
                proof {
                    assert(sdv[si as int].edges[ej as int] == (e.0@, e.1));
                }
                match &e.0 {
                    Label::CapBegin(g) => {
                        if *g > gmax {
                            gmax = *g;
                        }
                    },
                    Label::CapEnd(g) => {
                        if *g > gmax {
                            gmax = *g;
                        }
                    },
                    _ => {},
                }
                ej = ej + 1;
            }
            si = si + 1;
        }

        let Nfa { states, start, accept } = nfa;
        let re = Regex { states, start, accept, groups: gmax };
        proof {
            assert(compile_spec(pb) == Ok::<RegexM, Error>(re@));
        }
        Ok(re)
    }

    /// Closes the thread set under non-consuming edges at input position
    /// `pos` and deduplicates it, exactly as `closure_run` describes for
    /// some sufficient fuel.
    fn eps_closure(&self, set: &mut Vec<Thread>, pos: usize)
        requires
            threads_wf(old(set).deep_view(), self@.states.len() as int, self@.groups + 1),
        ensures
            exists|k: nat|
                closure_run(self@.states, pos, old(set).deep_view(), Seq::empty(), k) == Some(
                    final(set).deep_view(),
                ),
            threads_wf(final(set).deep_view(), self@.states.len() as int, self@.groups + 1),
    {
        proof {
            use_type_invariant(&*self);
        }
        let ghost m = self@;
        let ghost q0 = set.deep_view();
        let ghost ns = self@.states.len() as int;
        let ghost nc = self@.groups + 1 as int;
        let mut q: Vec<Thread> = Vec::new();
        std::mem::swap(&mut q, set);
        let mut qi: usize = 0;
        let mut out: Vec<Thread> = Vec::new();
        proof {
            assert(q.deep_view().skip(0) =~= q0);
            assert(out.deep_view() =~= Seq::<ThreadM>::empty());
        }

        while qi < q.len()
            invariant
                qi <= q@.len(),
                m == self@,
                regex_wf(m),
                ns == m.states.len() as int,
                nc == m.groups + 1,
                threads_wf(q.deep_view(), ns, nc),
                threads_wf(out.deep_view(), ns, nc),
                out.deep_view().no_duplicates(),
                out.deep_view().len() <= thread_univ(ns, nc as nat).len(),
                forall|r_: Seq<ThreadM>, f_: nat|
                    closure_run(m.states, pos, q.deep_view().skip(qi as int), out.deep_view(), f_)
                        == Some(r_) ==> exists|f2: nat|
                        closure_run(m.states, pos, q0, Seq::empty(), f2) == Some(r_),
            decreases thread_univ(ns, nc as nat).len() - out.deep_view().len(), q@.len() - qi,
        {
            let ghost qrest0 = q.deep_view().skip(qi as int);
            let ghost out0 = out.deep_view();
            let t = copy_thread(&q[qi]);
            let ghost tm = t@;
            proof {
                assert(q.deep_view()[qi as int] == tm);
                assert(qrest0[0] == tm);
                assert(qrest0.drop_first() =~= q.deep_view().skip(qi as int + 1));
                assert(tm.s < ns && tm.caps.len() == nc);
            }
            qi = qi + 1;

            let olen = out.len();
            let mut oi: usize = 0;
            let mut found: bool = false;
            while oi < olen && !found
                invariant
                    oi <= olen,
                    olen == out@.len(),
                    out0 == out.deep_view(),
                    tm == t@,
                    found ==> thread_in(out0, tm),
                    !found ==> forall|k: int| 0 <= k < oi ==> out0[k] != tm,
                decreases olen - oi, (if found {
                    0int
                } else {
                    1int
                }),
            {
                if out[oi].s == t.s && caps_eq(&out[oi].caps, &t.caps) {
                    proof {
                        assert(out0[oi as int] =~= tm);
                    }
                    found = true;
                } else {
                    oi = oi + 1;
                }
            }

            if found {
                proof {
                    assert forall|r_: Seq<ThreadM>, f_: nat|
                        closure_run(
                            m.states,
                            pos,
                            q.deep_view().skip(qi as int),
                            out.deep_view(),
                            f_,
                        ) == Some(r_) implies exists|f2: nat|
                        closure_run(m.states, pos, q0, Seq::empty(), f2) == Some(r_) by {
                        assert(closure_run(m.states, pos, qrest0, out0, f_ + 1) == Some(r_));
                    }
                }
            } else {
                proof {
                    assert(!thread_in(out0, tm));
                    assert(tm.s < ns);
                }
                out.push(copy_thread(&t));
                let ghost edges_m = m.states[tm.s as int].edges;
                let ghost qpre = q.deep_view();
                let nedges = self.states[t.s].edges.len();
                let mut ej: usize = 0;
                while ej < nedges
                    invariant
                        ej <= nedges,
                        m == self@,
                        regex_wf(m),
                        ns == m.states.len() as int,
                        nc == m.groups + 1,
                        tm.s < ns,
                        tm.caps.len() == nc,
                        tm == t@,
                        edges_m == m.states[tm.s as int].edges,
                        nedges == edges_m.len(),
                        q.deep_view().add(succ_edges(edges_m, ej as int, tm.caps, pos)) =~= qpre.add(
                            succ_edges(edges_m, 0, tm.caps, pos),
                        ),
                        threads_wf(q.deep_view(), ns, nc),
                    decreases nedges - ej,
                {
                    let ghost qd0 = q.deep_view();
                    let e = &self.states[t.s].edges[ej];
                    proof {
                        assert(edges_m[ej as int] == (e.0@, e.1));
                        assert(e.1 < ns);
                    }
                    match &e.0 {
                        Label::Eps => {
                            q.push(Thread { s: e.1, caps: copy_caps(&t.caps) });
                        },
                        Label::CapBegin(g) => {
                            let mut c = copy_caps(&t.caps);
                            if *g < c.len() {
                                let old_slot = c[*g];
                                c[*g] = (Some(pos), old_slot.1);
                            }
                            q.push(Thread { s: e.1, caps: c });
                        },
                        Label::CapEnd(g) => {
                            let mut c = copy_caps(&t.caps);
                            if *g < c.len() {
                                let old_slot = c[*g];
                                c[*g] = (old_slot.0, Some(pos));
                            }
                            q.push(Thread { s: e.1, caps: c });
                        },
                        _ => {},
                    }
                    ej = ej + 1;
                    proof {
                        let hd = match edges_m[ej - 1].0 {
                            LabelM::Eps => seq![ThreadM { s: edges_m[ej - 1].1, caps: tm.caps }],
                            LabelM::CapBegin(g) => seq![
                                ThreadM {
                                    s: edges_m[ej - 1].1,
                                    caps: if g < tm.caps.len() {
                                        tm.caps.update(g as int, (Some(pos), tm.caps[g as int].1))
                                    } else {
                                        tm.caps
                                    },
                                },
                            ],
                            LabelM::CapEnd(g) => seq![
                                ThreadM {
                                    s: edges_m[ej - 1].1,
                                    caps: if g < tm.caps.len() {
                                        tm.caps.update(g as int, (tm.caps[g as int].0, Some(pos)))
                                    } else {
                                        tm.caps
                                    },
                                },
                            ],
                            _ => Seq::<ThreadM>::empty(),
                        };
                        assert(succ_edges(edges_m, ej - 1, tm.caps, pos) == hd.add(
                            succ_edges(edges_m, ej as int, tm.caps, pos),
                        ));
                        assert(q.deep_view() =~= qd0.add(hd));
                        assert(q.deep_view().add(succ_edges(edges_m, ej as int, tm.caps, pos))
                            =~= qd0.add(succ_edges(edges_m, ej - 1, tm.caps, pos)));
                    }
                }
                proof {
                    assert(succ_edges(edges_m, nedges as int, tm.caps, pos) =~= Seq::<
                        ThreadM,
                    >::empty());
                    assert(q.deep_view() =~= qpre.add(succ_edges(edges_m, 0, tm.caps, pos)));
                    assert(q.deep_view().skip(qi as int) =~= qrest0.drop_first().add(
                        succ_edges(edges_m, 0, tm.caps, pos),
                    ));
                    assert(out.deep_view() =~= out0.push(tm));
                    assert forall|r_: Seq<ThreadM>, f_: nat|
                        closure_run(
                            m.states,
                            pos,
                            q.deep_view().skip(qi as int),
                            out.deep_view(),
                            f_,
                        ) == Some(r_) implies exists|f2: nat|
                        closure_run(m.states, pos, q0, Seq::empty(), f2) == Some(r_) by {
                        assert(closure_run(m.states, pos, qrest0, out0, f_ + 1) == Some(r_));
                    }
                    assert(threads_wf(out.deep_view(), ns, nc)) by {
                        assert forall|k: int|
                            0 <= k < out.deep_view().len() implies (#[trigger] out.deep_view()[
                        k]).s < ns && out.deep_view()[k].caps.len() == nc by {
                            if k < out0.len() {
                                assert(out.deep_view()[k] == out0[k]);
                            }
                        }
                    }
                    assert(out.deep_view().no_duplicates()) by {
                        let od = out.deep_view();
                        assert forall|x: int, y: int|
                            0 <= x < od.len() && 0 <= y < od.len() && x != y implies od[x] != od[
                        y] by {
                            if x < out0.len() && y < out0.len() {
                                assert(od[x] == out0[x] && od[y] == out0[y]);
                            } else if x < out0.len() {
                                assert(od[x] == out0[x] && od[y] == tm);
                            } else if y < out0.len() {
                                assert(od[x] == tm && od[y] == out0[y]);
                            }
                        }
                    }
                    lemma_distinct_threads_bound(out.deep_view(), ns, nc as nat);
                }
            }
        }
        let ghost outd = out.deep_view();
        proof {
            assert(q.deep_view().skip(qi as int) =~= Seq::<ThreadM>::empty());
            assert(closure_run(m.states, pos, q.deep_view().skip(qi as int), outd, 0) == Some(
                dedup_spec(outd),
            ));
        }
        let deduped = dedup_threads(out);
        *set = deduped;
    }

    /// Runs the thread-set simulation over the input bytes and returns the
    /// best accepting candidate, exactly as `run_rel` describes.
    fn run(&self, bytes: &[u8]) -> (r: Option<(usize, Vec<GroupSlot>)>)
        ensures
            run_rel(self@, bytes@, r.deep_view()),
            r matches Some(p) ==> p.1@.len() == self@.groups + 1,
    {
        broadcast use crate::matcher::lemma_slots_deep_view;

        proof {
            use_type_invariant(&*self);
        }
        let ghost m = self@;
        let ghost input = bytes@;
        let ghost ns = self@.states.len() as int;
        let ghost nc = self@.groups + 1 as int;
        let n: usize = bytes.len();

        let mut caps0: Vec<GroupSlot> = Vec::new();
        let mut g: usize = 0;
        loop
            invariant_except_break
                g <= self.groups,
                caps0@.len() == g as int,
                forall|k: int| 0 <= k < caps0@.len() ==> caps0@[k] == (None::<usize>, None::<usize>),
            ensures
                caps0@.len() == self.groups + 1,
                forall|k: int| 0 <= k < caps0@.len() ==> caps0@[k] == (None::<usize>, None::<usize>),
            decreases self.groups - g,
        {
            caps0.push((None, None));
            if g == self.groups {
                break;
            }
            g = g + 1;
        }
        proof {
            assert(caps0@ =~= init_caps(m.groups));
        }

        let mut curr: Vec<Thread> = Vec::new();
        curr.push(Thread { s: self.start, caps: caps0 });
        proof {
            assert(curr.deep_view() =~= seq![ThreadM { s: m.start, caps: init_caps(m.groups) }]);
            assert(threads_wf(curr.deep_view(), ns, nc));
        }
        self.eps_closure(&mut curr, 0);
        let ghost k0 = choose|k: nat|
            #[trigger] closure_run(
                m.states,
                0,
                seq![ThreadM { s: m.start, caps: init_caps(m.groups) }],
                Seq::empty(),
                k,
            ) == Some(curr.deep_view());

        let mut last: Option<(usize, Vec<GroupSlot>)> = None;
        let mut i: usize = 0;
        proof {
            assert forall|r_: Option<CandM>, f_: nat|
                run_from(m, input, 0, curr.deep_view(), None, f_) == Some(r_) implies run_rel(
                m,
                input,
                r_,
            ) by {
                let ff: nat = if f_ >= k0 {
                    f_
                } else {
                    k0
                };
                lemma_closure_run_mono(
                    m.states,
                    0,
                    seq![ThreadM { s: m.start, caps: init_caps(m.groups) }],
                    Seq::empty(),
                    k0,
                    ff,
                );
                lemma_run_from_mono(m, input, 0, curr.deep_view(), None, f_, ff);
                assert(run_full(m, input, ff) == Some(r_));
            }
        }

        loop
            invariant_except_break
                i <= n,
                n == bytes@.len(),
                input == bytes@,
                m == self@,
                regex_wf(m),
                ns == m.states.len() as int,
                nc == m.groups + 1,
                threads_wf(curr.deep_view(), ns, nc),
                last matches Some(p) ==> p.1@.len() == nc,
                forall|r_: Option<CandM>, f_: nat|
                    run_from(m, input, i as int, curr.deep_view(), last.deep_view(), f_) == Some(
                        r_,
                    ) ==> run_rel(m, input, r_),
            ensures
                run_rel(m, input, last.deep_view()),
                last matches Some(p) ==> p.1@.len() == nc,
            decreases n - i,
        {
            let ghost last_entry = last.deep_view();
            let ghost curr_m = curr.deep_view();

            let clen = curr.len();
            let mut ci: usize = 0;
            while ci < clen
                invariant
                    ci <= clen,
                    clen == curr@.len(),
                    m == self@,
                    curr_m == curr.deep_view(),
                    threads_wf(curr_m, ns, nc),
                    nc == m.groups + 1,
                    last matches Some(p) ==> p.1@.len() == nc,
                    select_best(curr_m, 0, m.accept, i, last_entry) == select_best(
                        curr_m,
                        ci as int,
                        m.accept,
                        i,
                        last.deep_view(),
                    ),
                decreases clen - ci,
            {
                let ghost ld0 = last.deep_view();
                if curr[ci].s == self.accept {
                    let cand = (i, copy_caps(&curr[ci].caps));
                    proof {
                        assert(cand.deep_view() == (i, curr_m[ci as int].caps));
                    }
                    let replace = match &last {
                        Some(best) => {
                            let r_ = better_choice(&cand, best);
                            proof {
                                assert(ld0 == Some((best.0, best.1@)));
                                assert(r_ == crate::matcher::better_spec(
                                    (i, curr_m[ci as int].caps),
                                    (best.0, best.1@),
                                ));
                            }
                            r_
                        },
                        None => true,
                    };
                    if replace {
                        last = Some(cand);
                    }
                    proof {
                        let cm = (i, curr_m[ci as int].caps);
                        let l2 = match ld0 {
                            None => Some(cm),
                            Some(bm) => if crate::matcher::better_spec(cm, bm) {
                                Some(cm)
                            } else {
                                Some(bm)
                            },
                        };
                        assert(last.deep_view() == l2);
                        assert(select_best(curr_m, ci as int, m.accept, i, ld0) == select_best(
                            curr_m,
                            ci + 1,
                            m.accept,
                            i,
                            l2,
                        ));
                    }
                }
                ci = ci + 1;
            }
            proof {
                assert(last.deep_view() == select_best(curr_m, 0, m.accept, i, last_entry));
            }

            if i == n {
                proof {
                    assert(run_from(m, input, i as int, curr_m, last_entry, 0) == Some(
                        last.deep_view(),
                    ));
                }
                break;
            }

            let b = bytes[i];
            let ghost bm = input[i as int];
            let mut next: Vec<Thread> = Vec::new();
            proof {
                assert(next.deep_view() =~= Seq::<ThreadM>::empty());
                assert(next.deep_view().add(step_all(m.states, curr_m, 0, bm)) =~= step_all(
                    m.states,
                    curr_m,
                    0,
                    bm,
                ));
            }
            let mut ti: usize = 0;
            while ti < clen
                invariant
                    ti <= clen,
                    clen == curr@.len(),
                    m == self@,
                    regex_wf(m),
                    ns == m.states.len() as int,
                    nc == m.groups + 1,
                    curr_m == curr.deep_view(),
                    threads_wf(curr_m, ns, nc),
                    i < n,
                    n == bytes@.len(),
                    input == bytes@,
                    bm == input[i as int],
                    b == bm,
                    next.deep_view().add(step_all(m.states, curr_m, ti as int, bm)) =~= step_all(
                        m.states,
                        curr_m,
                        0,
                        bm,
                    ),
                    threads_wf(next.deep_view(), ns, nc),
                decreases clen - ti,
            {
                let ghost nd0 = next.deep_view();
                let sid = curr[ti].s;
                let ghost edges_m = m.states[curr_m[ti as int].s as int].edges;
                proof {
                    assert(curr_m[ti as int].s == sid);
                    assert(curr_m[ti as int].s < ns);
                }
                let nedges = self.states[sid].edges.len();
                let mut ej: usize = 0;
                proof {
                    assert(nd0.add(step_edges(edges_m, 0, bm, curr_m[ti as int].caps)) =~= nd0.add(
                        step_edges(edges_m, 0, bm, curr_m[ti as int].caps),
                    ));
                }
                while ej < nedges
                    invariant
                        ej <= nedges,
                        m == self@,
                        regex_wf(m),
                        ns == m.states.len() as int,
                        nc == m.groups + 1,
                        curr_m == curr.deep_view(),
                        ti < curr_m.len(),
                        curr_m[ti as int].s == sid,
                        sid < ns,
                        curr_m[ti as int].caps.len() == nc,
                        clen == curr@.len(),
                        edges_m == m.states[sid as int].edges,
                        nedges == edges_m.len(),
                        b == bm,
                        next.deep_view().add(
                            step_edges(edges_m, ej as int, bm, curr_m[ti as int].caps),
                        ) =~= nd0.add(step_edges(edges_m, 0, bm, curr_m[ti as int].caps)),
                        threads_wf(next.deep_view(), ns, nc),
                    decreases nedges - ej,
                {
                    let ghost ndj = next.deep_view();
                    let e = &self.states[sid].edges[ej];
                    proof {
                        assert(edges_m[ej as int] == (e.0@, e.1));
                        assert(e.1 < ns);
                    }
                    let push_it: bool = match &e.0 {
                        Label::Byte(c) => *c == b,
                        Label::Any => true,
                        Label::Class { ranges, neg } => {
                            let hit = class_hit(ranges, b);
                            (*neg && !hit) || (!*neg && hit)
                        },
                        _ => false,
                    };
                    if push_it {
                        next.push(Thread { s: e.1, caps: copy_caps(&curr[ti].caps) });
                    }
                    ej = ej + 1;
                    proof {
                        let caps_ = curr_m[ti as int].caps;
                        let hd = if crate::matcher::label_consumes(edges_m[ej - 1].0, bm) {
                            seq![ThreadM { s: edges_m[ej - 1].1, caps: caps_ }]
                        } else {
                            Seq::<ThreadM>::empty()
                        };
                        assert(step_edges(edges_m, ej - 1, bm, caps_) == hd.add(
                            step_edges(edges_m, ej as int, bm, caps_),
                        ));
                        assert(next.deep_view() =~= ndj.add(hd));
                        assert(next.deep_view().add(step_edges(edges_m, ej as int, bm, caps_))
                            =~= ndj.add(step_edges(edges_m, ej - 1, bm, caps_)));
                    }
                }
                ti = ti + 1;
                proof {
                    assert(step_edges(edges_m, nedges as int, bm, curr_m[ti - 1].caps) =~= Seq::<
                        ThreadM,
                    >::empty());
                    assert(next.deep_view() =~= nd0.add(
                        step_edges(edges_m, 0, bm, curr_m[ti - 1].caps),
                    ));
                    assert(step_all(m.states, curr_m, ti - 1, bm) == step_edges(
                        edges_m,
                        0,
                        bm,
                        curr_m[ti - 1].caps,
                    ).add(step_all(m.states, curr_m, ti as int, bm)));
                    assert(next.deep_view().add(step_all(m.states, curr_m, ti as int, bm))
                        =~= nd0.add(step_all(m.states, curr_m, ti - 1, bm)));
                }
            }
            proof {
                assert(step_all(m.states, curr_m, clen as int, bm) =~= Seq::<ThreadM>::empty());
                assert(next.deep_view() =~= step_all(m.states, curr_m, 0, bm));
            }

            if next.len() == 0 {
                proof {
                    assert(next.deep_view().len() == 0);
                    assert(run_from(m, input, i as int, curr_m, last_entry, 0) == Some(
                        last.deep_view(),
                    ));
                }
                break;
            }

            let ghost next_pre = next.deep_view();
            self.eps_closure(&mut next, i + 1);
            let ghost kk = choose|k: nat|
                #[trigger] closure_run(m.states, (i + 1) as usize, next_pre, Seq::empty(), k)
                    == Some(next.deep_view());
            let ghost closed = next.deep_view();
            let curr2 = dedup_threads(next);
            curr = curr2;
            i = i + 1;
            proof {
                assert(curr.deep_view() == dedup_spec(closed));
                assert(threads_wf(curr.deep_view(), ns, nc));
                assert forall|r_: Option<CandM>, f_: nat|
                    run_from(m, input, i as int, curr.deep_view(), last.deep_view(), f_) == Some(
                        r_,
                    ) implies run_rel(m, input, r_) by {
                    let ff: nat = if f_ >= kk {
                        f_
                    } else {
                        kk
                    };
                    lemma_closure_run_mono(
                        m.states,
                        (i - 1 + 1) as usize,
                        next_pre,
                        Seq::empty(),
                        kk,
                        ff,
                    );
                    lemma_run_from_mono(
                        m,
                        input,
                        i as int,
                        curr.deep_view(),
                        last.deep_view(),
                        f_,
                        ff,
                    );
                    assert(run_from(m, input, i - 1, curr_m, last_entry, ff) == Some(r_));
                }
            }
        }
        last
    }

    /// Whole-input matching: the capture vector when the pattern consumes
    /// the input exactly, else nothing. Slot 0 is the whole input; slot `g`
    /// is the bytes of group `g`, absent where the group did not
    /// participate. The result is exactly `captures_spec`.
    pub fn captures(&self, hay: &str) -> (r: Option<Vec<Option<Vec<u8>>>>)
        ensures
            captures_rel(self@, hay.spec_bytes(), r.deep_view()),
            r.deep_view() == captures_spec(self@, hay.spec_bytes()),
    {
        broadcast use crate::matcher::lemma_slots_deep_view;
        broadcast use crate::matcher::lemma_bytes_deep_view;

        proof {
            use_type_invariant(&*self);
        }
        let ghost m = self@;
        let bytes: &[u8] = hay.as_bytes();
        let ghost input = hay.spec_bytes();
        let n: usize = bytes.len();
        let rr = self.run(bytes);
        let ghost rrm = rr.deep_view();

        match rr {
            None => {
                proof {
                    assert(caps_result(m, input, rrm) is None);
                    assert(captures_rel(m, input, None::<Seq<Option<Seq<u8>>>>));
                    lemma_captures_rel_unique(
                        m,
                        input,
                        None::<Seq<Option<Seq<u8>>>>,
                        captures_spec(m, input),
                    );
                }
                None
            },
            Some((end, caps)) => {
                proof {
                    assert(rrm == Some((end, caps@)));
                }
                if end != n {
                    proof {
                        assert(caps_result(m, input, rrm) is None);
                        assert(captures_rel(m, input, None::<Seq<Option<Seq<u8>>>>));
                        lemma_captures_rel_unique(
                            m,
                            input,
                            None::<Seq<Option<Seq<u8>>>>,
                            captures_spec(m, input),
                        );
                    }
                    return None;
                }
                let ghost ext = extract_caps(input, m.groups, caps@);
                let mut out: Vec<Option<Vec<u8>>> = Vec::new();
                out.push(Some(vstd::slice::slice_to_vec(bytes)));
                proof {
                    assert(out.deep_view() =~= ext.subrange(0, 1));
                }
                if self.groups >= 1 {
                    let mut g: usize = 1;
                    loop
                        invariant_except_break
                            1 <= g <= self.groups,
                            m == self@,
                            input == bytes@,
                            n == bytes@.len(),
                            caps@.len() == m.groups + 1,
                            ext == extract_caps(input, m.groups, caps@),
                            out.deep_view() == ext.subrange(0, g as int),
                        ensures
                            out.deep_view() == ext.subrange(0, m.groups + 1),
                        decreases self.groups - g,
                    {
                        proof {
                            assert(ext.len() == m.groups + 1);
                            assert(g <= m.groups);
                            assert(out.deep_view().len() == g as int);
                            assert(out@.len() == g as int);
                        }
                        let slot = caps[g];
                        proof {
                            assert(slot == caps@[g as int]);
                        }
                        match slot {
                            (Some(s_), Some(e_)) => {
                                if s_ <= e_ && e_ <= n {
                                    let piece = vstd::slice::slice_to_vec(
                                        vstd::slice::slice_subrange(bytes, s_, e_),
                                    );
                                    let ghost pview = piece@;
                                    proof {
                                        assert(pview == input.subrange(s_ as int, e_ as int));
                                        assert(ext[g as int] == Some(
                                            input.subrange(s_ as int, e_ as int),
                                        ));
                                    }
                                    out.push(Some(piece));
                                    proof {
                                        assert(out@.len() == g + 1);
                                        assert(out@[g as int] matches Some(pc) && pc@ == pview);
                                        assert(out@[g as int].deep_view() == Some(pview));
                                        assert(out.deep_view()[g as int] == out@[
                                            g as int
                                        ].deep_view());
                                    }
                                } else {
                                    proof {
                                        assert(ext[g as int] is None);
                                    }
                                    out.push(None);
                                }
                            },
                            _ => {
                                proof {
                                    assert(ext[g as int] is None);
                                }
                                out.push(None);
                            },
                        }
                        proof {
                            assert(out.deep_view()[g as int] == ext[g as int]);
                            assert(out.deep_view() =~= ext.subrange(0, g as int + 1));
                        }
                        if g == self.groups {
                            break;
                        }
                        g = g + 1;
                    }
                }
                proof {
                    assert(out.deep_view() =~= ext) by {
                        if m.groups >= 1 {
                            assert(ext.subrange(0, m.groups + 1) =~= ext);
                        } else {
                            assert(ext.subrange(0, 1) =~= ext);
                        }
                    }
                    assert(caps_result(m, input, rrm) == Some(ext));
                    assert(captures_rel(m, input, Some(ext)));
                    lemma_captures_rel_unique(m, input, Some(ext), captures_spec(m, input));
                }
                Some(out)
            },
        }
    }

    /// Whether the pattern matches the whole input: exactly when `captures`
    /// finds a capture vector.
    pub fn is_match(&self, hay: &str) -> (r: bool)
        ensures
            r == captures_spec(self@, hay.spec_bytes()).is_some(),
    {
        let c = self.captures(hay);
        let r = c.is_some();
        proof {
            assert(c.deep_view() is Some <==> c is Some);
        }
        r
    }
}

} // verus!
