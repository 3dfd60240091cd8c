//! Subset construction over the edit-tracking automaton, driven by
//! characteristic vectors, producing the parametric tables: for every
//! discovered multistate and every characteristic vector, the interned
//! successor and the offset delta. The tables depend only on
//! `(max_distance, transposition)`, never on a query.

use vstd::arithmetic::div_mod::lemma_fundamental_div_mod_converse;
use vstd::arithmetic::power::pow;
use vstd::prelude::*;

use crate::dfa::DFA;
use crate::index::lemma_distinct_tables_bounded;
use crate::index::Index;
use crate::levenshtein_nfa::init_table;
use crate::levenshtein_nfa::ms_wf;
use crate::levenshtein_nfa::step_delta;
use crate::levenshtein_nfa::step_table;
use crate::levenshtein_nfa::MultiState;

verus! {

/// One parametric table row entry: the interned successor multistate and how
/// far the multistate base advances along the query.
#[derive(Clone, Copy, PartialEq, Eq, Debug, Structural)]
pub struct Transition {
    pub dest: usize,
    pub delta: u8,
}

/// Row-major position of the entry for `(sid, chi)`.
pub open spec fn row_idx(num_chi: int, sid: int, chi: int) -> int {
    sid * num_chi + chi
}

/// Every stored multistate is a well-formed table.
pub open spec fn states_wf(states: Seq<MultiState>, d: u8) -> bool {
    forall|i: int| 0 <= i < states.len() ==> ms_wf((#[trigger] states[i]).emin@, d)
}

/// No two interned multistates are equal.
pub open spec fn states_distinct(states: Seq<MultiState>) -> bool {
    forall|i: int, j: int| 0 <= i < j < states.len() ==> states[i].emin@ != states[j].emin@
}

/// Every filled table entry agrees with the one-step successor function of
/// the edit-tracking automaton: the recorded destination holds exactly the
/// canonical successor multistate, and the recorded delta its base shift.
pub open spec fn rows_consistent(
    states: Seq<MultiState>,
    transitions: Seq<Transition>,
    num_chi: int,
    d: u8,
    transposition: bool,
) -> bool {
    forall|sid: int, chi: int|
        0 <= sid && 0 <= chi < num_chi && #[trigger] row_idx(num_chi, sid, chi)
            < transitions.len() ==> {
            let t = transitions[row_idx(num_chi, sid, chi)];
            &&& sid < states.len()
            &&& t.dest < states.len()
            &&& states[t.dest as int].emin@ == step_table(
                states[sid].emin@,
                chi as u32,
                d,
                transposition,
            )
            &&& t.delta == step_delta(states[sid].emin@, chi as u32, d, transposition)
        }
}

/// The parametric automaton: everything the runtime automaton shares between
/// queries.
pub struct ParametricDFA {
    pub max_distance: u8,
    pub transposition: bool,
    pub num_chi: u32,
    pub states: Vec<MultiState>,
    pub transitions: Vec<Transition>,
}

/// Well-formed parametric tables: complete (one row per state), rooted at the
/// initial multistate, and consistent with the automaton's step function.
pub open spec fn pdfa_wf(p: ParametricDFA) -> bool {
    &&& p.max_distance <= 14
    &&& p.num_chi == (1u32 << ((2 * p.max_distance + 1) as u32))
    &&& p.states@.len() >= 1
    &&& p.states@[0].emin@ == init_table(p.max_distance)
    &&& states_wf(p.states@, p.max_distance)
    &&& p.transitions@.len() == p.states@.len() * p.num_chi
    &&& rows_consistent(
        p.states@,
        p.transitions@,
        p.num_chi as int,
        p.max_distance,
        p.transposition,
    )
}

/// Two distinct row positions come from distinct `(sid, chi)` pairs.
proof fn lemma_row_idx_unique(num_chi: int, sid1: int, chi1: int, sid2: int, chi2: int)
    requires
        num_chi > 0,
        0 <= sid1,
        0 <= sid2,
        0 <= chi1 < num_chi,
        0 <= chi2 < num_chi,
        row_idx(num_chi, sid1, chi1) == row_idx(num_chi, sid2, chi2),
    ensures
        sid1 == sid2,
        chi1 == chi2,
{
    let x = row_idx(num_chi, sid1, chi1);
    assert(x == sid1 * num_chi + chi1) by (nonlinear_arith)
        requires
            x == sid1 * num_chi + chi1,
    ;
    lemma_fundamental_div_mod_converse(x, num_chi, sid1, chi1);
    lemma_fundamental_div_mod_converse(x, num_chi, sid2, chi2);
}

/// Distinct well-formed multistates for a fixed maximum distance are finite
/// in number.
proof fn lemma_states_bounded(states: Seq<MultiState>, d: u8)
    requires
        states_wf(states, d),
        states_distinct(states),
    ensures
        states.len() <= pow((d + 2) as int, (2 * (2 * d + 1)) as nat),
{
    let views = states.map_values(|ms: MultiState| ms.emin@);
    assert(views.len() == states.len());
    assert forall|i: int, j: int| 0 <= i < j < views.len() implies views[i] != views[j] by {
        assert(views[i] == states[i].emin@);
        assert(views[j] == states[j].emin@);
    }
    assert forall|i: int| 0 <= i < views.len() implies ms_wf(#[trigger] views[i], d) by {
        assert(views[i] == states[i].emin@);
    }
    lemma_distinct_tables_bounded(views, d);
}

/// Copies a multistate table.
pub fn copy_ms(ms: &MultiState) -> (r: MultiState)
    ensures
        r.emin@ == ms.emin@,
{
    let mut emin: Vec<Option<u8>> = Vec::new();
    let mut i: usize = 0;
    while i < ms.emin.len()
        invariant
            0 <= i <= ms.emin@.len(),
            emin@.len() == i,
            forall|j: int| 0 <= j < i ==> emin@[j] == ms.emin@[j],
        decreases ms.emin@.len() - i,
    {
        emin.push(ms.emin[i]);
        i = i + 1;
    }
    proof {
        assert(emin@ =~= ms.emin@);
    }
    MultiState { emin }
}

impl ParametricDFA {
    /// Runs subset construction to a fixpoint: starting from the root
    /// multistate, computes, for each discovered multistate and each
    /// characteristic vector, the canonical successor, interning every
    /// multistate met on the way. Terminates because distinct canonical
    /// multistates for a fixed maximum distance are finite in number.
    pub fn from_nfa(max_distance: u8, transposition: bool) -> (p: ParametricDFA)
        requires
            max_distance <= 14,
        ensures
            pdfa_wf(p),
            p.max_distance == max_distance,
            p.transposition == transposition,
    {
        let d = max_distance;
        let w: u8 = 2 * d + 1;
        let num_chi: u32 = 1u32 << (w as u32);
        proof {
            assert(w <= 29 ==> (1u32 << (w as u32)) >= 1) by (bit_vector);
        }
        let mut index = Index { states: Vec::new() };
        let root = MultiState::initial(d);
        let _ = index.intern(root);
        let mut transitions: Vec<Transition> = Vec::new();
        let ghost bound = pow((d + 2) as int, (2 * (2 * d + 1)) as nat);
        proof {
            lemma_states_bounded(index.states@, d);
        }
        let mut next: usize = 0;
        while next < index.states.len()
            invariant
                d <= 14,
                w == 2 * d + 1,
                num_chi == (1u32 << (w as u32)),
                num_chi >= 1,
                next <= index.states@.len(),
                1 <= index.states@.len(),
                index.states@[0].emin@ == init_table(d),
                states_wf(index.states@, d),
                states_distinct(index.states@),
                index.states@.len() <= bound,
                bound == pow((d + 2) as int, (2 * (2 * d + 1)) as nat),
                transitions@.len() == next * num_chi,
                rows_consistent(index.states@, transitions@, num_chi as int, d, transposition),
            decreases bound - index.states@.len(), index.states@.len() - next,
        {
            let src = copy_ms(&index.states[next]);
            let ghost states0 = index.states@;
            let mut chi: u32 = 0;
            while chi < num_chi
                invariant
                    d <= 14,
                    w == 2 * d + 1,
                    num_chi == (1u32 << (w as u32)),
                    num_chi >= 1,
                    chi <= num_chi,
                    next < index.states@.len(),
                    1 <= index.states@.len(),
                    index.states@[0].emin@ == init_table(d),
                    states_wf(index.states@, d),
                    states_distinct(index.states@),
                    index.states@.len() <= bound,
                    bound == pow((d + 2) as int, (2 * (2 * d + 1)) as nat),
                    src.emin@ == index.states@[next as int].emin@,
                    ms_wf(src.emin@, d),
                    transitions@.len() == next * num_chi + chi,
                    rows_consistent(index.states@, transitions@, num_chi as int, d, transposition),
                    index.states@.len() >= states0.len(),
                decreases num_chi - chi,
            {
                let ghost old_states = index.states@;
                let ghost old_transitions = transitions@;
                let (ms, delta) = src.step(chi, d, transposition);
                let dest = index.intern(ms);
                transitions.push(Transition { dest, delta });
                proof {
                    lemma_states_bounded(index.states@, d);
                    let ns = index.states@;
                    let nt = transitions@;
                    let nci = num_chi as int;
                    assert(nt.len() == next * nci + chi + 1);
                    assert(row_idx(nci, next as int, chi as int) == old_transitions.len());
                    assert forall|sid: int, c2: int|
                        0 <= sid && 0 <= c2 < nci && #[trigger] row_idx(nci, sid, c2)
                            < nt.len() implies {
                        let t = nt[row_idx(nci, sid, c2)];
                        &&& sid < ns.len()
                        &&& t.dest < ns.len()
                        &&& ns[t.dest as int].emin@ == step_table(
                            ns[sid].emin@,
                            c2 as u32,
                            d,
                            transposition,
                        )
                        &&& t.delta == step_delta(ns[sid].emin@, c2 as u32, d, transposition)
                    } by {
                        if row_idx(nci, sid, c2) < old_transitions.len() {
                            assert(nt[row_idx(nci, sid, c2)] == old_transitions[row_idx(
                                nci,
                                sid,
                                c2,
                            )]);
                            let t = old_transitions[row_idx(nci, sid, c2)];
                            assert(ns[sid].emin@ == old_states[sid].emin@);
                            assert(ns[t.dest as int].emin@ == old_states[t.dest as int].emin@);
                        } else {
                            lemma_row_idx_unique(nci, sid, c2, next as int, chi as int);
                            assert(nt[row_idx(nci, sid, c2)] == Transition { dest, delta });
                            assert(ns[next as int].emin@ == src.emin@);
                            assert(ns[dest as int].emin@ == ms.emin@);
                        }
                    }
                }
                chi = chi + 1;
            }
            next = next + 1;
            proof {
                assert(transitions@.len() == (next as int) * (num_chi as int)) by (nonlinear_arith)
                    requires
                        transitions@.len() == (next - 1) * (num_chi as int) + num_chi,
                ;
            }
        }
        ParametricDFA {
            max_distance: d,
            transposition,
            num_chi,
            states: index.states,
            transitions,
        }
    }

    /// Instantiates the parametric tables against one concrete query. Cheap
    /// next to `from_nfa`: no subset construction, only copies. The resulting
    /// automaton's parametric part is exactly this one's, whatever the query.
    pub fn build_dfa(&self, query: &[u8]) -> (dfa: DFA)
        requires
            pdfa_wf(*self),
            query@.len() <= usize::MAX - 256,
        ensures
            dfa.wf(),
            dfa.max_distance == self.max_distance,
            dfa.transposition == self.transposition,
            dfa.num_chi == self.num_chi,
            dfa.transitions@ == self.transitions@,
            dfa.states@.len() == self.states@.len(),
            forall|j: int|
                0 <= j < self.states@.len() ==> dfa.states@[j].emin@ == self.states@[j].emin@,
            dfa.query@ == query@,
    {
        let mut states: Vec<MultiState> = Vec::new();
        let mut i: usize = 0;
        while i < self.states.len()
            invariant
                0 <= i <= self.states@.len(),
                states@.len() == i,
                forall|j: int| 0 <= j < i ==> states@[j].emin@ == self.states@[j].emin@,
            decreases self.states@.len() - i,
        {
            let ms = copy_ms(&self.states[i]);
            states.push(ms);
            i = i + 1;
        }
        let mut transitions: Vec<Transition> = Vec::new();
        let mut i2: usize = 0;
        while i2 < self.transitions.len()
            invariant
                0 <= i2 <= self.transitions@.len(),
                transitions@.len() == i2,
                forall|j: int| 0 <= j < i2 ==> transitions@[j] == self.transitions@[j],
            decreases self.transitions@.len() - i2,
        {
            let t = self.transitions[i2];
            transitions.push(t);
            i2 = i2 + 1;
        }
        proof {
            assert(transitions@ =~= self.transitions@);
        }
        let mut q: Vec<u8> = Vec::new();
        let mut i3: usize = 0;
        while i3 < query.len()
            invariant
                0 <= i3 <= query@.len(),
                q@.len() == i3,
                forall|j: int| 0 <= j < i3 ==> q@[j] == query@[j],
            decreases query@.len() - i3,
        {
            let b = query[i3];
            q.push(b);
            i3 = i3 + 1;
        }
        proof {
            assert(q@ =~= query@);
        }
        let dfa = DFA {
            max_distance: self.max_distance,
            transposition: self.transposition,
            num_chi: self.num_chi,
            states,
            transitions,
            query: q,
        };
        proof {
            let d = self.max_distance;
            let tr = self.transposition;
            let nci = self.num_chi as int;
            assert forall|sid: int, chi: int|
                0 <= sid && 0 <= chi < nci && #[trigger] row_idx(nci, sid, chi)
                    < dfa.transitions@.len() implies {
                let t = dfa.transitions@[row_idx(nci, sid, chi)];
                &&& sid < dfa.states@.len()
                &&& t.dest < dfa.states@.len()
                &&& dfa.states@[t.dest as int].emin@ == step_table(
                    dfa.states@[sid].emin@,
                    chi as u32,
                    d,
                    tr,
                )
                &&& t.delta == step_delta(dfa.states@[sid].emin@, chi as u32, d, tr)
            } by {
                let t = self.transitions@[row_idx(nci, sid, chi)];
                assert(t.dest < self.states@.len());
                assert(dfa.states@[sid].emin@ == self.states@[sid].emin@);
                assert(dfa.states@[t.dest as int].emin@ == self.states@[t.dest as int].emin@);
            }
            assert(rows_consistent(dfa.states@, dfa.transitions@, nci, d, tr));
        }
        dfa
    }
}

} // verus!
