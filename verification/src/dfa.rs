//! The runtime automaton: one concrete query driven through the shared
//! parametric tables. A caller walks input bytes one at a time, carrying a
//! small cursor value, and may ask at any point for the distance outcome.

use vstd::prelude::*;

use crate::levenshtein_nfa::all_none;
use crate::levenshtein_nfa::init_table;
use crate::levenshtein_nfa::lemma_step_table_none;
use crate::levenshtein_nfa::Distance;
use crate::levenshtein_nfa::MultiState;
use crate::parametric_dfa::row_idx;
use crate::parametric_dfa::rows_consistent;
use crate::parametric_dfa::states_wf;
use crate::parametric_dfa::Transition;

verus! {

/// The caller-held cursor: the interned parametric state and the offset of
/// its base into the query, in bytes. Only states handed out by the same
/// `DFA`'s `initial_state` and `transition` are meaningful to it.
#[derive(Clone, Copy, PartialEq, Eq, Debug, Structural)]
pub struct State {
    pub id: usize,
    pub offset: usize,
}

/// The characteristic vector of the window of `w` query bytes starting at
/// `base`: bit `j` is set when the query byte at `base + j` exists and
/// equals `c`.
pub open spec fn chi_spec(q: Seq<u8>, base: int, w: int, c: u8) -> u32
    decreases w,
{
    if w <= 0 {
        0
    } else {
        chi_spec(q, base, w - 1, c) | (if base + w - 1 < q.len() && q[base + w - 1] == c {
            1u32 << ((w - 1) as u32)
        } else {
            0
        })
    }
}

/// A characteristic vector over a window of `w` bits stays below `2^w`.
proof fn lemma_chi_bound(q: Seq<u8>, base: int, w: int, c: u8)
    requires
        0 <= w <= 29,
    ensures
        chi_spec(q, base, w, c) < (1u32 << (w as u32)),
    decreases w,
{
    if w <= 0 {
        assert((1u32 << 0u32) == 1) by (bit_vector);
    } else {
        lemma_chi_bound(q, base, w - 1, c);
        let x = chi_spec(q, base, w - 1, c);
        let wm1: u32 = (w - 1) as u32;
        assert(x < (1u32 << (wm1 + 1)) && (x | (1u32 << wm1)) < (1u32 << (wm1 + 1)) && (x | 0u32)
            == x) by (bit_vector)
            requires
                x < (1u32 << wm1),
                wm1 <= 28,
        ;
        assert((w as u32) == wm1 + 1);
    }
}

/// Computes the characteristic vector of the window of `w` query bytes
/// starting at `base` against the byte `c`.
fn characteristic_vector(q: &Vec<u8>, base: usize, w: u8, c: u8) -> (chi: u32)
    requires
        w <= 29,
        q@.len() <= usize::MAX - 256,
        base <= q@.len() + 1,
    ensures
        chi == chi_spec(q@, base as int, w as int, c),
{
    let mut chi: u32 = 0;
    let mut j: u8 = 0;
    while j < w
        invariant
            0 <= j <= w <= 29,
            q@.len() <= usize::MAX - 256,
            base <= q@.len() + 1,
            chi == chi_spec(q@, base as int, j as int, c),
        decreases w - j,
    {
        if base + (j as usize) < q.len() && q[base + (j as usize)] == c {
            chi = chi | (1u32 << (j as u32));
        } else {
            proof {
                assert(chi | 0u32 == chi) by (bit_vector);
            }
        }
        j = j + 1;
    }
    chi
}

/// Cost certified by table cell `k` when `r` query bytes remain past the
/// multistate base: a configuration `(off, e)` not inside a transposition
/// completes by deleting the `r - off` remaining query bytes, for a total
/// of `e + (r - off)` edits; anything else certifies nothing (`d + 1`).
/// A configuration inside a pending transposition never certifies a cost:
/// whenever one is created, the insertion move creates its twin at the same
/// offset and cost, so the minimum over the table never suffers.
pub open spec fn cell_cost(m: Seq<Option<u8>>, r: int, d: u8, k: int) -> int {
    if k % 2 == 0 {
        match m[k] {
            Some(e) => {
                let off = k / 2;
                if off <= r && e + r - off <= d {
                    e + r - off
                } else {
                    d + 1
                }
            },
            None => d + 1,
        }
    } else {
        d + 1
    }
}

/// Least certified cost among the first `k` table cells, `d + 1` if none.
pub open spec fn best_upto(m: Seq<Option<u8>>, r: int, d: u8, k: int) -> int
    decreases k,
{
    if k <= 0 {
        d + 1
    } else {
        let p = best_upto(m, r, d, k - 1);
        let c = cell_cost(m, r, d, k - 1);
        if c < p {
            c
        } else {
            p
        }
    }
}

/// A deterministic automaton recognizing the byte strings within the
/// configured edit distance of one query. It owns a copy of the parametric
/// tables and of the query bytes; walking it never mutates it.
pub struct DFA {
    pub max_distance: u8,
    pub transposition: bool,
    pub num_chi: u32,
    pub states: Vec<MultiState>,
    pub transitions: Vec<Transition>,
    pub query: Vec<u8>,
}

impl DFA {
    /// Well-formed runtime automaton: complete, rooted, consistent
    /// parametric tables and a query short enough to index safely.
    pub open spec fn wf(self) -> bool {
        &&& self.max_distance <= 14
        &&& self.num_chi == (1u32 << ((2 * self.max_distance + 1) as u32))
        &&& self.states@.len() >= 1
        &&& self.states@[0].emin@ == init_table(self.max_distance)
        &&& states_wf(self.states@, self.max_distance)
        &&& self.transitions@.len() == self.states@.len() * self.num_chi
        &&& rows_consistent(
            self.states@,
            self.transitions@,
            self.num_chi as int,
            self.max_distance,
            self.transposition,
        )
        &&& self.query@.len() <= usize::MAX - 256
    }

    /// A cursor this automaton can be driven with.
    pub open spec fn st_wf(self, s: State) -> bool {
        &&& s.id < self.states@.len()
        &&& s.offset <= self.query@.len() + 1
    }

    /// What `transition` returns: look the successor row up under the
    /// window's characteristic vector; the offset advances by the recorded
    /// delta, saturating just past the query's end (from there on every
    /// window is empty, so the saturation point behaves like any offset
    /// beyond the query).
    pub open spec fn spec_transition(self, s: State, b: u8) -> State {
        let chi = chi_spec(self.query@, s.offset as int, 2 * self.max_distance + 1, b);
        let t = self.transitions@[row_idx(self.num_chi as int, s.id as int, chi as int)];
        let cap = self.query@.len() + 1;
        State {
            id: t.dest,
            offset: if s.offset + t.delta > cap {
                cap as usize
            } else {
                (s.offset + t.delta) as usize
            },
        }
    }

    /// What `distance` returns: the least cost certified by the current
    /// multistate given how many query bytes remain, `AtLeast(d + 1)` when
    /// none is within the bound.
    pub open spec fn spec_distance(self, s: State) -> Distance {
        let n = self.query@.len() as int;
        let d = self.max_distance;
        if s.offset > n {
            Distance::AtLeast((d + 1) as u8)
        } else {
            let m = self.states@[s.id as int].emin@;
            let best = best_upto(m, n - s.offset, d, m.len() as int);
            if best <= d {
                Distance::Exact(best as u8)
            } else {
                Distance::AtLeast((d + 1) as u8)
            }
        }
    }

    /// The state every walk starts from: the root parametric state at
    /// offset 0.
    pub fn initial_state(&self) -> (s: State)
        requires
            self.wf(),
        ensures
            s == (State { id: 0, offset: 0 }),
            self.st_wf(s),
    {
        State { id: 0, offset: 0 }
    }

    /// Consumes one input byte from `state`, returning the successor state.
    ///
    /// Feeding a state produced by a different automaton (another query or
    /// another configuration) is a caller contract violation: it is not
    /// validated here, by design.
    pub fn transition(&self, state: State, b: u8) -> (r: State)
        requires
            self.wf(),
            self.st_wf(state),
        ensures
            r == self.spec_transition(state, b),
            self.st_wf(r),
    {
        let w: u8 = 2 * self.max_distance + 1;
        let chi = characteristic_vector(&self.query, state.offset, w, b);
        let nc: usize = self.num_chi as usize;
        proof {
            lemma_chi_bound(self.query@, state.offset as int, w as int, b);
            assert(self.transitions@.len() == self.states@.len() * (nc as int));
            assert((state.id as int) * (nc as int) + (chi as int) < self.states@.len() * (
            nc as int)) by (nonlinear_arith)
                requires
                    (state.id as int) < self.states@.len(),
                    (chi as int) < (nc as int),
                    (nc as int) >= 1,
            ;
            assert(row_idx(self.num_chi as int, state.id as int, chi as int) == (state.id as int)
                * (nc as int) + (chi as int));
        }
        let tl: usize = self.transitions.len();
        proof {
            assert((state.id as int) * (nc as int) + (chi as int) < tl as int);
        }
        let idx: usize = state.id * nc + (chi as usize);
        let t = self.transitions[idx];
        let cap: usize = self.query.len() + 1;
        let mut noff: usize = state.offset + (t.delta as usize);
        if noff > cap {
            noff = cap;
        }
        State { id: t.dest, offset: noff }
    }

    /// Reports the distance outcome at `state`: `Exact(k)` when the walked
    /// input is provably at edit distance `k <= max_distance` from the
    /// query, `AtLeast(max_distance + 1)` otherwise.
    pub fn distance(&self, state: State) -> (r: Distance)
        requires
            self.wf(),
            self.st_wf(state),
        ensures
            r == self.spec_distance(state),
    {
        let n = self.query.len();
        let d = self.max_distance;
        if state.offset > n {
            return Distance::AtLeast(d + 1);
        }
        let rem: usize = n - state.offset;
        let mut best: u8 = d + 1;
        let mut k: usize = 0;
        let ghost m = self.states@[state.id as int].emin@;
        while k < self.states[state.id].emin.len()
            invariant
                self.wf(),
                state.id < self.states@.len(),
                m == self.states@[state.id as int].emin@,
                0 <= k <= m.len(),
                d == self.max_distance,
                rem == self.query@.len() - state.offset,
                best == best_upto(m, rem as int, d, k as int),
                best <= d + 1,
            decreases m.len() - k,
        {
            if k % 2 == 0 {
                match self.states[state.id].emin[k] {
                    Some(e) => {
                        let off: usize = k / 2;
                        proof {
                            assert(e <= d);
                        }
                        if off <= rem && rem - off <= (d - e) as usize {
                            let cost: u8 = e + ((rem - off) as u8);
                            if cost < best {
                                best = cost;
                            }
                        }
                    },
                    None => {},
                }
            }
            k = k + 1;
        }
        if best <= d {
            Distance::Exact(best)
        } else {
            Distance::AtLeast(d + 1)
        }
    }

    /// Number of parametric states shared by every automaton built from the
    /// same builder; it depends only on `(max_distance, transposition)`.
    pub fn num_parametric_states(&self) -> (n: usize)
        ensures
            n == self.states@.len(),
    {
        self.states.len()
    }

    /// Two automata hold the same model when their parametric tables and
    /// query agree; `build_dfa` gives this to any two automata built from
    /// one builder with one query.
    pub open spec fn same_model(self, other: DFA) -> bool {
        &&& self.max_distance == other.max_distance
        &&& self.transposition == other.transposition
        &&& self.num_chi == other.num_chi
        &&& self.states@.len() == other.states@.len()
        &&& (forall|i: int|
            0 <= i < self.states@.len() ==> self.states@[i].emin@ == other.states@[i].emin@)
        &&& self.transitions@ == other.transitions@
        &&& self.query@ == other.query@
    }

    /// The state a walk over `bytes` starting from `s` ends in.
    pub open spec fn walk(self, s: State, bytes: Seq<u8>) -> State
        decreases bytes.len(),
    {
        if bytes.len() == 0 {
            s
        } else {
            self.walk(self.spec_transition(s, bytes[0]), bytes.subrange(1, bytes.len() as int))
        }
    }
}

/// One transition keeps the cursor valid for the automaton that made it.
pub proof fn lemma_transition_wf(a: DFA, s: State, b: u8)
    requires
        a.wf(),
        a.st_wf(s),
    ensures
        a.st_wf(a.spec_transition(s, b)),
{
    let w = 2 * a.max_distance + 1;
    lemma_chi_bound(a.query@, s.offset as int, w as int, b);
    let chi = chi_spec(a.query@, s.offset as int, w as int, b);
    let nci = a.num_chi as int;
    assert((s.id as int) * nci + (chi as int) < a.states@.len() * nci) by (nonlinear_arith)
        requires
            (s.id as int) < a.states@.len(),
            (chi as int) < nci,
            nci >= 1,
    ;
    assert(row_idx(nci, s.id as int, chi as int) < a.transitions@.len());
}

/// A whole walk keeps the cursor valid.
pub proof fn lemma_walk_wf(a: DFA, s: State, bytes: Seq<u8>)
    requires
        a.wf(),
        a.st_wf(s),
    ensures
        a.st_wf(a.walk(s, bytes)),
    decreases bytes.len(),
{
    if bytes.len() > 0 {
        lemma_transition_wf(a, s, bytes[0]);
        lemma_walk_wf(a, a.spec_transition(s, bytes[0]), bytes.subrange(1, bytes.len() as int));
    }
}

/// Determinism: two automata holding the same model — as any two built from
/// the same builder and the same query do — walk identical inputs to
/// identical states and report identical distance outcomes.
pub proof fn lemma_determinism(a: DFA, b: DFA, s: State, bytes: Seq<u8>)
    requires
        a.wf(),
        a.same_model(b),
        a.st_wf(s),
    ensures
        a.walk(s, bytes) == b.walk(s, bytes),
        a.spec_distance(a.walk(s, bytes)) == b.spec_distance(b.walk(s, bytes)),
    decreases bytes.len(),
{
    lemma_walk_wf(a, s, bytes);
    if bytes.len() == 0 {
        assert(a.states@[s.id as int].emin@ == b.states@[s.id as int].emin@);
    } else {
        let s1 = a.spec_transition(s, bytes[0]);
        assert(b.spec_transition(s, bytes[0]) == s1);
        lemma_transition_wf(a, s, bytes[0]);
        lemma_determinism(a, b, s1, bytes.subrange(1, bytes.len() as int));
    }
}

proof fn lemma_best_none(m: Seq<Option<u8>>, r: int, d: u8, k: int)
    requires
        all_none(m),
        0 <= k <= m.len(),
    ensures
        best_upto(m, r, d, k) == d + 1,
    decreases k,
{
    if k > 0 {
        lemma_best_none(m, r, d, k - 1);
    }
}

/// Once the bound has been exceeded it stays exceeded: a state whose
/// multistate holds no configuration reports `AtLeast(max_distance + 1)`,
/// and every byte leads from it to such a state again. No further input can
/// bring the outcome back to an exact distance.
pub proof fn lemma_dead_state_absorbing(a: DFA, s: State, b: u8)
    requires
        a.wf(),
        a.st_wf(s),
        all_none(a.states@[s.id as int].emin@),
    ensures
        a.spec_distance(s) == Distance::AtLeast((a.max_distance + 1) as u8),
        all_none(a.states@[a.spec_transition(s, b).id as int].emin@),
{
    let m = a.states@[s.id as int].emin@;
    if s.offset <= a.query@.len() {
        lemma_best_none(m, a.query@.len() - s.offset, a.max_distance, m.len() as int);
    }
    let w = 2 * a.max_distance + 1;
    lemma_chi_bound(a.query@, s.offset as int, w as int, b);
    let chi = chi_spec(a.query@, s.offset as int, w as int, b);
    let nci = a.num_chi as int;
    assert((s.id as int) * nci + (chi as int) < a.states@.len() * nci) by (nonlinear_arith)
        requires
            (s.id as int) < a.states@.len(),
            (chi as int) < nci,
            nci >= 1,
    ;
    assert(row_idx(nci, s.id as int, chi as int) < a.transitions@.len());
    lemma_step_table_none(m, chi, a.max_distance, a.transposition);
}

/// In the root multistate only the configuration `(offset 0, cost 0)` exists.
proof fn lemma_best_init(m: Seq<Option<u8>>, r: int, d: u8, k: int)
    requires
        m == init_table(d),
        0 <= r,
        0 <= k <= m.len(),
    ensures
        best_upto(m, r, d, k) == if k >= 1 && r <= d {
            r
        } else {
            d + 1
        },
    decreases k,
{
    if k > 0 {
        lemma_best_init(m, r, d, k - 1);
    }
}

/// Before any input is consumed the distance outcome is the cost of deleting
/// the whole query: `Exact(|query|)` when that is within the bound,
/// `AtLeast(max_distance + 1)` otherwise.
pub proof fn lemma_distance_before_any_input(a: DFA)
    requires
        a.wf(),
    ensures
        a.spec_distance(State { id: 0, offset: 0 }) == if a.query@.len() <= a.max_distance {
            Distance::Exact(a.query@.len() as u8)
        } else {
            Distance::AtLeast((a.max_distance + 1) as u8)
        },
{
    let m = a.states@[0].emin@;
    lemma_best_init(m, a.query@.len() as int, a.max_distance, m.len() as int);
}

} // verus!
