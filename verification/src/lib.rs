//! Levenshtein automata: for a fixed query string and a fixed maximum edit
//! distance, build a deterministic automaton that recognizes every byte
//! string within that distance of the query (Levenshtein distance, or
//! Damerau-Levenshtein distance when transpositions count as one edit).
//!
//! The expensive part — subset construction over the generic edit-tracking
//! automaton, driven by characteristic bit vectors — runs once per
//! `(max_distance, transposition)` configuration and produces small
//! parametric tables whose size is independent of any query. Building the
//! automaton for one concrete query afterwards is cheap: walk an index or a
//! dictionary byte by byte with `DFA::transition` and read off
//! `DFA::distance` wherever a decision is due.

use vstd::prelude::*;

pub mod dfa;
pub mod index;
pub mod levenshtein_nfa;
pub mod parametric_dfa;

pub use dfa::State;
pub use dfa::DFA;
pub use levenshtein_nfa::Distance;

use parametric_dfa::pdfa_wf;
use parametric_dfa::ParametricDFA;

verus! {

/// Builder for Levenshtein automata: owns the parametric tables for one
/// `(max_distance, transposition_cost_one)` configuration, built once, and
/// instantiates them cheaply against any number of queries.
pub struct LevenshteinAutomatonBuilder {
    pub parametric_dfa: ParametricDFA,
}

impl LevenshteinAutomatonBuilder {
    /// The builder's tables are complete, rooted and consistent.
    pub open spec fn wf(self) -> bool {
        pdfa_wf(self.parametric_dfa)
    }

    /// The configured maximum distance.
    pub open spec fn spec_max_distance(self) -> u8 {
        self.parametric_dfa.max_distance
    }

    /// Whether a transposition counts as one edit.
    pub open spec fn spec_transposition(self) -> bool {
        self.parametric_dfa.transposition
    }

    /// Creates a Levenshtein automaton builder.
    ///
    /// * `max_distance` — the largest edit distance the automata measure.
    /// * `transposition_cost_one` — count an adjacent transposition as one
    ///   edit instead of two.
    ///
    /// Construction cost grows exponentially with `max_distance`: a few
    /// milliseconds up to distance 2, only distances up to about 5 are
    /// practical. The precondition stops where the table of characteristic
    /// vectors could no longer be indexed on this machine.
    pub fn new(max_distance: u8, transposition_cost_one: bool) -> (b: LevenshteinAutomatonBuilder)
        requires
            max_distance <= 14,
        ensures
            b.wf(),
            b.spec_max_distance() == max_distance,
            b.spec_transposition() == transposition_cost_one,
    {
        LevenshteinAutomatonBuilder {
            parametric_dfa: ParametricDFA::from_nfa(max_distance, transposition_cost_one),
        }
    }

    /// Builds the deterministic automaton that measures the edit distance
    /// from `query`, up to the configured maximum.
    ///
    /// This only instantiates the prebuilt tables: the automaton's
    /// parametric part — in particular its state count — is the builder's,
    /// whatever the query.
    pub fn build_dfa(&self, query: &[u8]) -> (dfa: DFA)
        requires
            self.wf(),
            query@.len() <= usize::MAX - 256,
        ensures
            dfa.wf(),
            dfa.query@ == query@,
            dfa.max_distance == self.spec_max_distance(),
            dfa.transposition == self.spec_transposition(),
            dfa.num_chi == self.parametric_dfa.num_chi,
            dfa.transitions@ == self.parametric_dfa.transitions@,
            dfa.states@.len() == self.parametric_dfa.states@.len(),
            forall|j: int|
                0 <= j < dfa.states@.len() ==> dfa.states@[j].emin@
                    == self.parametric_dfa.states@[j].emin@,
    {
        self.parametric_dfa.build_dfa(query)
    }
}

/// The parametric state count is a constant of the builder: `build_dfa`
/// ensures every automaton's state count equals the builder's, for every
/// query, so any two automata from one builder — whatever their queries and
/// whatever those queries' lengths — hold the same number of parametric
/// states.
pub proof fn lemma_state_count_query_independent(
    b: LevenshteinAutomatonBuilder,
    d1: DFA,
    d2: DFA,
)
    requires
        d1.states@.len() == b.parametric_dfa.states@.len(),
        d2.states@.len() == b.parametric_dfa.states@.len(),
    ensures
        d1.states@.len() == d2.states@.len(),
{
}

} // verus!
