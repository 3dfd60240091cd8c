//! The state interner: assigns a dense integer id to each canonical
//! multistate met during subset construction, first-seen order, so that the
//! parametric tables can be indexed in O(1) and so that identical reachable
//! multistates are merged instead of re-expanded.
//!
//! The interner also carries the counting argument that makes subset
//! construction terminate: a canonical multistate is a fixed-width table of
//! edit counts bounded by the maximum distance, so reading the table as a
//! radix numeral shows there are finitely many distinct ones.

use vstd::arithmetic::div_mod::lemma_fundamental_div_mod_converse;
use vstd::arithmetic::power::pow;
use vstd::prelude::*;
use vstd::set_lib::lemma_int_range;
use vstd::set_lib::lemma_len_subset;
use vstd::set_lib::set_int_range;

use crate::levenshtein_nfa::ms_wf;
use crate::levenshtein_nfa::MultiState;

verus! {

/// One table entry read as a digit in base `max_distance + 2`:
/// `None` is 0, an edit count `e` is `e + 1`.
pub open spec fn digit(o: Option<u8>) -> int {
    match o {
        None => 0,
        Some(e) => e + 1,
    }
}

/// A multistate table read as a little-endian radix numeral.
pub open spec fn encode(m: Seq<Option<u8>>, base: int) -> int
    decreases m.len(),
{
    if m.len() == 0 {
        0
    } else {
        digit(m[0]) + base * encode(m.subrange(1, m.len() as int), base)
    }
}

/// All digits of a well-formed table lie below its base.
proof fn lemma_encode_bound(m: Seq<Option<u8>>, d: u8)
    requires
        forall|k: int|
            0 <= k < m.len() ==> match #[trigger] m[k] {
                Some(e) => e <= d,
                None => true,
            },
    ensures
        0 <= encode(m, d + 2) < pow((d + 2) as int, m.len()),
    decreases m.len(),
{
    let base = (d + 2) as int;
    reveal(pow);
    if m.len() == 0 {
        assert(pow(base, 0) == 1);
    } else {
        let rest = m.subrange(1, m.len() as int);
        lemma_encode_bound(rest, d);
        let r = encode(rest, base);
        let p = pow(base, rest.len());
        assert(pow(base, m.len()) == base * p);
        assert(0 <= digit(m[0]) < base);
        assert(digit(m[0]) + base * r < base * p) by (nonlinear_arith)
            requires
                0 <= digit(m[0]) < base,
                0 <= r < p,
        ;
        assert(0 <= digit(m[0]) + base * r) by (nonlinear_arith)
            requires
                0 <= digit(m[0]),
                0 <= r,
                base > 0,
        ;
    }
}

/// Equal numerals with in-range digits come from equal tables.
proof fn lemma_encode_injective(a: Seq<Option<u8>>, b: Seq<Option<u8>>, d: u8)
    requires
        a.len() == b.len(),
        forall|k: int|
            0 <= k < a.len() ==> match #[trigger] a[k] {
                Some(e) => e <= d,
                None => true,
            },
        forall|k: int|
            0 <= k < b.len() ==> match #[trigger] b[k] {
                Some(e) => e <= d,
                None => true,
            },
        encode(a, d + 2) == encode(b, d + 2),
    ensures
        a == b,
    decreases a.len(),
{
    let base = (d + 2) as int;
    reveal(pow);
    if a.len() == 0 {
        assert(a =~= b);
    } else {
        let ra = a.subrange(1, a.len() as int);
        let rb = b.subrange(1, b.len() as int);
        lemma_encode_bound(ra, d);
        lemma_encode_bound(rb, d);
        let x = encode(a, base);
        assert(0 <= digit(a[0]) < base);
        assert(0 <= digit(b[0]) < base);
        assert(x == digit(a[0]) + base * encode(ra, base));
        assert(x == digit(b[0]) + base * encode(rb, base));
        assert(x == encode(ra, base) * base + digit(a[0])) by (nonlinear_arith)
            requires
                x == digit(a[0]) + base * encode(ra, base),
        ;
        assert(x == encode(rb, base) * base + digit(b[0])) by (nonlinear_arith)
            requires
                x == digit(b[0]) + base * encode(rb, base),
        ;
        lemma_fundamental_div_mod_converse(x, base, encode(ra, base), digit(a[0]));
        lemma_fundamental_div_mod_converse(x, base, encode(rb, base), digit(b[0]));
        assert(digit(a[0]) == digit(b[0]));
        assert(a[0] == b[0]);
        lemma_encode_injective(ra, rb, d);
        assert forall|k: int| 0 <= k < a.len() implies a[k] == b[k] by {
            if k >= 1 {
                assert(a[k] == ra[k - 1]);
                assert(b[k] == rb[k - 1]);
            }
        }
        assert(a =~= b);
    }
}

/// Pairwise-distinct well-formed multistate tables for a fixed maximum
/// distance `d` number at most `(d + 2) ^ (2 * (2d + 1))`: each is a numeral
/// of that many digits in base `d + 2`.
pub proof fn lemma_distinct_tables_bounded(views: Seq<Seq<Option<u8>>>, d: u8)
    requires
        forall|i: int, j: int| 0 <= i < j < views.len() ==> views[i] != views[j],
        forall|i: int| 0 <= i < views.len() ==> ms_wf(#[trigger] views[i], d),
    ensures
        views.len() <= pow((d + 2) as int, (2 * (2 * d + 1)) as nat),
{
    let base = (d + 2) as int;
    let bound = pow(base, (2 * (2 * d + 1)) as nat);
    vstd::arithmetic::power::lemma_pow_positive(base, (2 * (2 * d + 1)) as nat);
    let enc = views.map_values(|m: Seq<Option<u8>>| encode(m, base));
    assert forall|i: int, j: int| 0 <= i < j < enc.len() implies enc[i] != enc[j] by {
        if enc[i] == enc[j] {
            lemma_encode_injective(views[i], views[j], d);
        }
    }
    assert(enc.no_duplicates());
    enc.unique_seq_to_set();
    lemma_int_range(0, bound);
    assert forall|x: int| enc.to_set().contains(x) implies set_int_range(0, bound).contains(x) by {
        let i = choose|i: int| 0 <= i < enc.len() && enc[i] == x;
        lemma_encode_bound(views[i], d);
    }
    lemma_len_subset(enc.to_set(), set_int_range(0, bound));
}

/// Compares two entries.
fn opt_eq(x: Option<u8>, y: Option<u8>) -> (r: bool)
    ensures
        r == (x == y),
{
    match (x, y) {
        (None, None) => true,
        (Some(a), Some(b)) => a == b,
        _ => false,
    }
}

/// Compares two multistate tables.
pub fn ms_eq(a: &MultiState, b: &MultiState) -> (r: bool)
    ensures
        r == (a.emin@ == b.emin@),
{
    if a.emin.len() != b.emin.len() {
        return false;
    }
    let mut i: usize = 0;
    while i < a.emin.len()
        invariant
            0 <= i <= a.emin@.len(),
            a.emin@.len() == b.emin@.len(),
            forall|j: int| 0 <= j < i ==> a.emin@[j] == b.emin@[j],
        decreases a.emin@.len() - i,
    {
        if !opt_eq(a.emin[i], b.emin[i]) {
            proof {
                assert(a.emin@[i as int] != b.emin@[i as int]);
            }
            return false;
        }
        i = i + 1;
    }
    proof {
        assert(a.emin@ =~= b.emin@);
    }
    true
}

/// Arena of interned multistates; a state's id is its position.
pub struct Index {
    pub states: Vec<MultiState>,
}

impl Index {
    /// Returns the id of `m`, interning it first when it is new. Ids already
    /// handed out never move; a multistate equal to an interned one gets the
    /// existing id back.
    pub fn intern(&mut self, m: MultiState) -> (id: usize)
        ensures
            id < final(self).states@.len(),
            final(self).states@[id as int].emin@ == m.emin@,
            final(self).states@.len() >= old(self).states@.len(),
            forall|j: int|
                0 <= j < old(self).states@.len() ==> final(self).states@[j].emin@ == old(
                    self,
                ).states@[j].emin@,
            final(self).states@.len() <= old(self).states@.len() + 1,
            final(self).states@.len() == old(self).states@.len() + 1 ==> id == old(
                self,
            ).states@.len() && (forall|j: int|
                0 <= j < old(self).states@.len() ==> old(self).states@[j].emin@ != m.emin@),
    {
        let mut i: usize = 0;
        while i < self.states.len()
            invariant
                0 <= i <= self.states@.len(),
                self == old(self),
                forall|j: int| 0 <= j < i ==> self.states@[j].emin@ != m.emin@,
            decreases self.states@.len() - i,
        {
            if ms_eq(&self.states[i], &m) {
                return i;
            }
            i = i + 1;
        }
        self.states.push(m);
        self.states.len() - 1
    }
}

} // verus!
