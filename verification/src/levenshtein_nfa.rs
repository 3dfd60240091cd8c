//! The generic nondeterministic edit-tracking automaton.
//!
//! A configuration `(offset, dist, in_transpose)` says: the input consumed so
//! far can be aligned with the query up to `offset` query characters (counted
//! relative to the base of the enclosing multistate) at a cost of `dist`
//! edits; `in_transpose` marks a transposition whose first character has been
//! consumed. A multistate is the set of configurations reachable
//! nondeterministically, canonicalized as a fixed-width table that keeps, for
//! each `(offset, in_transpose)` pair, the least edit count reached.
//!
//! Transitions consume one input byte abstracted as a characteristic bit
//! vector: bit `j` says whether the query character `j` positions ahead of
//! the multistate base equals the consumed byte.

use vstd::prelude::*;

verus! {

/// Outcome of a distance query: either the exact edit distance (provably
/// within the configured bound) or "at least `max_distance + 1`".
#[derive(Clone, Copy, PartialEq, Eq, Debug, Structural)]
pub enum Distance {
    /// The edit distance is exactly this value.
    Exact(u8),
    /// The edit distance is at least this value (`max_distance + 1`).
    AtLeast(u8),
}

/// One edit configuration, produced while computing the successors of a
/// multistate; `offset` is relative to the source multistate's base.
#[derive(Clone, Copy, PartialEq, Eq, Debug, Structural)]
pub struct Config {
    pub offset: u8,
    pub dist: u8,
    pub in_transpose: bool,
}

/// A canonical multistate: entry `2*offset + flag` holds the least edit
/// count among configurations at `(offset, in_transpose == (flag == 1))`,
/// or `None` when no configuration sits there. The table spans relative
/// offsets `0 ..= 2*max_distance`, so its length is `2 * (2*max_distance+1)`.
pub struct MultiState {
    pub emin: Vec<Option<u8>>,
}

/// Well-formed multistate table for maximum distance `d`: fixed width, all
/// edit counts within the bound.
pub open spec fn ms_wf(m: Seq<Option<u8>>, d: u8) -> bool {
    &&& m.len() == 2 * (2 * d + 1)
    &&& forall|k: int|
        0 <= k < m.len() ==> match #[trigger] m[k] {
            Some(e) => e <= d,
            None => true,
        }
}

/// Bit `i` of a characteristic vector.
pub open spec fn bit_set(chi: u32, i: u8) -> bool {
    (chi >> (i as u32)) & 1 == 1
}

/// Builds the fresh multistate holding the single configuration
/// `(offset 0, cost 0, no pending transposition)`: the automaton's root.
pub open spec fn init_table(d: u8) -> Seq<Option<u8>> {
    Seq::new((2 * (2 * d + 1)) as nat, |k: int| if k == 0 { Some(0u8) } else { None })
}

/// Successor configurations contributed by deletion-then-match moves of
/// lengths `2 ..= lmax` from a configuration `(off, e, not in transposition)`:
/// deleting `l - 1` query characters and then matching costs `l - 1` edits
/// and advances the offset by `l`. Window bits at or past `w` never match.
pub open spec fn jump_upto(off: u8, e: u8, chi: u32, w: u8, lmax: int) -> Seq<Config>
    decreases lmax,
{
    if lmax < 2 {
        Seq::empty()
    } else {
        jump_upto(off, e, chi, w, lmax - 1) + if off + lmax - 1 < w && bit_set(
            chi,
            (off + lmax - 1) as u8,
        ) {
            seq![
                Config {
                    offset: (off + lmax) as u8,
                    dist: (e + lmax - 1) as u8,
                    in_transpose: false,
                },
            ]
        } else {
            Seq::empty()
        }
    }
}

/// All successor configurations of one configuration `(off, e, t)` under the
/// characteristic vector `chi`: match (cost 0), and — while `e < d` —
/// insertion, substitution, deletion-then-match moves, and, when enabled,
/// the start of a transposition; a pending transposition can only complete.
pub open spec fn entry_succ(off: u8, t: bool, e: u8, chi: u32, d: u8, transposition: bool) -> Seq<
    Config,
> {
    let w = (2 * d + 1) as u8;
    if t {
        if bit_set(chi, off) {
            seq![Config { offset: (off + 2) as u8, dist: e, in_transpose: false }]
        } else {
            Seq::empty()
        }
    } else {
        (if bit_set(chi, off) {
            seq![Config { offset: (off + 1) as u8, dist: e, in_transpose: false }]
        } else {
            Seq::empty()
        }) + if e < d {
            seq![
                Config { offset: off, dist: (e + 1) as u8, in_transpose: false },
                Config { offset: (off + 1) as u8, dist: (e + 1) as u8, in_transpose: false },
            ] + jump_upto(off, e, chi, w, d - e + 1) + if transposition && bit_set(
                chi,
                (off + 1) as u8,
            ) {
                seq![Config { offset: off, dist: (e + 1) as u8, in_transpose: true }]
            } else {
                Seq::empty()
            }
        } else {
            Seq::empty()
        }
    }
}

/// Successors contributed by table entry `k` of a multistate.
pub open spec fn entry_succ_at(
    m: Seq<Option<u8>>,
    k: int,
    chi: u32,
    d: u8,
    transposition: bool,
) -> Seq<Config> {
    match m[k] {
        None => Seq::empty(),
        Some(e) => entry_succ((k / 2) as u8, k % 2 == 1, e, chi, d, transposition),
    }
}

/// Successors contributed by the first `k` table entries.
pub open spec fn succ_upto(m: Seq<Option<u8>>, chi: u32, d: u8, transposition: bool, k: int) -> Seq<
    Config,
>
    decreases k,
{
    if k <= 0 {
        Seq::empty()
    } else {
        succ_upto(m, chi, d, transposition, k - 1) + entry_succ_at(m, k - 1, chi, d, transposition)
    }
}

/// Every successor configuration of a multistate under one characteristic
/// vector, in generation order.
pub open spec fn succ_all(m: Seq<Option<u8>>, chi: u32, d: u8, transposition: bool) -> Seq<Config> {
    succ_upto(m, chi, d, transposition, m.len() as int)
}

/// Least offset among the first `j` configurations (`j >= 1`).
pub open spec fn min_off_upto(s: Seq<Config>, j: int) -> u8
    decreases j,
{
    if j <= 1 {
        if s.len() > 0 {
            s[0].offset
        } else {
            0
        }
    } else {
        let p = min_off_upto(s, j - 1);
        if s[j - 1].offset < p {
            s[j - 1].offset
        } else {
            p
        }
    }
}

/// Base shift of the successor multistate: the least successor offset,
/// or 0 when there is no successor.
pub open spec fn min_off(s: Seq<Config>) -> u8 {
    if s.len() == 0 {
        0
    } else {
        min_off_upto(s, s.len() as int)
    }
}

/// Keeps the smaller edit count.
pub open spec fn merge_min(cur: Option<u8>, e: u8) -> Option<u8> {
    match cur {
        None => Some(e),
        Some(x) => if e < x {
            Some(e)
        } else {
            Some(x)
        },
    }
}

/// Table cell a configuration lands in once offsets are rebased by `shift`.
pub open spec fn cell_of(c: Config, shift: u8) -> int {
    2 * (c.offset - shift) + if c.in_transpose {
        1int
    } else {
        0int
    }
}

/// Least edit count among the first `j` configurations landing in cell `k`.
pub open spec fn entry_min_upto(s: Seq<Config>, shift: u8, k: int, j: int) -> Option<u8>
    decreases j,
{
    if j <= 0 {
        None
    } else {
        let prev = entry_min_upto(s, shift, k, j - 1);
        if cell_of(s[j - 1], shift) == k {
            merge_min(prev, s[j - 1].dist)
        } else {
            prev
        }
    }
}

/// The canonical successor multistate of `m` under `chi`. A successor whose
/// rebased offset would fall outside the window lands in no cell and is
/// discarded: a reachable multistate never spreads wider than the window,
/// since every configuration's offset stays within its edit count of the
/// number of bytes consumed so far.
pub open spec fn step_table(m: Seq<Option<u8>>, chi: u32, d: u8, transposition: bool) -> Seq<
    Option<u8>,
> {
    let s = succ_all(m, chi, d, transposition);
    Seq::new((2 * (2 * d + 1)) as nat, |k: int| entry_min_upto(s, min_off(s), k, s.len() as int))
}

/// How far the successor multistate's base moves along the query.
pub open spec fn step_delta(m: Seq<Option<u8>>, chi: u32, d: u8, transposition: bool) -> u8 {
    min_off(succ_all(m, chi, d, transposition))
}

/// A multistate with no configuration left: no walk out of it can ever
/// certify a distance again.
pub open spec fn all_none(m: Seq<Option<u8>>) -> bool {
    forall|k: int| 0 <= k < m.len() ==> m[k] == None::<u8>
}

proof fn lemma_succ_upto_none(m: Seq<Option<u8>>, chi: u32, d: u8, transposition: bool, k: int)
    requires
        all_none(m),
        0 <= k <= m.len(),
    ensures
        succ_upto(m, chi, d, transposition, k) == Seq::<Config>::empty(),
    decreases k,
{
    if k > 0 {
        lemma_succ_upto_none(m, chi, d, transposition, k - 1);
        assert(succ_upto(m, chi, d, transposition, k) =~= Seq::<Config>::empty());
    }
}

/// A dead multistate's successor is dead again, with no base shift.
pub proof fn lemma_step_table_none(m: Seq<Option<u8>>, chi: u32, d: u8, transposition: bool)
    requires
        ms_wf(m, d),
        all_none(m),
    ensures
        all_none(step_table(m, chi, d, transposition)),
        step_table(m, chi, d, transposition).len() == m.len(),
        step_delta(m, chi, d, transposition) == 0,
{
    lemma_succ_upto_none(m, chi, d, transposition, m.len() as int);
}

proof fn lemma_entry_min_bound(s: Seq<Config>, shift: u8, k: int, j: int, d: u8)
    requires
        0 <= j <= s.len(),
        forall|i: int| 0 <= i < s.len() ==> (#[trigger] s[i]).dist <= d,
    ensures
        match entry_min_upto(s, shift, k, j) {
            Some(e) => e <= d,
            None => true,
        },
    decreases j,
{
    if j > 0 {
        lemma_entry_min_bound(s, shift, k, j - 1, d);
    }
}

/// All configurations stay within the window and the edit bound.
pub open spec fn cfgs_bounded(s: Seq<Config>, d: u8) -> bool {
    forall|i: int| 0 <= i < s.len() ==> (#[trigger] s[i]).dist <= d && s[i].offset <= 3 * d + 2
}

proof fn lemma_bounded_concat(a: Seq<Config>, b: Seq<Config>, d: u8)
    requires
        cfgs_bounded(a, d),
        cfgs_bounded(b, d),
    ensures
        cfgs_bounded(a + b, d),
{
    assert forall|i: int| 0 <= i < (a + b).len() implies (#[trigger] (a + b)[i]).dist <= d && (a
        + b)[i].offset <= 3 * d + 2 by {
        if i < a.len() {
            assert((a + b)[i] == a[i]);
        } else {
            assert((a + b)[i] == b[i - a.len()]);
        }
    }
}

proof fn lemma_entry_succ_bounds(off: u8, t: bool, e: u8, chi: u32, d: u8, transposition: bool)
    requires
        d <= 14,
        off <= 2 * d,
        e <= d,
    ensures
        cfgs_bounded(entry_succ(off, t, e, chi, d, transposition), d),
{
    let w = (2 * d + 1) as u8;
    if !t && e < d {
        lemma_jump_upto_bounds(off, e, chi, w, d - e + 1, d);
        let s0 = if bit_set(chi, off) {
            seq![Config { offset: (off + 1) as u8, dist: e, in_transpose: false }]
        } else {
            Seq::<Config>::empty()
        };
        let s1 = seq![
            Config { offset: off, dist: (e + 1) as u8, in_transpose: false },
            Config { offset: (off + 1) as u8, dist: (e + 1) as u8, in_transpose: false },
        ];
        let s2 = jump_upto(off, e, chi, w, d - e + 1);
        let s3 = if transposition && bit_set(chi, (off + 1) as u8) {
            seq![Config { offset: off, dist: (e + 1) as u8, in_transpose: true }]
        } else {
            Seq::<Config>::empty()
        };
        assert(cfgs_bounded(s0, d));
        assert(cfgs_bounded(s1, d));
        assert(cfgs_bounded(s3, d));
        lemma_bounded_concat(s1, s2, d);
        lemma_bounded_concat(s1 + s2, s3, d);
        lemma_bounded_concat(s0, s1 + s2 + s3, d);
        assert(entry_succ(off, t, e, chi, d, transposition) == s0 + (s1 + s2 + s3));
    } else {
        assert(cfgs_bounded(entry_succ(off, t, e, chi, d, transposition), d));
    }
}

/// Appends to `raw` the successors of the configuration `(off, e, t)` under
/// `chi`, in the order `entry_succ` lists them.
#[verifier::rlimit(50)]
fn push_entry_succ(
    raw: &mut Vec<Config>,
    off: u8,
    t: bool,
    e: u8,
    chi: u32,
    d: u8,
    transposition: bool,
)
    requires
        d <= 14,
        off <= 2 * d,
        e <= d,
        cfgs_bounded(old(raw)@, d),
    ensures
        final(raw)@ == old(raw)@ + entry_succ(off, t, e, chi, d, transposition),
        cfgs_bounded(final(raw)@, d),
{
    let ghost pre = raw@;
    let w: u8 = 2 * d + 1;
    if t {
        if (chi >> (off as u32)) & 1 == 1 {
            raw.push(Config { offset: off + 2, dist: e, in_transpose: false });
        }
    } else {
        if (chi >> (off as u32)) & 1 == 1 {
            raw.push(Config { offset: off + 1, dist: e, in_transpose: false });
        }
        if e < d {
            raw.push(Config { offset: off, dist: e + 1, in_transpose: false });
            raw.push(Config { offset: off + 1, dist: e + 1, in_transpose: false });
            let ghost prejump = raw@;
            let lmax: u8 = d - e + 1;
            let mut l: u8 = 2;
            while l <= lmax
                invariant
                    2 <= l <= lmax + 1,
                    lmax == d - e + 1,
                    e < d <= 14,
                    off <= 2 * d,
                    w == 2 * d + 1,
                    raw@ == prejump + jump_upto(off, e, chi, w, l - 1),
                decreases lmax + 1 - l,
            {
                if off + l - 1 < w && (chi >> ((off + l - 1) as u32)) & 1 == 1 {
                    raw.push(Config { offset: off + l, dist: e + l - 1, in_transpose: false });
                }
                proof {
                    assert(raw@ =~= prejump + jump_upto(off, e, chi, w, l as int));
                }
                l = l + 1;
            }
            if transposition && (chi >> ((off + 1) as u32)) & 1 == 1 {
                raw.push(Config { offset: off, dist: e + 1, in_transpose: true });
            }
        }
    }
    proof {
        assert(raw@ =~= pre + entry_succ(off, t, e, chi, d, transposition));
        lemma_entry_succ_bounds(off, t, e, chi, d, transposition);
        lemma_bounded_concat(pre, entry_succ(off, t, e, chi, d, transposition), d);
    }
}

proof fn lemma_jump_upto_bounds(off: u8, e: u8, chi: u32, w: u8, lmax: int, d: u8)
    requires
        d <= 14,
        off <= 2 * d,
        e < d,
        lmax <= d - e + 1,
    ensures
        cfgs_bounded(jump_upto(off, e, chi, w, lmax), d),
    decreases lmax,
{
    if lmax >= 2 {
        lemma_jump_upto_bounds(off, e, chi, w, lmax - 1, d);
        let seg = if off + lmax - 1 < w && bit_set(chi, (off + lmax - 1) as u8) {
            seq![
                Config {
                    offset: (off + lmax) as u8,
                    dist: (e + lmax - 1) as u8,
                    in_transpose: false,
                },
            ]
        } else {
            Seq::<Config>::empty()
        };
        assert(cfgs_bounded(seg, d));
        lemma_bounded_concat(jump_upto(off, e, chi, w, lmax - 1), seg, d);
    } else {
        assert(cfgs_bounded(jump_upto(off, e, chi, w, lmax), d));
    }
}

impl MultiState {
    /// The root multistate.
    pub fn initial(d: u8) -> (r: MultiState)
        requires
            d <= 14,
        ensures
            r.emin@ == init_table(d),
            ms_wf(r.emin@, d),
    {
        let w2: usize = 2 * (2 * (d as usize) + 1);
        let mut emin: Vec<Option<u8>> = Vec::new();
        emin.push(Some(0u8));
        let mut k: usize = 1;
        while k < w2
            invariant
                1 <= k <= w2,
                w2 == 2 * (2 * d + 1),
                emin@.len() == k,
                forall|j: int| 0 <= j < k ==> emin@[j] == init_table(d)[j],
            decreases w2 - k,
        {
            emin.push(None);
            k = k + 1;
        }
        proof {
            assert(emin@ =~= init_table(d));
        }
        MultiState { emin }
    }

    /// Computes the canonical successor multistate under the characteristic
    /// vector `chi`, and how far its base moved along the query.
    pub fn step(&self, chi: u32, d: u8, transposition: bool) -> (r: (MultiState, u8))
        requires
            ms_wf(self.emin@, d),
            d <= 14,
        ensures
            r.0.emin@ == step_table(self.emin@, chi, d, transposition),
            r.1 == step_delta(self.emin@, chi, d, transposition),
            ms_wf(r.0.emin@, d),
    {
        let w: u8 = 2 * d + 1;
        let mut raw: Vec<Config> = Vec::new();
        let mut k: usize = 0;
        while k < self.emin.len()
            invariant
                0 <= k <= self.emin@.len(),
                ms_wf(self.emin@, d),
                d <= 14,
                w == 2 * d + 1,
                raw@ == succ_upto(self.emin@, chi, d, transposition, k as int),
                cfgs_bounded(raw@, d),
            decreases self.emin@.len() - k,
        {
            let ghost pre = raw@;
            match self.emin[k] {
                None => {},
                Some(e) => {
                    let off: u8 = (k as u8) / 2;
                    let t: bool = k % 2 == 1;
                    proof {
                        assert(off == (k as int) / 2);
                        assert(off <= 2 * d);
                        assert(e <= d);
                    }
                    push_entry_succ(&mut raw, off, t, e, chi, d, transposition);
                },
            }
            proof {
                assert(raw@ =~= pre + entry_succ_at(self.emin@, k as int, chi, d, transposition));
                assert(raw@ =~= succ_upto(self.emin@, chi, d, transposition, k + 1));
            }
            k = k + 1;
        }
        proof {
            assert(raw@ == succ_all(self.emin@, chi, d, transposition));
        }
        // Rebase: the least successor offset becomes the new multistate base.
        let mut delta: u8 = 0;
        if raw.len() > 0 {
            delta = raw[0].offset;
            let mut j: usize = 1;
            while j < raw.len()
                invariant
                    1 <= j <= raw@.len(),
                    delta == min_off_upto(raw@, j as int),
                    forall|i: int| 0 <= i < j ==> (#[trigger] raw@[i]).offset >= delta,
                decreases raw@.len() - j,
            {
                if raw[j].offset < delta {
                    delta = raw[j].offset;
                }
                j = j + 1;
            }
        }
        proof {
            assert(delta == min_off(raw@));
            assert(forall|i: int| 0 <= i < raw@.len() ==> (#[trigger] raw@[i]).offset >= delta);
        }
        // Fill the canonical table, keeping the least edit count per cell.
        let w2: usize = 2 * (w as usize);
        let mut emin: Vec<Option<u8>> = Vec::new();
        let mut k2: usize = 0;
        while k2 < w2
            invariant
                0 <= k2 <= w2,
                emin@.len() == k2,
                forall|i: int| 0 <= i < k2 ==> emin@[i] == None::<u8>,
            decreases w2 - k2,
        {
            emin.push(None);
            k2 = k2 + 1;
        }
        let mut j: usize = 0;
        while j < raw.len()
            invariant
                0 <= j <= raw@.len(),
                emin@.len() == w2,
                w2 == 2 * (2 * d + 1),
                delta == min_off(raw@),
                cfgs_bounded(raw@, d),
                forall|i: int| 0 <= i < raw@.len() ==> (#[trigger] raw@[i]).offset >= delta,
                forall|c: int|
                    0 <= c < w2 ==> #[trigger] emin@[c] == entry_min_upto(
                        raw@,
                        delta,
                        c,
                        j as int,
                    ),
            decreases raw@.len() - j,
        {
            let cfg = raw[j];
            let cell: usize = 2 * ((cfg.offset - delta) as usize) + if cfg.in_transpose {
                1
            } else {
                0
            };
            proof {
                assert(cell == cell_of(cfg, delta));
            }
            if cell < w2 {
                let cur = emin[cell];
                let merged = match cur {
                    None => Some(cfg.dist),
                    Some(x) => if cfg.dist < x {
                        Some(cfg.dist)
                    } else {
                        Some(x)
                    },
                };
                emin.set(cell, merged);
            }
            j = j + 1;
        }
        proof {
            assert forall|c: int| 0 <= c < w2 implies match #[trigger] entry_min_upto(
                raw@,
                delta,
                c,
                raw@.len() as int,
            ) {
                Some(e) => e <= d,
                None => true,
            } by {
                lemma_entry_min_bound(raw@, delta, c, raw@.len() as int, d);
            }
            assert(emin@ =~= step_table(self.emin@, chi, d, transposition));
        }
        (MultiState { emin }, delta)
    }
}

} // verus!
