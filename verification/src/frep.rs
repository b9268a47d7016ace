//! Feature representation of the grid: for each cell, how many cells within
//! hex distance 4 use each channel, plus the count of eligible channels.
//! Freps can be built from scratch or derived incrementally for afterstates.

use vstd::prelude::*;
use crate::{Cell, spec_hex_distance, hex_distance};
use crate::gridfuncs::{Grid, spec_eligible, elig_seq_upto, grid_agree_except, grid_eq, is_eligible};
use crate::neighs::{Neighs, nbr_seq, lemma_nbr_seq_props, cell_pos};
use crate::eventgen::EType;

verus! {

/// Cell `(r, c)` lies within hex distance 4 of `(r0, c0)`, is not that cell,
/// and uses channel `ch`.
pub open spec fn is_used_neigh(g: Grid, r0: int, c0: int, ch: int, r: int, c: int) -> bool {
    !(r == r0 && c == c0) && spec_hex_distance(r0, c0, r, c) <= 4 && g.at(r, c, ch)
}

/// Among the first `k` cells in row-major order, how many lie within hex
/// distance 4 of `(r0, c0)`, are not that cell, and use channel `ch`.
pub open spec fn count_used_upto(g: Grid, r0: int, c0: int, ch: int, k: int) -> int
    decreases k,
{
    if k <= 0 {
        0
    } else {
        count_used_upto(g, r0, c0, ch, k - 1) + if is_used_neigh(
            g,
            r0,
            c0,
            ch,
            (k - 1) / 7,
            (k - 1) % 7,
        ) {
            1int
        } else {
            0int
        }
    }
}

/// The used-count feature: how many cells within hex distance 4 of
/// `(r0, c0)`, the cell itself excluded, use channel `ch`.
pub open spec fn spec_frep_used(g: Grid, r0: int, c0: int, ch: int) -> int {
    count_used_upto(g, r0, c0, ch, 49)
}

/// Number of eligible channels below `lim` at cell `(r, c)`.
pub open spec fn count_elig_upto(g: Grid, r: int, c: int, lim: int) -> int
    decreases lim,
{
    if lim <= 0 {
        0
    } else {
        count_elig_upto(g, r, c, lim - 1) + if spec_eligible(g, r, c, lim - 1) {
            1int
        } else {
            0int
        }
    }
}

/// The eligibility feature: the number of eligible channels at `(r, c)`.
pub open spec fn spec_n_elig(g: Grid, r: int, c: int) -> int {
    count_elig_upto(g, r, c, 70)
}

/// Entry `f` of the feature representation of cell `(r, c)`: the first 70
/// features are the used counts, the last the eligibility count.
pub open spec fn spec_frep_at(g: Grid, r: int, c: int, f: int) -> int {
    if f < 70 {
        spec_frep_used(g, r, c, f)
    } else {
        spec_n_elig(g, r, c)
    }
}

pub proof fn lemma_count_used_bounds(g: Grid, r0: int, c0: int, ch: int, k: int)
    requires
        k >= 0,
    ensures
        0 <= count_used_upto(g, r0, c0, ch, k) <= k,
    decreases k,
{
    if k > 0 {
        lemma_count_used_bounds(g, r0, c0, ch, k - 1);
    }
}

pub proof fn lemma_count_elig_bounds(g: Grid, r: int, c: int, lim: int)
    requires
        lim >= 0,
    ensures
        0 <= count_elig_upto(g, r, c, lim) <= lim,
    decreases lim,
{
    if lim > 0 {
        lemma_count_elig_bounds(g, r, c, lim - 1);
    }
}

/// A cell that has a used distance-4 neighbor has a positive used count.
pub proof fn lemma_count_used_lower(g: Grid, r0: int, c0: int, ch: int, r: int, c: int, k: int)
    requires
        0 <= r < 7,
        0 <= c < 7,
        is_used_neigh(g, r0, c0, ch, r, c),
        r * 7 + c < k,
        k <= 49,
    ensures
        count_used_upto(g, r0, c0, ch, k) >= 1,
    decreases k,
{
    lemma_count_used_bounds(g, r0, c0, ch, k - 1);
    if r * 7 + c == k - 1 {
        assert((r * 7 + c) / 7 == r && (r * 7 + c) % 7 == c) by (nonlinear_arith)
            requires
                0 <= r < 7,
                0 <= c < 7,
        ;
    } else {
        lemma_count_used_lower(g, r0, c0, ch, r, c, k - 1);
    }
}

/// A cell with an eligible channel has a positive eligibility count.
pub proof fn lemma_count_elig_lower(g: Grid, r: int, c: int, ch: int, lim: int)
    requires
        0 <= ch < lim <= 70,
        spec_eligible(g, r, c, ch),
    ensures
        count_elig_upto(g, r, c, lim) >= 1,
    decreases lim,
{
    lemma_count_elig_bounds(g, r, c, lim - 1);
    if ch < lim - 1 {
        lemma_count_elig_lower(g, r, c, ch, lim - 1);
    }
}

/// The eligibility-count feature equals the length of the list of eligible
/// channels that `get_eligible_chs` returns.
pub proof fn lemma_elig_count_is_len(g: Grid, r: int, c: int, lim: int)
    requires
        0 <= lim <= 70,
    ensures
        count_elig_upto(g, r, c, lim) == elig_seq_upto(g, r, c, lim).len(),
    decreases lim,
{
    if lim > 0 {
        lemma_elig_count_is_len(g, r, c, lim - 1);
    }
}

/// Channel `ch` would be eligible at cell `(r, c)` in the grid obtained
/// from `g` by clearing the entry of channel `ch` at cell `(tr, tc)`.
pub open spec fn spec_elig_cleared(g: Grid, tr: int, tc: int, ch: int, r: int, c: int) -> bool {
    forall|r2: int, c2: int|
        0 <= r2 < 7 && 0 <= c2 < 7 && spec_hex_distance(r, c, r2, c2) <= 2 ==> ((r2 == tr && c2
            == tc) || !#[trigger] g.at(r2, c2, ch))
}

/// The change that granting (`sgn == 1`) or releasing (`sgn == -1`) channel
/// `ch` in cell `(r0, c0)` makes to feature `f` of cell `(r, c)`: the used
/// count of `ch` moves by `sgn` at every distance-4 neighbor, and the
/// eligibility count moves by `-sgn` at every cell within distance 2 where
/// `ch` is eligible once the entry `(r0, c0, ch)` is clear.
pub open spec fn spec_frep_delta(
    g: Grid,
    r0: int,
    c0: int,
    ch: int,
    sgn: int,
    r: int,
    c: int,
    f: int,
) -> int {
    if f < 70 {
        if f == ch && !(r == r0 && c == c0) && spec_hex_distance(r0, c0, r, c) <= 4 {
            sgn
        } else {
            0
        }
    } else {
        if spec_hex_distance(r0, c0, r, c) <= 2 && spec_elig_cleared(g, r0, c0, ch, r, c) {
            -sgn
        } else {
            0
        }
    }
}

proof fn lemma_count_used_agree_except(
    g: Grid,
    g2: Grid,
    r0: int,
    c0: int,
    ch: int,
    fr: int,
    fc: int,
    fch: int,
    k: int,
)
    requires
        0 <= r0 < 7,
        0 <= c0 < 7,
        0 <= ch < 70,
        0 <= fch < 70,
        grid_agree_except(g, g2, r0, c0, ch),
        0 <= k <= 49,
    ensures
        count_used_upto(g2, fr, fc, fch, k) == count_used_upto(g, fr, fc, fch, k) + if fch == ch
            && r0 * 7 + c0 < k && !(r0 == fr && c0 == fc) && spec_hex_distance(fr, fc, r0, c0)
            <= 4 {
            (if g2.at(r0, c0, ch) {
                1int
            } else {
                0int
            }) - (if g.at(r0, c0, ch) {
                1int
            } else {
                0int
            })
        } else {
            0int
        },
    decreases k,
{
    if k > 0 {
        lemma_count_used_agree_except(g, g2, r0, c0, ch, fr, fc, fch, k - 1);
        let kr = (k - 1) / 7;
        let kc = (k - 1) % 7;
        assert(0 <= kr < 7 && 0 <= kc < 7 && kr * 7 + kc == k - 1) by (nonlinear_arith)
            requires
                0 < k <= 49,
                kr == (k - 1) / 7,
                kc == (k - 1) % 7,
        ;
        if kr == r0 && kc == c0 {
            assert(r0 * 7 + c0 == k - 1);
        } else {
            assert(g2.at(kr, kc, fch) == g.at(kr, kc, fch));
            if fch == ch && r0 * 7 + c0 == k - 1 {
                assert((r0 * 7 + c0) / 7 == r0 && (r0 * 7 + c0) % 7 == c0) by (nonlinear_arith)
                    requires
                        0 <= r0 < 7,
                        0 <= c0 < 7,
                ;
                assert(false);
            }
        }
    }
}

proof fn lemma_elig_agree_other_ch(
    g: Grid,
    g2: Grid,
    r0: int,
    c0: int,
    ch: int,
    r: int,
    c: int,
    x: int,
)
    requires
        0 <= x < 70,
        x != ch,
        grid_agree_except(g, g2, r0, c0, ch),
    ensures
        spec_eligible(g2, r, c, x) == spec_eligible(g, r, c, x),
{
    assert forall|r2: int, c2: int| 0 <= r2 < 7 && 0 <= c2 < 7 implies #[trigger] g2.at(r2, c2, x)
        == g.at(r2, c2, x) by {
        assert(!(r2 == r0 && c2 == c0 && x == ch));
    }
}

proof fn lemma_count_elig_agree_except(g: Grid, g2: Grid, r: int, c: int, ch: int, lim: int)
    requires
        0 <= lim <= 70,
        0 <= ch < 70,
        forall|x: int|
            0 <= x < 70 && x != ch ==> spec_eligible(g2, r, c, x) == spec_eligible(g, r, c, x),
    ensures
        count_elig_upto(g2, r, c, lim) == count_elig_upto(g, r, c, lim) + if ch < lim {
            (if spec_eligible(g2, r, c, ch) {
                1int
            } else {
                0int
            }) - (if spec_eligible(g, r, c, ch) {
                1int
            } else {
                0int
            })
        } else {
            0int
        },
    decreases lim,
{
    if lim > 0 {
        lemma_count_elig_agree_except(g, g2, r, c, ch, lim - 1);
    }
}

/// How granting or releasing one channel moves each feature: the feature
/// representation of the changed grid is the old one plus `spec_frep_delta`.
pub proof fn lemma_frep_delta_correct(
    g: Grid,
    g2: Grid,
    r0: int,
    c0: int,
    ch: int,
    val: bool,
    r: int,
    c: int,
    f: int,
)
    requires
        0 <= r0 < 7,
        0 <= c0 < 7,
        0 <= ch < 70,
        0 <= r < 7,
        0 <= c < 7,
        0 <= f < 71,
        g.at(r0, c0, ch) == !val,
        g2.at(r0, c0, ch) == val,
        grid_agree_except(g, g2, r0, c0, ch),
    ensures
        spec_frep_at(g2, r, c, f) == spec_frep_at(g, r, c, f) + spec_frep_delta(
            g,
            r0,
            c0,
            ch,
            if val {
                1int
            } else {
                -1int
            },
            r,
            c,
            f,
        ),
{
    let sgn: int = if val {
        1
    } else {
        -1
    };
    crate::gridfuncs::lemma_hex_sym(r, c, r0, c0);
    if f < 70 {
        lemma_count_used_agree_except(g, g2, r0, c0, ch, r, c, f, 49);
        assert(r0 * 7 + c0 < 49) by (nonlinear_arith)
            requires
                0 <= r0 < 7,
                0 <= c0 < 7,
        ;
    } else {
        assert forall|x: int|
            0 <= x < 70 && x != ch implies spec_eligible(g2, r, c, x) == spec_eligible(
            g,
            r,
            c,
            x,
        ) by {
            lemma_elig_agree_other_ch(g, g2, r0, c0, ch, r, c, x);
        }
        lemma_count_elig_agree_except(g, g2, r, c, ch, 70);
        if spec_hex_distance(r0, c0, r, c) <= 2 {
            // the changed entry lies in the eligibility neighborhood of (r, c)
            if val {
                assert(!spec_eligible(g2, r, c, ch));
                assert(spec_eligible(g, r, c, ch) == spec_elig_cleared(g, r0, c0, ch, r, c)) by {
                    if spec_elig_cleared(g, r0, c0, ch, r, c) {
                        assert forall|r2: int, c2: int|
                            0 <= r2 < 7 && 0 <= c2 < 7 && spec_hex_distance(r, c, r2, c2) <= 2
                                implies !#[trigger] g.at(r2, c2, ch) by {}
                    }
                }
            } else {
                assert(!spec_eligible(g, r, c, ch));
                assert(spec_eligible(g2, r, c, ch) == spec_elig_cleared(g, r0, c0, ch, r, c)) by {
                    if spec_elig_cleared(g, r0, c0, ch, r, c) {
                        assert forall|r2: int, c2: int|
                            0 <= r2 < 7 && 0 <= c2 < 7 && spec_hex_distance(r, c, r2, c2) <= 2
                                implies !#[trigger] g2.at(r2, c2, ch) by {
                            if !(r2 == r0 && c2 == c0) {
                                assert(g2.at(r2, c2, ch) == g.at(r2, c2, ch));
                            }
                        }
                    } else {
                        let (r2, c2) = choose|r2: int, c2: int|
                            0 <= r2 < 7 && 0 <= c2 < 7 && spec_hex_distance(r, c, r2, c2) <= 2
                                && !((r2 == r0 && c2 == c0) || !#[trigger] g.at(r2, c2, ch));
                        assert(g2.at(r2, c2, ch));
                        assert(!spec_eligible(g2, r, c, ch));
                    }
                }
            }
        } else {
            // the changed entry lies outside the eligibility neighborhood
            assert(spec_eligible(g2, r, c, ch) == spec_eligible(g, r, c, ch)) by {
                assert forall|r2: int, c2: int|
                    0 <= r2 < 7 && 0 <= c2 < 7 && spec_hex_distance(r, c, r2, c2) <= 2
                        implies #[trigger] g2.at(r2, c2, ch) == g.at(r2, c2, ch) by {
                    if r2 == r0 && c2 == c0 {
                        crate::gridfuncs::lemma_hex_sym(r, c, r2, c2);
                        assert(false);
                    }
                }
            }
            assert(!(spec_hex_distance(r0, c0, r, c) <= 2));
        }
    }
}

/// The feature representation: a 7 x 7 x 71 tensor of non-negative counts.
pub struct Frep {
    pub v: Vec<Vec<Vec<u32>>>,
}

impl Frep {
    /// The tensor has shape 7 x 7 x 71.
    pub open spec fn wf(self) -> bool {
        &&& self.v@.len() == 7
        &&& forall|r: int, c: int|
            0 <= r < 7 && 0 <= c < 7 ==> (#[trigger] self.v@[r]@[c])@.len() == 71
        &&& forall|r: int| 0 <= r < 7 ==> (#[trigger] self.v@[r])@.len() == 7
    }

    /// Feature `f` of cell `(r, c)`.
    pub open spec fn at(self, r: int, c: int, f: int) -> int {
        self.v@[r]@[c]@[f] as int
    }

    /// The frep agrees with `feature_rep` of the grid at every entry.
    pub open spec fn matches_grid(self, g: Grid) -> bool {
        forall|r: int, c: int, f: int|
            0 <= r < 7 && 0 <= c < 7 && 0 <= f < 71 ==> #[trigger] self.at(r, c, f)
                == spec_frep_at(g, r, c, f)
    }

    /// Read one feature.
    pub fn get(&self, r: usize, c: usize, f: usize) -> (x: u32)
        requires
            self.wf(),
            r < 7,
            c < 7,
            f < 71,
        ensures
            x == self.at(r as int, c as int, f as int),
    {
        self.v[r][c][f]
    }

    /// Write one feature; every other entry is unchanged.
    pub fn set(&mut self, r: usize, c: usize, f: usize, x: u32)
        requires
            old(self).wf(),
            r < 7,
            c < 7,
            f < 71,
        ensures
            final(self).wf(),
            final(self).at(r as int, c as int, f as int) == x,
            forall|i: int, j: int, k: int|
                0 <= i < 7 && 0 <= j < 7 && 0 <= k < 71 && !(i == r && j == c && k == f)
                    ==> #[trigger] final(self).at(i, j, k) == old(self).at(i, j, k),
    {
        self.v[r][c][f] = x;
    }

    /// A deep copy of the tensor.
    pub fn copy(&self) -> (f: Frep)
        requires
            self.wf(),
        ensures
            f.wf(),
            frep_eq(*self, f),
    {
        let mut v: Vec<Vec<Vec<u32>>> = Vec::new();
        for r in 0..7usize
            invariant
                self.wf(),
                v@.len() == r,
                forall|i: int, j: int|
                    0 <= i < r && 0 <= j < 7 ==> (#[trigger] v@[i]@[j])@.len() == 71,
                forall|i: int| 0 <= i < r ==> (#[trigger] v@[i])@.len() == 7,
                forall|i: int, j: int, k: int|
                    0 <= i < r && 0 <= j < 7 && 0 <= k < 71
                        ==> #[trigger] v@[i]@[j]@[k] as int == self.at(i, j, k),
        {
            let mut row: Vec<Vec<u32>> = Vec::new();
            for c in 0..7usize
                invariant
                    self.wf(),
                    r < 7,
                    row@.len() == c,
                    forall|j: int| 0 <= j < c ==> (#[trigger] row@[j])@.len() == 71,
                    forall|j: int, k: int|
                        0 <= j < c && 0 <= k < 71
                            ==> #[trigger] row@[j]@[k] as int == self.at(r as int, j, k),
            {
                let mut fs: Vec<u32> = Vec::new();
                for f in 0..71usize
                    invariant
                        self.wf(),
                        r < 7,
                        c < 7,
                        fs@.len() == f,
                        forall|k: int|
                            0 <= k < f
                                ==> #[trigger] fs@[k] as int == self.at(r as int, c as int, k),
                {
                    fs.push(self.v[r][c][f]);
                }
                row.push(fs);
            }
            v.push(row);
        }
        Frep { v }
    }
}

/// Two freps hold the same value at every entry.
pub open spec fn frep_eq(f1: Frep, f2: Frep) -> bool {
    forall|r: int, c: int, f: int|
        0 <= r < 7 && 0 <= c < 7 && 0 <= f < 71 ==> #[trigger] f1.at(r, c, f) == f2.at(r, c, f)
}

/// The used count of channel `ch` at cell `(r0, c0)`, by scanning the grid.
fn used_count(g: &Grid, r0: usize, c0: usize, ch: usize) -> (n: u32)
    requires
        g.wf(),
        r0 < 7,
        c0 < 7,
        ch < 70,
    ensures
        n == spec_frep_used(*g, r0 as int, c0 as int, ch as int),
        n <= 49,
{
    let mut n: u32 = 0;
    for r in 0..7usize
        invariant
            g.wf(),
            r0 < 7,
            c0 < 7,
            ch < 70,
            n == count_used_upto(*g, r0 as int, c0 as int, ch as int, 7 * r),
            n <= 7 * r,
    {
        for c in 0..7usize
            invariant
                g.wf(),
                r0 < 7,
                c0 < 7,
                ch < 70,
                r < 7,
                n == count_used_upto(*g, r0 as int, c0 as int, ch as int, 7 * r + c),
                n <= 7 * r + c,
        {
            proof {
                assert((7 * r + c) / 7 == r as int && (7 * r + c) % 7 == c as int)
                    by (nonlinear_arith)
                    requires
                        r < 7,
                        c < 7,
                ;
            }
            if !(r == r0 && c == c0) {
                let d = hex_distance(r0 as i8, c0 as i8, r as i8, c as i8);
                if d <= 4 && g.get(r, c, ch) {
                    n = n + 1;
                }
            }
        }
    }
    n
}

/// The number of eligible channels at cell `(r, c)`.
fn count_eligible(g: &Grid, r: usize, c: usize) -> (n: u32)
    requires
        g.wf(),
        r < 7,
        c < 7,
    ensures
        n == spec_n_elig(*g, r as int, c as int),
        n <= 70,
{
    let mut n: u32 = 0;
    for ch in 0..70usize
        invariant
            g.wf(),
            r < 7,
            c < 7,
            n == count_elig_upto(*g, r as int, c as int, ch as int),
            n <= ch,
    {
        if crate::gridfuncs::is_eligible(g, r, c, ch) {
            n = n + 1;
        }
    }
    n
}

/// Build the feature representation of a grid from scratch: for each cell,
/// the channel-use counts over its distance-4 neighborhood, the cell itself
/// excluded, and the count of its eligible channels.
pub fn feature_rep(grid: &Grid) -> (frep: Frep)
    requires
        grid.wf(),
    ensures
        frep.wf(),
        frep.matches_grid(*grid),
{
    let mut v: Vec<Vec<Vec<u32>>> = Vec::new();
    for r in 0..7usize
        invariant
            grid.wf(),
            v@.len() == r,
            forall|i: int, j: int|
                0 <= i < r && 0 <= j < 7 ==> (#[trigger] v@[i]@[j])@.len() == 71,
            forall|i: int| 0 <= i < r ==> (#[trigger] v@[i])@.len() == 7,
            forall|i: int, j: int, k: int|
                0 <= i < r && 0 <= j < 7 && 0 <= k < 71
                    ==> #[trigger] v@[i]@[j]@[k] as int == spec_frep_at(*grid, i, j, k),
    {
        let mut row: Vec<Vec<u32>> = Vec::new();
        for c in 0..7usize
            invariant
                grid.wf(),
                r < 7,
                row@.len() == c,
                forall|j: int| 0 <= j < c ==> (#[trigger] row@[j])@.len() == 71,
                forall|j: int, k: int|
                    0 <= j < c && 0 <= k < 71
                        ==> #[trigger] row@[j]@[k] as int == spec_frep_at(*grid, r as int, j, k),
        {
            let mut fs: Vec<u32> = Vec::new();
            for f in 0..70usize
                invariant
                    grid.wf(),
                    r < 7,
                    c < 7,
                    fs@.len() == f,
                    forall|k: int|
                        0 <= k < f
                            ==> #[trigger] fs@[k] as int == spec_frep_at(*grid, r as int, c as int, k),
            {
                fs.push(used_count(grid, r, c, f));
            }
            fs.push(count_eligible(grid, r, c));
            row.push(fs);
        }
        v.push(row);
    }
    Frep { v }
}

/// The cell with row-major coordinates `(r, c)`.
pub open spec fn cell_at(r: int, c: int) -> Cell {
    Cell { row: r as usize, col: c as usize }
}

/// Channel `z` occurs in the batch `chs`.
pub open spec fn in_batch(chs: Seq<usize>, z: int) -> bool {
    exists|j: int| 0 <= j < chs.len() && #[trigger] chs[j] as int == z
}

/// What the used-count features gain after the updates for a prefix `pre`
/// of the distance-4 neighborhood have been applied.
spec fn used_prefix_delta(pre: Seq<Cell>, ch: int, sgn: int, x: int, y: int, z: int) -> int {
    if z == ch && pre.contains(cell_at(x, y)) {
        sgn
    } else {
        0
    }
}

/// What the eligibility feature gains after the updates for a prefix `pre`
/// of the distance-2 neighborhood have been applied.
spec fn elig_prefix_delta(
    g0: Grid,
    r1: int,
    c1: int,
    ch: int,
    sgn: int,
    pre: Seq<Cell>,
    x: int,
    y: int,
    z: int,
) -> int {
    if z == 70 && pre.contains(cell_at(x, y)) && spec_elig_cleared(g0, r1, c1, ch, x, y) {
        -sgn
    } else {
        0
    }
}


proof fn lemma_elig_mid_equiv(
    g0: Grid,
    gmid: Grid,
    chs: Seq<usize>,
    r1: int,
    c1: int,
    ch: int,
    end: bool,
    ar: int,
    ac: int,
)
    requires
        0 <= r1 < 7,
        0 <= c1 < 7,
        0 <= ch < 70,
        0 <= ar < 7,
        0 <= ac < 7,
        in_batch(chs, ch),
        g0.at(r1, c1, ch) == end,
        forall|x: int, y: int, z: int|
            0 <= x < 7 && 0 <= y < 7 && 0 <= z < 70 && !(x == r1 && y == c1 && end && in_batch(
                chs,
                z,
            )) ==> #[trigger] gmid.at(x, y, z) == g0.at(x, y, z),
        end ==> !gmid.at(r1, c1, ch),
    ensures
        spec_eligible(gmid, ar, ac, ch) == spec_elig_cleared(g0, r1, c1, ch, ar, ac),
{
    assert forall|r2: int, c2: int| 0 <= r2 < 7 && 0 <= c2 < 7 implies #[trigger] gmid.at(
        r2,
        c2,
        ch,
    ) == (if r2 == r1 && c2 == c1 && end {
        false
    } else {
        g0.at(r2, c2, ch)
    }) by {
        if !(r2 == r1 && c2 == c1 && end) {
            assert(gmid.at(r2, c2, ch) == g0.at(r2, c2, ch));
        }
    }
    if spec_eligible(gmid, ar, ac, ch) {
        assert forall|r2: int, c2: int|
            0 <= r2 < 7 && 0 <= c2 < 7 && spec_hex_distance(ar, ac, r2, c2) <= 2 implies ((r2
            == r1 && c2 == c1) || !#[trigger] g0.at(r2, c2, ch)) by {
            assert(!gmid.at(r2, c2, ch));
        }
    }
    if spec_elig_cleared(g0, r1, c1, ch, ar, ac) {
        assert forall|r2: int, c2: int|
            0 <= r2 < 7 && 0 <= c2 < 7 && spec_hex_distance(ar, ac, r2, c2) <= 2
            implies !#[trigger] gmid.at(r2, c2, ch) by {
            if !(r2 == r1 && c2 == c1) {
                assert(!g0.at(r2, c2, ch));
            }
        }
    }
}

/// Given a grid, its feature representation, and a set of actions specified
/// by a cell, an event type and a list of channels, derive the feature
/// representation of each afterstate: for channel `chs[i]`, the frep of the
/// grid with that channel released at the cell (END) or granted there
/// (NEW/HOFF). The grid is mutated only temporarily and is restored exactly
/// before returning.
#[verifier::rlimit(60)]
pub fn incremental_freps(
    neighs: &Neighs,
    grid: &mut Grid,
    frep: &Frep,
    cell: &Cell,
    etype: &EType,
    chs: &Vec<usize>,
) -> (freps: Vec<Frep>)
    requires
        neighs.wf(),
        old(grid).wf(),
        frep.wf(),
        frep.matches_grid(*old(grid)),
        cell.valid(),
        forall|i: int| 0 <= i < chs@.len() ==> (#[trigger] chs@[i]) < 70,
        forall|i: int|
            0 <= i < chs@.len() ==> old(grid).at(cell.row as int, cell.col as int, #[trigger] chs@[i] as int)
                == (*etype == EType::END),
    ensures
        final(grid).wf(),
        grid_eq(*old(grid), *final(grid)),
        freps@.len() == chs@.len(),
        forall|i: int| 0 <= i < chs@.len() ==> (#[trigger] freps@[i]).wf(),
        forall|i: int, r: int, c: int, f: int|
            0 <= i < chs@.len() && 0 <= r < 7 && 0 <= c < 7 && 0 <= f < 71
                ==> #[trigger] freps@[i].at(r, c, f) == frep.at(r, c, f) + spec_frep_delta(
                *old(grid),
                cell.row as int,
                cell.col as int,
                chs@[i] as int,
                if *etype == EType::END {
                    -1int
                } else {
                    1int
                },
                r,
                c,
                f,
            ),
{
    let r1 = cell.row;
    let c1 = cell.col;
    let neighs4 = neighs.neighbors(4, r1, c1, false);
    let neighs2 = neighs.neighbors(2, r1, c1, true);
    let end: bool = *etype == EType::END;
    let ghost sgn: int = if end {
        -1
    } else {
        1
    };
    let ghost g0 = *grid;
    let n = chs.len();
    if end {
        for i in 0..n
            invariant
                n == chs@.len(),
                r1 < 7,
                c1 < 7,
                forall|j: int| 0 <= j < chs@.len() ==> (#[trigger] chs@[j]) < 70,
                grid.wf(),
                forall|x: int, y: int, z: int|
                    0 <= x < 7 && 0 <= y < 7 && 0 <= z < 70 && !(x == r1 && y == c1
                        && in_batch(chs@, z)) ==> #[trigger] grid.at(x, y, z) == g0.at(
                        x,
                        y,
                        z,
                    ),
                forall|j: int|
                    0 <= j < i ==> !grid.at(r1 as int, c1 as int, #[trigger] chs@[j] as int),
        {
            let ch = chs[i];
            let ghost gprev = *grid;
            proof {
                assert(chs@[i as int] as int == ch as int);
                assert(in_batch(chs@, ch as int));
            }
            grid.set(r1, c1, ch, false);
            proof {
                assert forall|x: int, y: int, z: int|
                    0 <= x < 7 && 0 <= y < 7 && 0 <= z < 70 && !(x == r1 && y == c1 && in_batch(
                        chs@,
                        z,
                    )) implies #[trigger] grid.at(x, y, z) == g0.at(x, y, z) by {
                    assert(!(x == r1 as int && y == c1 as int && z == ch as int));
                    assert(gprev.at(x, y, z) == grid.at(x, y, z));
                    assert(gprev.at(x, y, z) == g0.at(x, y, z));
                }
            }
        }
    }
    let ghost gmid = *grid;
    proof {
        // in the working grid, a batch channel is clear at the focal cell
        // and every other entry agrees with the input grid
        if !end {
            assert(grid_eq(g0, gmid));
        }
    }
    let mut freps: Vec<Frep> = Vec::new();
    for i in 0..n
        invariant
            n == chs@.len(),
            neighs4@ == nbr_seq(4, r1 as int, c1 as int),
            neighs2@ == seq![Cell { row: r1, col: c1 }] + nbr_seq(2, r1 as int, c1 as int),
            r1 < 7,
            c1 < 7,
            sgn == if end {
                -1int
            } else {
                1int
            },
            forall|j: int| 0 <= j < chs@.len() ==> (#[trigger] chs@[j]) < 70,
            forall|j: int|
                0 <= j < chs@.len() ==> g0.at(r1 as int, c1 as int, #[trigger] chs@[j] as int)
                    == end,
            g0.wf(),
            frep.wf(),
            frep.matches_grid(g0),
            *grid == gmid,
            gmid.wf(),
            forall|x: int, y: int, z: int|
                0 <= x < 7 && 0 <= y < 7 && 0 <= z < 70 && !(x == r1 && y == c1 && end
                    && in_batch(chs@, z)) ==> #[trigger] gmid.at(x, y, z) == g0.at(
                    x,
                    y,
                    z,
                ),
            end ==> forall|j: int|
                0 <= j < chs@.len() ==> !gmid.at(r1 as int, c1 as int, #[trigger] chs@[j] as int),
            freps@.len() == i,
            forall|j: int| 0 <= j < i ==> (#[trigger] freps@[j]).wf(),
            forall|j: int, r: int, c: int, f: int|
                0 <= j < i && 0 <= r < 7 && 0 <= c < 7 && 0 <= f < 71
                    ==> #[trigger] freps@[j].at(r, c, f) == frep.at(r, c, f) + spec_frep_delta(
                    g0,
                    r1 as int,
                    c1 as int,
                    chs@[j] as int,
                    sgn,
                    r,
                    c,
                    f,
                ),
    {
        let ch = chs[i];
        proof {
            assert(chs@[i as int] as int == ch as int);
            assert(in_batch(chs@, ch as int));
        }
        let mut f = frep.copy();
        let m4 = neighs4.len();
        for j in 0..m4
            invariant
                m4 == neighs4@.len(),
                neighs4@ == nbr_seq(4, r1 as int, c1 as int),
                r1 < 7,
                c1 < 7,
                ch < 70,
                sgn == if end {
                    -1int
                } else {
                    1int
                },
                g0.wf(),
                frep.wf(),
                frep.matches_grid(g0),
                end ==> g0.at(r1 as int, c1 as int, ch as int),
                f.wf(),
                forall|x: int, y: int, z: int|
                    0 <= x < 7 && 0 <= y < 7 && 0 <= z < 71 ==> #[trigger] f.at(x, y, z)
                        == frep.at(x, y, z) + used_prefix_delta(
                        neighs4@.subrange(0, j as int),
                        ch as int,
                        sgn,
                        x,
                        y,
                        z,
                    ),
        {
            let nb = neighs4[j];
            proof {
                lemma_nbr_seq_props(4, r1 as int, c1 as int, 49);
                let pre = neighs4@.subrange(0, j as int);
                // the current neighbor has not been updated yet
                assert(!pre.contains(nb)) by {
                    if pre.contains(nb) {
                        let jj = choose|jj: int| 0 <= jj < pre.len() && pre[jj] == nb;
                        assert(cell_pos(neighs4@[jj]) < cell_pos(neighs4@[j as int]));
                    }
                }
                assert(cell_at(nb.row as int, nb.col as int) == nb);
                assert(f.at(nb.row as int, nb.col as int, ch as int) == frep.at(
                    nb.row as int,
                    nb.col as int,
                    ch as int,
                ));
                lemma_count_used_bounds(g0, nb.row as int, nb.col as int, ch as int, 49);
                if end {
                    crate::gridfuncs::lemma_hex_sym(r1 as int, c1 as int, nb.row as int,
                        nb.col as int);
                    lemma_count_used_lower(g0, nb.row as int, nb.col as int, ch as int,
                        r1 as int, c1 as int, 49);
                }
            }
            let cur = f.get(nb.row, nb.col, ch);
            let upd = if end {
                cur - 1
            } else {
                cur + 1
            };
            f.set(nb.row, nb.col, ch, upd);
            proof {
                assert(neighs4@.subrange(0, j + 1) =~= neighs4@.subrange(0, j as int).push(nb));
                assert forall|x: int, y: int, z: int|
                    0 <= x < 7 && 0 <= y < 7 && 0 <= z < 71 implies #[trigger] f.at(x, y, z)
                    == frep.at(x, y, z) + used_prefix_delta(
                    neighs4@.subrange(0, j + 1),
                    ch as int,
                    sgn,
                    x,
                    y,
                    z,
                ) by {
                    let pre = neighs4@.subrange(0, j as int);
                    let cur_pre = neighs4@.subrange(0, j + 1);
                    if cell_at(x, y) == nb {
                        assert(x == nb.row as int && y == nb.col as int);
                        assert(cur_pre[j as int] == cell_at(x, y));
                        assert(cur_pre.contains(cell_at(x, y)));
                    } else {
                        assert(cur_pre.contains(cell_at(x, y)) == pre.contains(cell_at(x, y)))
                            by {
                            if cur_pre.contains(cell_at(x, y)) {
                                let jj = choose|jj: int|
                                    0 <= jj < cur_pre.len() && cur_pre[jj] == cell_at(x, y);
                                assert(jj < pre.len());
                                assert(pre[jj] == cell_at(x, y));
                            } else if pre.contains(cell_at(x, y)) {
                                let jj = choose|jj: int|
                                    0 <= jj < pre.len() && pre[jj] == cell_at(x, y);
                                assert(cur_pre[jj] == cell_at(x, y));
                            }
                        }
                    }
                }
            }
        }
        proof {
            assert(neighs4@.subrange(0, m4 as int) =~= neighs4@);
        }
        let m2 = neighs2.len();
        for j in 0..m2
            invariant
                m2 == neighs2@.len(),
                neighs4@ == nbr_seq(4, r1 as int, c1 as int),
                neighs2@ == seq![Cell { row: r1, col: c1 }] + nbr_seq(2, r1 as int, c1 as int),
                r1 < 7,
                c1 < 7,
                ch < 70,
                sgn == if end {
                    -1int
                } else {
                    1int
                },
                g0.wf(),
                frep.wf(),
                frep.matches_grid(g0),
                g0.at(r1 as int, c1 as int, ch as int) == end,
                in_batch(chs@, ch as int),
                *grid == gmid,
                gmid.wf(),
                forall|x: int, y: int, z: int|
                    0 <= x < 7 && 0 <= y < 7 && 0 <= z < 70 && !(x == r1 && y == c1 && end
                        && in_batch(chs@, z)) ==> #[trigger] gmid.at(x, y, z) == g0.at(
                        x,
                        y,
                        z,
                    ),
                end ==> !gmid.at(r1 as int, c1 as int, ch as int),
                f.wf(),
                forall|x: int, y: int, z: int|
                    0 <= x < 7 && 0 <= y < 7 && 0 <= z < 71 ==> #[trigger] f.at(x, y, z)
                        == frep.at(x, y, z) + used_prefix_delta(neighs4@, ch as int, sgn, x, y, z)
                        + elig_prefix_delta(
                        g0,
                        r1 as int,
                        c1 as int,
                        ch as int,
                        sgn,
                        neighs2@.subrange(0, j as int),
                        x,
                        y,
                        z,
                    ),
        {
            let a = neighs2[j];
            proof {
                lemma_nbr_seq_props(2, r1 as int, c1 as int, 49);
                assert(a.valid()) by {
                    if j > 0 {
                        assert(neighs2@[j as int] == nbr_seq(2, r1 as int, c1 as int)[j - 1]);
                    }
                }
            }
            let e = is_eligible(grid, a.row, a.col, ch);
            proof {
                // eligibility in the working grid is eligibility in the input
                // grid with the focal entry of this channel cleared
                lemma_elig_mid_equiv(g0, gmid, chs@, r1 as int, c1 as int, ch as int, end,
                    a.row as int, a.col as int);
            }
            if e {
                proof {
                    let pre = neighs2@.subrange(0, j as int);
                    assert(!pre.contains(a)) by {
                        if pre.contains(a) {
                            let jj = choose|jj: int| 0 <= jj < pre.len() && pre[jj] == a;
                            if jj == 0 && j > 0 {
                                // the focal cell occurs only at position 0
                                assert(neighs2@[j as int] == nbr_seq(
                                    2,
                                    r1 as int,
                                    c1 as int,
                                )[j - 1]);
                            } else if jj > 0 {
                                assert(cell_pos(nbr_seq(2, r1 as int, c1 as int)[jj - 1])
                                    < cell_pos(nbr_seq(2, r1 as int, c1 as int)[j - 1]));
                            }
                        }
                    }
                    assert(cell_at(a.row as int, a.col as int) == a);
                    assert(f.at(a.row as int, a.col as int, 70) == frep.at(
                        a.row as int,
                        a.col as int,
                        70,
                    ));
                    lemma_count_elig_bounds(g0, a.row as int, a.col as int, 70);
                    if !end {
                        // the channel was eligible before the grant, so the
                        // eligibility count is positive
                        assert(spec_eligible(g0, a.row as int, a.col as int, ch as int));
                        lemma_count_elig_lower(g0, a.row as int, a.col as int, ch as int, 70);
                    }
                }
                let cur = f.get(a.row, a.col, 70);
                let upd = if end {
                    cur + 1
                } else {
                    cur - 1
                };
                f.set(a.row, a.col, 70, upd);
            }
            proof {
                let pre = neighs2@.subrange(0, j as int);
                let cur_pre = neighs2@.subrange(0, j + 1);
                assert(cur_pre =~= pre.push(a));
                assert forall|x: int, y: int, z: int|
                    0 <= x < 7 && 0 <= y < 7 && 0 <= z < 71 implies #[trigger] f.at(x, y, z)
                    == frep.at(x, y, z) + used_prefix_delta(neighs4@, ch as int, sgn, x, y, z)
                    + elig_prefix_delta(
                    g0,
                    r1 as int,
                    c1 as int,
                    ch as int,
                    sgn,
                    cur_pre,
                    x,
                    y,
                    z,
                ) by {
                    if cell_at(x, y) == a {
                        assert(x == a.row as int && y == a.col as int);
                        assert(cur_pre[j as int] == cell_at(x, y));
                        assert(cur_pre.contains(cell_at(x, y)));
                    } else {
                        assert(cur_pre.contains(cell_at(x, y)) == pre.contains(cell_at(x, y)))
                            by {
                            if cur_pre.contains(cell_at(x, y)) {
                                let jj = choose|jj: int|
                                    0 <= jj < cur_pre.len() && cur_pre[jj] == cell_at(x, y);
                                assert(jj < pre.len());
                                assert(pre[jj] == cell_at(x, y));
                            } else if pre.contains(cell_at(x, y)) {
                                let jj = choose|jj: int|
                                    0 <= jj < pre.len() && pre[jj] == cell_at(x, y);
                                assert(cur_pre[jj] == cell_at(x, y));
                            }
                        }
                    }
                }
            }
        }
        proof {
            // convert the neighborhood-membership form of the updates into
            // the distance form of the delta
            lemma_nbr_seq_props(4, r1 as int, c1 as int, 49);
            lemma_nbr_seq_props(2, r1 as int, c1 as int, 49);
            assert(neighs2@.subrange(0, m2 as int) =~= neighs2@);
            assert forall|x: int, y: int, z: int|
                0 <= x < 7 && 0 <= y < 7 && 0 <= z < 71 implies #[trigger] f.at(x, y, z)
                == frep.at(x, y, z) + spec_frep_delta(
                g0,
                r1 as int,
                c1 as int,
                ch as int,
                sgn,
                x,
                y,
                z,
            ) by {
                let xy = cell_at(x, y);
                assert(xy.row as int == x && xy.col as int == y);
                assert(xy.valid());
                if z < 70 {
                    assert(neighs4@.contains(xy) <==> (!(x == r1 as int && y == c1 as int)
                        && spec_hex_distance(r1 as int, c1 as int, x, y) <= 4)) by {
                        if !(x == r1 as int && y == c1 as int) && spec_hex_distance(
                            r1 as int,
                            c1 as int,
                            x,
                            y,
                        ) <= 4 {
                            assert(cell_pos(xy) < 49);
                            assert(nbr_seq(4, r1 as int, c1 as int).contains(xy));
                        }
                    }
                } else {
                    assert(neighs2@.contains(xy) <==> spec_hex_distance(
                        r1 as int,
                        c1 as int,
                        x,
                        y,
                    ) <= 2) by {
                        if spec_hex_distance(r1 as int, c1 as int, x, y) <= 2 {
                            if x == r1 as int && y == c1 as int {
                                assert(neighs2@[0] == xy);
                            } else {
                                assert(cell_pos(xy) < 49);
                                assert(nbr_seq(2, r1 as int, c1 as int).contains(xy));
                                let jj = choose|jj: int|
                                    0 <= jj < nbr_seq(2, r1 as int, c1 as int).len() && nbr_seq(
                                        2,
                                        r1 as int,
                                        c1 as int,
                                    )[jj] == xy;
                                assert(neighs2@[jj + 1] == xy);
                            }
                        } else {
                            if neighs2@.contains(xy) {
                                let jj = choose|jj: int|
                                    0 <= jj < neighs2@.len() && neighs2@[jj] == xy;
                                if jj == 0 {
                                    assert(spec_hex_distance(r1 as int, c1 as int, x, y) == 0);
                                } else {
                                    assert(nbr_seq(2, r1 as int, c1 as int)[jj - 1] == xy);
                                }
                            }
                        }
                    }
                }
            }
        }
        freps.push(f);
    }
    if end {
        let ghost gpre = *grid;
        for i in 0..n
            invariant
                n == chs@.len(),
                r1 < 7,
                c1 < 7,
                forall|j: int| 0 <= j < chs@.len() ==> (#[trigger] chs@[j]) < 70,
                forall|j: int|
                    0 <= j < chs@.len() ==> g0.at(r1 as int, c1 as int, #[trigger] chs@[j] as int),
                g0.wf(),
                grid.wf(),
                forall|x: int, y: int, z: int|
                    0 <= x < 7 && 0 <= y < 7 && 0 <= z < 70 && !(x == r1 && y == c1
                        && in_batch(chs@, z)) ==> #[trigger] grid.at(x, y, z) == g0.at(
                        x,
                        y,
                        z,
                    ),
                forall|j: int|
                    0 <= j < i ==> grid.at(r1 as int, c1 as int, #[trigger] chs@[j] as int),
        {
            let ch = chs[i];
            let ghost gprev = *grid;
            proof {
                assert(chs@[i as int] as int == ch as int);
                assert(in_batch(chs@, ch as int));
            }
            grid.set(r1, c1, ch, true);
            proof {
                assert forall|x: int, y: int, z: int|
                    0 <= x < 7 && 0 <= y < 7 && 0 <= z < 70 && !(x == r1 && y == c1 && in_batch(
                        chs@,
                        z,
                    )) implies #[trigger] grid.at(x, y, z) == g0.at(x, y, z) by {
                    assert(!(x == r1 as int && y == c1 as int && z == ch as int));
                    assert(gprev.at(x, y, z) == grid.at(x, y, z));
                    assert(gprev.at(x, y, z) == g0.at(x, y, z));
                }
            }
        }
        proof {
            assert forall|x: int, y: int, z: int|
                0 <= x < 7 && 0 <= y < 7 && 0 <= z < 70 implies #[trigger] g0.at(x, y, z)
                == grid.at(x, y, z) by {
                if x == r1 as int && y == c1 as int && in_batch(chs@, z) {
                    let jj = choose|jj: int| 0 <= jj < chs@.len() && chs@[jj] as int == z;
                    assert(grid.at(r1 as int, c1 as int, chs@[jj] as int));
                    assert(g0.at(r1 as int, c1 as int, chs@[jj] as int));
                }
            }
        }
    }
    freps
}

/// Grids with the same occupancy everywhere have the same used counts.
proof fn lemma_count_used_congruence(g1: Grid, g2: Grid, r0: int, c0: int, ch: int, k: int)
    requires
        grid_eq(g1, g2),
        0 <= ch < 70,
        0 <= k <= 49,
    ensures
        count_used_upto(g1, r0, c0, ch, k) == count_used_upto(g2, r0, c0, ch, k),
    decreases k,
{
    if k > 0 {
        lemma_count_used_congruence(g1, g2, r0, c0, ch, k - 1);
        let kr = (k - 1) / 7;
        let kc = (k - 1) % 7;
        assert(0 <= kr < 7 && 0 <= kc < 7) by (nonlinear_arith)
            requires
                0 < k <= 49,
                kr == (k - 1) / 7,
                kc == (k - 1) % 7,
        ;
        assert(g1.at(kr, kc, ch) == g2.at(kr, kc, ch));
    }
}

/// Grids with the same occupancy everywhere have the same eligibility.
proof fn lemma_elig_congruence(g1: Grid, g2: Grid, r: int, c: int, ch: int)
    requires
        grid_eq(g1, g2),
        0 <= ch < 70,
    ensures
        spec_eligible(g1, r, c, ch) == spec_eligible(g2, r, c, ch),
{
    if spec_eligible(g1, r, c, ch) {
        assert forall|r2: int, c2: int|
            0 <= r2 < 7 && 0 <= c2 < 7 && spec_hex_distance(r, c, r2, c2) <= 2
            implies !#[trigger] g2.at(r2, c2, ch) by {
            assert(!g1.at(r2, c2, ch));
        }
    }
    if spec_eligible(g2, r, c, ch) {
        assert forall|r2: int, c2: int|
            0 <= r2 < 7 && 0 <= c2 < 7 && spec_hex_distance(r, c, r2, c2) <= 2
            implies !#[trigger] g1.at(r2, c2, ch) by {
            assert(!g2.at(r2, c2, ch));
        }
    }
}

proof fn lemma_count_elig_congruence(g1: Grid, g2: Grid, r: int, c: int, lim: int)
    requires
        grid_eq(g1, g2),
        0 <= lim <= 70,
    ensures
        count_elig_upto(g1, r, c, lim) == count_elig_upto(g2, r, c, lim),
    decreases lim,
{
    if lim > 0 {
        lemma_count_elig_congruence(g1, g2, r, c, lim - 1);
        lemma_elig_congruence(g1, g2, r, c, lim - 1);
    }
}

/// Grids with the same occupancy everywhere have the same feature
/// representation.
pub proof fn lemma_frep_congruence(g1: Grid, g2: Grid)
    requires
        grid_eq(g1, g2),
    ensures
        forall|r: int, c: int, f: int|
            0 <= r < 7 && 0 <= c < 7 && 0 <= f < 71 ==> #[trigger] spec_frep_at(g1, r, c, f)
                == spec_frep_at(g2, r, c, f),
{
    assert forall|r: int, c: int, f: int|
        0 <= r < 7 && 0 <= c < 7 && 0 <= f < 71 implies #[trigger] spec_frep_at(g1, r, c, f)
        == spec_frep_at(g2, r, c, f) by {
        if f < 70 {
            lemma_count_used_congruence(g1, g2, r, c, f, 49);
        } else {
            lemma_count_elig_congruence(g1, g2, r, c, 70);
        }
    }
}

/// Deriving a feature representation incrementally agrees with building it
/// from scratch on the afterstate: if `f1` is the frep of `g`, the
/// afterstate `g2` releases (`end`) or grants (`!end`) channel `ch` in cell
/// `(r0, c0)`, and `f2` is `f1` moved by the incremental delta, then `f2`
/// is the frep of `g2`.
pub proof fn lemma_incremental_matches_afterstate(
    g: Grid,
    g2: Grid,
    r0: int,
    c0: int,
    ch: int,
    end: bool,
    f1: Frep,
    f2: Frep,
)
    requires
        0 <= r0 < 7,
        0 <= c0 < 7,
        0 <= ch < 70,
        f1.matches_grid(g),
        g.at(r0, c0, ch) == end,
        g2.at(r0, c0, ch) == !end,
        grid_agree_except(g, g2, r0, c0, ch),
        forall|r: int, c: int, f: int|
            0 <= r < 7 && 0 <= c < 7 && 0 <= f < 71 ==> #[trigger] f2.at(r, c, f) == f1.at(r, c, f)
                + spec_frep_delta(
                g,
                r0,
                c0,
                ch,
                if end {
                    -1int
                } else {
                    1int
                },
                r,
                c,
                f,
            ),
    ensures
        f2.matches_grid(g2),
{
    assert forall|r: int, c: int, f: int|
        0 <= r < 7 && 0 <= c < 7 && 0 <= f < 71 implies #[trigger] f2.at(r, c, f) == spec_frep_at(
        g2,
        r,
        c,
        f,
    ) by {
        lemma_frep_delta_correct(g, g2, r0, c0, ch, !end, r, c, f);
    }
}

/// Granting a free channel and then releasing it restores the feature
/// representation exactly, as it restores the grid.
pub proof fn lemma_new_then_end_restores_frep(
    g1: Grid,
    g2: Grid,
    g3: Grid,
    r: int,
    c: int,
    ch: int,
)
    requires
        0 <= r < 7,
        0 <= c < 7,
        0 <= ch < 70,
        !g1.at(r, c, ch),
        grid_agree_except(g1, g2, r, c, ch),
        g2.at(r, c, ch),
        grid_agree_except(g2, g3, r, c, ch),
        !g3.at(r, c, ch),
    ensures
        grid_eq(g1, g3),
        forall|r2: int, c2: int, f: int|
            0 <= r2 < 7 && 0 <= c2 < 7 && 0 <= f < 71 ==> #[trigger] spec_frep_at(g1, r2, c2, f)
                == spec_frep_at(g3, r2, c2, f),
{
    crate::gridfuncs::lemma_new_then_end_restores(g1, g2, g3, r, c, ch);
    lemma_frep_congruence(g1, g3);
}

} // verus!
