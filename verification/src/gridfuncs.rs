//! The channel-occupancy grid: a 7x7x70 boolean tensor under the spatial
//! reuse constraint, with eligibility computation and afterstate generation.

use vstd::prelude::*;
use crate::{Cell, spec_hex_distance, hex_distance, ROWS, COLS, CHANNELS};
use crate::eventgen::EType;

verus! {

/// The occupancy tensor: `at(r, c, ch)` is true when channel `ch` is in use
/// in cell `(r, c)`.
pub struct Grid {
    pub v: Vec<Vec<Vec<bool>>>,
}

impl Grid {
    /// The tensor has shape 7 x 7 x 70.
    pub open spec fn wf(self) -> bool {
        &&& self.v@.len() == 7
        &&& forall|r: int, c: int|
            0 <= r < 7 && 0 <= c < 7 ==> (#[trigger] self.v@[r]@[c])@.len() == 70
        &&& forall|r: int| 0 <= r < 7 ==> (#[trigger] self.v@[r])@.len() == 7
    }

    /// Occupancy of channel `ch` in cell `(r, c)`.
    pub open spec fn at(self, r: int, c: int, ch: int) -> bool {
        self.v@[r]@[c]@[ch]
    }

    /// An all-false grid: no channel is in use anywhere.
    pub fn new() -> (g: Grid)
        ensures
            g.wf(),
            forall|r: int, c: int, ch: int|
                0 <= r < 7 && 0 <= c < 7 && 0 <= ch < 70 ==> !g.at(r, c, ch),
    {
        let mut v: Vec<Vec<Vec<bool>>> = Vec::new();
        for r in 0..7usize
            invariant
                v@.len() == r,
                forall|i: int, j: int|
                    0 <= i < r && 0 <= j < 7 ==> (#[trigger] v@[i]@[j])@.len() == 70,
                forall|i: int| 0 <= i < r ==> (#[trigger] v@[i])@.len() == 7,
                forall|i: int, j: int, k: int|
                    0 <= i < r && 0 <= j < 7 && 0 <= k < 70 ==> !(#[trigger] v@[i]@[j]@[k]),
        {
            let mut row: Vec<Vec<bool>> = Vec::new();
            for c in 0..7usize
                invariant
                    row@.len() == c,
                    forall|j: int| 0 <= j < c ==> (#[trigger] row@[j])@.len() == 70,
                    forall|j: int, k: int|
                        0 <= j < c && 0 <= k < 70 ==> !(#[trigger] row@[j]@[k]),
            {
                let mut chs: Vec<bool> = Vec::new();
                for ch in 0..70usize
                    invariant
                        chs@.len() == ch,
                        forall|k: int| 0 <= k < ch ==> !(#[trigger] chs@[k]),
                {
                    chs.push(false);
                }
                row.push(chs);
            }
            v.push(row);
        }
        Grid { v }
    }

    /// Read one entry of the tensor.
    pub fn get(&self, r: usize, c: usize, ch: usize) -> (b: bool)
        requires
            self.wf(),
            r < 7,
            c < 7,
            ch < 70,
        ensures
            b == self.at(r as int, c as int, ch as int),
    {
        self.v[r][c][ch]
    }

    /// Write one entry of the tensor; every other entry is unchanged.
    pub fn set(&mut self, r: usize, c: usize, ch: usize, val: bool)
        requires
            old(self).wf(),
            r < 7,
            c < 7,
            ch < 70,
        ensures
            final(self).wf(),
            final(self).at(r as int, c as int, ch as int) == val,
            grid_agree_except(*old(self), *final(self), r as int, c as int, ch as int),
    {
        self.v[r][c][ch] = val;
    }

    /// A deep copy of the tensor.
    pub fn copy(&self) -> (g: Grid)
        requires
            self.wf(),
        ensures
            g.wf(),
            grid_eq(*self, g),
    {
        let mut v: Vec<Vec<Vec<bool>>> = Vec::new();
        for r in 0..7usize
            invariant
                self.wf(),
                v@.len() == r,
                forall|i: int, j: int|
                    0 <= i < r && 0 <= j < 7 ==> (#[trigger] v@[i]@[j])@.len() == 70,
                forall|i: int| 0 <= i < r ==> (#[trigger] v@[i])@.len() == 7,
                forall|i: int, j: int, k: int|
                    0 <= i < r && 0 <= j < 7 && 0 <= k < 70
                        ==> #[trigger] v@[i]@[j]@[k] == self.at(i, j, k),
        {
            let mut row: Vec<Vec<bool>> = Vec::new();
            for c in 0..7usize
                invariant
                    self.wf(),
                    r < 7,
                    row@.len() == c,
                    forall|j: int| 0 <= j < c ==> (#[trigger] row@[j])@.len() == 70,
                    forall|j: int, k: int|
                        0 <= j < c && 0 <= k < 70
                            ==> #[trigger] row@[j]@[k] == self.at(r as int, j, k),
            {
                let mut chs: Vec<bool> = Vec::new();
                for ch in 0..70usize
                    invariant
                        self.wf(),
                        r < 7,
                        c < 7,
                        chs@.len() == ch,
                        forall|k: int|
                            0 <= k < ch
                                ==> #[trigger] chs@[k] == self.at(r as int, c as int, k),
                {
                    chs.push(self.v[r][c][ch]);
                }
                row.push(chs);
            }
            v.push(row);
        }
        Grid { v }
    }
}

/// Two grids hold the same occupancy everywhere.
pub open spec fn grid_eq(g1: Grid, g2: Grid) -> bool {
    forall|r: int, c: int, ch: int|
        0 <= r < 7 && 0 <= c < 7 && 0 <= ch < 70 ==> #[trigger] g1.at(r, c, ch) == g2.at(
            r,
            c,
            ch,
        )
}

/// Two grids hold the same occupancy everywhere but possibly at one entry.
pub open spec fn grid_agree_except(g1: Grid, g2: Grid, r: int, c: int, ch: int) -> bool {
    forall|i: int, j: int, k: int|
        0 <= i < 7 && 0 <= j < 7 && 0 <= k < 70 && !(i == r && j == c && k == ch)
            ==> #[trigger] g1.at(i, j, k) == g2.at(i, j, k)
}

/// Some cell other than `(r, c)` within hex distance 2 of it uses channel `ch`.
pub open spec fn spec_inuse_neigh(g: Grid, r: int, c: int, ch: int) -> bool {
    exists|r2: int, c2: int|
        0 <= r2 < 7 && 0 <= c2 < 7 && !(r2 == r && c2 == c)
            && spec_hex_distance(r, c, r2, c2) <= 2 && #[trigger] g.at(r2, c2, ch)
}

/// Channel `ch` is eligible in cell `(r, c)`: free there and at every cell
/// within hex distance 2 (the cell itself included, at distance 0).
pub open spec fn spec_eligible(g: Grid, r: int, c: int, ch: int) -> bool {
    forall|r2: int, c2: int|
        0 <= r2 < 7 && 0 <= c2 < 7 && spec_hex_distance(r, c, r2, c2) <= 2
            ==> !#[trigger] g.at(r2, c2, ch)
}

/// The reuse constraint: a channel in use in a cell is in use in no other
/// cell within hex distance 2.
pub open spec fn spec_reuse_ok(g: Grid) -> bool {
    forall|r: int, c: int, ch: int|
        0 <= r < 7 && 0 <= c < 7 && 0 <= ch < 70 && #[trigger] g.at(r, c, ch)
            ==> !spec_inuse_neigh(g, r, c, ch)
}

/// Whether some cell other than `(r, c)` within hex distance 2 uses `ch`.
pub fn has_inuse_neigh(g: &Grid, r: usize, c: usize, ch: usize) -> (b: bool)
    requires
        g.wf(),
        r < 7,
        c < 7,
        ch < 70,
    ensures
        b == spec_inuse_neigh(*g, r as int, c as int, ch as int),
{
    let mut found = false;
    for r2 in 0..7usize
        invariant
            g.wf(),
            r < 7,
            c < 7,
            ch < 70,
            found == exists|i: int, j: int|
                0 <= i < r2 && 0 <= j < 7 && !(i == r && j == c)
                    && spec_hex_distance(r as int, c as int, i, j) <= 2
                    && #[trigger] g.at(i, j, ch as int),
    {
        for c2 in 0..7usize
            invariant
                g.wf(),
                r < 7,
                c < 7,
                ch < 70,
                r2 < 7,
                found == exists|i: int, j: int|
                    (0 <= i < r2 || (i == r2 && 0 <= j < c2)) && 0 <= j < 7
                        && !(i == r && j == c)
                        && spec_hex_distance(r as int, c as int, i, j) <= 2
                        && #[trigger] g.at(i, j, ch as int),
        {
            if !(r2 == r && c2 == c) {
                let d = hex_distance(r as i8, c as i8, r2 as i8, c2 as i8);
                if d <= 2 && g.get(r2, c2, ch) {
                    found = true;
                }
            }
        }
    }
    found
}

/// Whether channel `ch` is eligible in cell `(r, c)`.
pub fn is_eligible(g: &Grid, r: usize, c: usize, ch: usize) -> (b: bool)
    requires
        g.wf(),
        r < 7,
        c < 7,
        ch < 70,
    ensures
        b == spec_eligible(*g, r as int, c as int, ch as int),
{
    let here = g.get(r, c, ch);
    let near = has_inuse_neigh(g, r, c, ch);
    proof {
        lemma_eligible_iff(*g, r as int, c as int, ch as int);
    }
    !here && !near
}

/// Number of channels below `ch` in use in cell `(r, c)`.
pub open spec fn cell_used_upto(g: Grid, r: int, c: int, ch: int) -> int
    decreases ch,
{
    if ch <= 0 {
        0
    } else {
        cell_used_upto(g, r, c, ch - 1) + if g.at(r, c, ch - 1) {
            1int
        } else {
            0int
        }
    }
}

/// Number of channels in use over the first `k` cells in row-major order.
pub open spec fn n_used_upto(g: Grid, k: int) -> int
    decreases k,
{
    if k <= 0 {
        0
    } else {
        n_used_upto(g, k - 1) + cell_used_upto(g, (k - 1) / 7, (k - 1) % 7, 70)
    }
}

/// Number of channels in use on the whole grid.
pub open spec fn spec_n_used(g: Grid) -> int {
    n_used_upto(g, 49)
}

proof fn lemma_cell_used_upto_bound(g: Grid, r: int, c: int, ch: int)
    requires
        ch >= 0,
    ensures
        0 <= cell_used_upto(g, r, c, ch) <= ch,
    decreases ch,
{
    if ch > 0 {
        lemma_cell_used_upto_bound(g, r, c, ch - 1);
    }
}

proof fn lemma_n_used_upto_bound(g: Grid, k: int)
    requires
        k >= 0,
    ensures
        0 <= n_used_upto(g, k) <= 70 * k,
    decreases k,
{
    if k > 0 {
        lemma_n_used_upto_bound(g, k - 1);
        lemma_cell_used_upto_bound(g, (k - 1) / 7, (k - 1) % 7, 70);
    }
}

proof fn lemma_rc_index(r: int, c: int)
    requires
        0 <= r < 7,
        0 <= c < 7,
    ensures
        (7 * r + c) / 7 == r,
        (7 * r + c) % 7 == c,
{
    assert((7 * r + c) / 7 == r && (7 * r + c) % 7 == c) by (nonlinear_arith)
        requires
            0 <= r < 7,
            0 <= c < 7,
    ;
}

/// Number of channels in use on the whole grid, the per-step reward.
pub fn n_used(grid: &Grid) -> (n: usize)
    requires
        grid.wf(),
    ensures
        n == spec_n_used(*grid),
        n <= 3430,
{
    let mut n: usize = 0;
    for r in 0..7usize
        invariant
            grid.wf(),
            n == n_used_upto(*grid, 7 * r),
    {
        for c in 0..7usize
            invariant
                grid.wf(),
                r < 7,
                n == n_used_upto(*grid, 7 * r + c),
        {
            for ch in 0..70usize
                invariant
                    grid.wf(),
                    r < 7,
                    c < 7,
                    n == n_used_upto(*grid, 7 * r + c) + cell_used_upto(
                        *grid,
                        r as int,
                        c as int,
                        ch as int,
                    ),
            {
                proof {
                    lemma_n_used_upto_bound(*grid, 7 * r + c);
                    lemma_cell_used_upto_bound(*grid, r as int, c as int, ch as int);
                    assert(70 * (7 * r + c) <= 70 * 48) by (nonlinear_arith)
                        requires
                            r < 7,
                            c < 7,
                    ;
                }
                if grid.get(r, c, ch) {
                    n = n + 1;
                }
            }
            proof {
                lemma_rc_index(r as int, c as int);
                assert(n_used_upto(*grid, 7 * r + c + 1) == n_used_upto(*grid, 7 * r + c)
                    + cell_used_upto(*grid, r as int, c as int, 70));
            }
        }
    }
    proof {
        lemma_n_used_upto_bound(*grid, 49);
    }
    n
}

/// The sequence of eligible channels below `ch` in ascending order.
pub open spec fn elig_seq_upto(g: Grid, r: int, c: int, ch: int) -> Seq<usize>
    decreases ch,
{
    if ch <= 0 {
        Seq::empty()
    } else {
        let pre = elig_seq_upto(g, r, c, ch - 1);
        if spec_eligible(g, r, c, ch - 1) {
            pre.push((ch - 1) as usize)
        } else {
            pre
        }
    }
}

/// The sequence of in-use channels below `ch` at cell `(r, c)`, ascending.
pub open spec fn inuse_seq_upto(g: Grid, r: int, c: int, ch: int) -> Seq<usize>
    decreases ch,
{
    if ch <= 0 {
        Seq::empty()
    } else {
        let pre = inuse_seq_upto(g, r, c, ch - 1);
        if g.at(r, c, ch - 1) {
            pre.push((ch - 1) as usize)
        } else {
            pre
        }
    }
}

/// Every element of `elig_seq_upto` is an eligible channel below the limit,
/// each eligible channel occurs, and the sequence is strictly ascending.
pub proof fn lemma_elig_seq_props(g: Grid, r: int, c: int, ch: int)
    requires
        0 <= ch <= 70,
    ensures
        forall|i: int|
            0 <= i < elig_seq_upto(g, r, c, ch).len()
                ==> (#[trigger] elig_seq_upto(g, r, c, ch)[i]) < ch
                    && spec_eligible(g, r, c, elig_seq_upto(g, r, c, ch)[i] as int),
        forall|x: int|
            0 <= x < ch && spec_eligible(g, r, c, x)
                ==> elig_seq_upto(g, r, c, ch).contains(x as usize),
        forall|i: int, j: int|
            0 <= i < j < elig_seq_upto(g, r, c, ch).len()
                ==> elig_seq_upto(g, r, c, ch)[i] < elig_seq_upto(g, r, c, ch)[j],
        elig_seq_upto(g, r, c, ch).len() <= ch,
    decreases ch,
{
    if ch > 0 {
        lemma_elig_seq_props(g, r, c, ch - 1);
        let pre = elig_seq_upto(g, r, c, ch - 1);
        let cur = elig_seq_upto(g, r, c, ch);
        assert forall|x: int|
            0 <= x < ch && spec_eligible(g, r, c, x) implies cur.contains(x as usize) by {
            if x < ch - 1 {
                assert(pre.contains(x as usize));
                let i = choose|i: int| 0 <= i < pre.len() && pre[i] == x as usize;
                assert(cur[i] == x as usize);
            } else {
                assert(cur[cur.len() - 1] == x as usize);
            }
        }
    }
}

/// Return the in-use channels at the cell, in ascending order.
pub fn get_inuse_chs(grid: &Grid, cell: &Cell) -> (chs: Vec<usize>)
    requires
        grid.wf(),
        cell.valid(),
    ensures
        chs@ == inuse_seq_upto(*grid, cell.row as int, cell.col as int, 70),
{
    let mut chs: Vec<usize> = Vec::new();
    for ch in 0..70usize
        invariant
            grid.wf(),
            cell.valid(),
            chs@ == inuse_seq_upto(*grid, cell.row as int, cell.col as int, ch as int),
    {
        if grid.get(cell.row, cell.col, ch) {
            chs.push(ch);
        }
    }
    chs
}

/// Return the eligible channels for the given cell, in ascending order.
/// A channel is eligible if it is free at the cell and all of its neighbors
/// within hex distance 2.
pub fn get_eligible_chs(grid: &Grid, cell: &Cell) -> (chs: Vec<usize>)
    requires
        grid.wf(),
        cell.valid(),
    ensures
        chs@ == elig_seq_upto(*grid, cell.row as int, cell.col as int, 70),
{
    let mut chs: Vec<usize> = Vec::new();
    for ch in 0..70usize
        invariant
            grid.wf(),
            cell.valid(),
            chs@ == elig_seq_upto(*grid, cell.row as int, cell.col as int, ch as int),
    {
        if is_eligible(grid, cell.row, cell.col, ch) {
            chs.push(ch);
        }
    }
    chs
}

/// One-hot map over the channels: entry `ch` says whether `ch` is eligible
/// at the cell.
pub fn eligible_map(grid: &Grid, cell: &Cell) -> (m: Vec<bool>)
    requires
        grid.wf(),
        cell.valid(),
    ensures
        m@.len() == 70,
        forall|ch: int|
            0 <= ch < 70 ==> m@[ch] == spec_eligible(*grid, cell.row as int, cell.col as int, ch),
{
    let mut m: Vec<bool> = Vec::new();
    for ch in 0..70usize
        invariant
            grid.wf(),
            cell.valid(),
            m@.len() == ch,
            forall|k: int|
                0 <= k < ch ==> m@[k] == spec_eligible(
                    *grid,
                    cell.row as int,
                    cell.col as int,
                    k,
                ),
    {
        let b = is_eligible(grid, cell.row, cell.col, ch);
        m.push(b);
    }
    m
}

/// One-hot map of the channels in use at some cell within hex distance 2 of
/// `cell`, the cell itself excluded.
pub fn inuse_neighs(grid: &Grid, cell: &Cell) -> (m: Vec<bool>)
    requires
        grid.wf(),
        cell.valid(),
    ensures
        m@.len() == 70,
        forall|ch: int|
            0 <= ch < 70 ==> m@[ch] == spec_inuse_neigh(
                *grid,
                cell.row as int,
                cell.col as int,
                ch,
            ),
{
    let mut m: Vec<bool> = Vec::new();
    for ch in 0..70usize
        invariant
            grid.wf(),
            cell.valid(),
            m@.len() == ch,
            forall|k: int|
                0 <= k < ch ==> m@[k] == spec_inuse_neigh(
                    *grid,
                    cell.row as int,
                    cell.col as int,
                    k,
                ),
    {
        let b = has_inuse_neigh(grid, cell.row, cell.col, ch);
        m.push(b);
    }
    m
}

/// Given a grid and a set of actions, the latter specified by a cell, an
/// event type and a list of channels, return the grids (afterstates) that
/// would result from executing each of the actions: for channel `chs[i]`,
/// a copy of the grid with the cell's entry for that channel cleared on an
/// END and set otherwise.
pub fn afterstates(grid: &Grid, cell: &Cell, etype: &EType, chs: &Vec<usize>) -> (grids: Vec<
    Grid,
>)
    requires
        grid.wf(),
        cell.valid(),
        forall|i: int| 0 <= i < chs@.len() ==> (#[trigger] chs@[i]) < 70,
    ensures
        grids@.len() == chs@.len(),
        forall|i: int|
            0 <= i < chs@.len() ==> (#[trigger] grids@[i]).wf() && grids@[i].at(
                cell.row as int,
                cell.col as int,
                chs@[i] as int,
            ) == (*etype != EType::END) && grid_agree_except(
                *grid,
                grids@[i],
                cell.row as int,
                cell.col as int,
                chs@[i] as int,
            ),
{
    let targ_val = match etype {
        EType::END => false,
        _ => true,
    };
    let mut grids: Vec<Grid> = Vec::new();
    let n = chs.len();
    for i in 0..n
        invariant
            grid.wf(),
            cell.valid(),
            n == chs@.len(),
            targ_val == (*etype != EType::END),
            forall|j: int| 0 <= j < chs@.len() ==> (#[trigger] chs@[j]) < 70,
            grids@.len() == i,
            forall|j: int|
                0 <= j < i ==> (#[trigger] grids@[j]).wf() && grids@[j].at(
                    cell.row as int,
                    cell.col as int,
                    chs@[j] as int,
                ) == targ_val && grid_agree_except(
                    *grid,
                    grids@[j],
                    cell.row as int,
                    cell.col as int,
                    chs@[j] as int,
                ),
    {
        let mut g = grid.copy();
        let ghost pre = g;
        g.set(cell.row, cell.col, chs[i], targ_val);
        proof {
            assert forall|x: int, y: int, z: int|
                0 <= x < 7 && 0 <= y < 7 && 0 <= z < 70 && !(x == cell.row as int && y
                    == cell.col as int && z == chs@[i as int] as int)
                    implies #[trigger] grid.at(x, y, z) == g.at(x, y, z) by {
                assert(grid.at(x, y, z) == pre.at(x, y, z));
                assert(pre.at(x, y, z) == g.at(x, y, z));
            }
        }
        grids.push(g);
    }
    grids
}

/// Some channel is in use at `cell` and at another cell within the reuse
/// distance of it.
pub open spec fn spec_violation_at(g: Grid, cell: Cell) -> bool {
    cell.valid() && exists|ch: int|
        0 <= ch < 70 && #[trigger] g.at(cell.row as int, cell.col as int, ch) && spec_inuse_neigh(
            g,
            cell.row as int,
            cell.col as int,
            ch,
        )
}

/// Returns `Ok` exactly when the reuse constraint holds; on a violation,
/// the offending cell that comes first in row-major order.
pub fn validate_reuse_constraint(grid: &Grid) -> (res: Result<(), Cell>)
    requires
        grid.wf(),
    ensures
        res is Ok <==> spec_reuse_ok(*grid),
        res matches Err(cell) ==> spec_violation_at(*grid, cell),
        // the reported cell is the first offender in row-major order
        res matches Err(cell) ==> forall|i: int, j: int|
            0 <= i < 7 && 0 <= j < 7 && i * 7 + j < cell.row * 7 + cell.col
                ==> !#[trigger] spec_violation_at(
                *grid,
                (Cell { row: i as usize, col: j as usize }),
            ),
{
    for r in 0..7usize
        invariant
            grid.wf(),
            forall|i: int, j: int, ch: int|
                0 <= i < r && 0 <= j < 7 && 0 <= ch < 70 && #[trigger] grid.at(i, j, ch)
                    ==> !spec_inuse_neigh(*grid, i, j, ch),
    {
        for c in 0..7usize
            invariant
                grid.wf(),
                r < 7,
                forall|i: int, j: int, ch: int|
                    0 <= i < r && 0 <= j < 7 && 0 <= ch < 70 && #[trigger] grid.at(i, j, ch)
                        ==> !spec_inuse_neigh(*grid, i, j, ch),
                forall|j: int, ch: int|
                    0 <= j < c && 0 <= ch < 70 && #[trigger] grid.at(r as int, j, ch)
                        ==> !spec_inuse_neigh(*grid, r as int, j, ch),
        {
            for ch in 0..70usize
                invariant
                    grid.wf(),
                    r < 7,
                    c < 7,
                    forall|i: int, j: int, k: int|
                        0 <= i < r && 0 <= j < 7 && 0 <= k < 70 && #[trigger] grid.at(i, j, k)
                            ==> !spec_inuse_neigh(*grid, i, j, k),
                    forall|j: int, k: int|
                        0 <= j < c && 0 <= k < 70 && #[trigger] grid.at(r as int, j, k)
                            ==> !spec_inuse_neigh(*grid, r as int, j, k),
                    forall|k: int|
                        0 <= k < ch && #[trigger] grid.at(r as int, c as int, k)
                            ==> !spec_inuse_neigh(*grid, r as int, c as int, k),
            {
                if grid.get(r, c, ch) && has_inuse_neigh(grid, r, c, ch) {
                    let cell = Cell { row: r, col: c };
                    proof {
                        assert(grid.at(cell.row as int, cell.col as int, ch as int));
                        assert(spec_inuse_neigh(*grid, cell.row as int, cell.col as int,
                            ch as int));
                        assert(spec_violation_at(*grid, cell));
                        // every row-major-earlier cell is violation-free
                        assert forall|i: int, j: int|
                            0 <= i < 7 && 0 <= j < 7 && i * 7 + j < cell.row * 7 + cell.col
                                implies !#[trigger] spec_violation_at(
                            *grid,
                            (Cell { row: i as usize, col: j as usize }),
                        ) by {
                            let early = Cell { row: i as usize, col: j as usize };
                            assert(i < r || (i == r && j < c));
                            if spec_violation_at(*grid, early) {
                                let k = choose|k: int|
                                    0 <= k < 70 && #[trigger] grid.at(
                                        early.row as int,
                                        early.col as int,
                                        k,
                                    ) && spec_inuse_neigh(
                                        *grid,
                                        early.row as int,
                                        early.col as int,
                                        k,
                                    );
                                assert(!spec_inuse_neigh(*grid, i, j, k));
                            }
                        }
                    }
                    return Err(cell);
                }
            }
        }
    }
    Ok(())
}

/// Return `Some` of the first index holding the maximum of the sequence,
/// with that maximum; `None` exactly when the sequence is empty.
pub fn argpmax1(arr: &Vec<i64>) -> (res: Option<(usize, i64)>)
    ensures
        res is None <==> arr@.len() == 0,
        res matches Some((idx, m)) ==> idx < arr@.len() && m == arr@[idx as int] && (forall|
            i: int,
        |
            0 <= i < arr@.len() ==> arr@[i] <= m) && (forall|i: int| 0 <= i < idx ==> arr@[i] < m),
{
    if arr.len() == 0 {
        return None;
    }
    let mut idx: usize = 0;
    let mut m: i64 = arr[0];
    for i in 1..arr.len()
        invariant
            arr@.len() > 0,
            idx < i,
            m == arr@[idx as int],
            forall|j: int| 0 <= j < i ==> arr@[j] <= m,
            forall|j: int| 0 <= j < idx ==> arr@[j] < m,
    {
        if arr[i] > m {
            idx = i;
            m = arr[i];
        }
    }
    Some((idx, m))
}

/// Hex distance is symmetric in its two cells.
pub proof fn lemma_hex_sym(r1: int, c1: int, r2: int, c2: int)
    ensures
        spec_hex_distance(r1, c1, r2, c2) == spec_hex_distance(r2, c2, r1, c1),
{
}

/// Granting an eligible channel preserves the reuse constraint.
pub proof fn lemma_set_eligible_preserves_reuse(g1: Grid, g2: Grid, r: int, c: int, ch: int)
    requires
        0 <= r < 7,
        0 <= c < 7,
        0 <= ch < 70,
        spec_reuse_ok(g1),
        spec_eligible(g1, r, c, ch),
        grid_agree_except(g1, g2, r, c, ch),
    ensures
        spec_reuse_ok(g2),
{
    assert forall|i: int, j: int, k: int|
        0 <= i < 7 && 0 <= j < 7 && 0 <= k < 70 && #[trigger] g2.at(i, j, k)
            implies !spec_inuse_neigh(g2, i, j, k) by {
        assert forall|i2: int, j2: int|
            0 <= i2 < 7 && 0 <= j2 < 7 && !(i2 == i && j2 == j) && spec_hex_distance(i, j, i2, j2)
                <= 2 implies !#[trigger] g2.at(i2, j2, k) by {
            lemma_hex_sym(i, j, i2, j2);
            if i == r && j == c && k == ch {
                // the other endpoint lies within reuse distance of (r, c)
                assert(!g1.at(i2, j2, k));
            } else if i2 == r && j2 == c && k == ch {
                // (i, j) lies within reuse distance of (r, c), so it was free
                assert(spec_hex_distance(r, c, i, j) <= 2);
                assert(!g1.at(i, j, k));
                assert(!g2.at(i, j, k));
            } else {
                // both entries carry over from g1, where reuse held
                assert(g1.at(i, j, k));
                if g2.at(i2, j2, k) {
                    assert(g1.at(i2, j2, k));
                    assert(spec_inuse_neigh(g1, i, j, k));
                }
            }
        }
    }
}

/// Releasing a channel preserves the reuse constraint.
pub proof fn lemma_clear_preserves_reuse(g1: Grid, g2: Grid, r: int, c: int, ch: int)
    requires
        0 <= r < 7,
        0 <= c < 7,
        0 <= ch < 70,
        spec_reuse_ok(g1),
        grid_agree_except(g1, g2, r, c, ch),
        !g2.at(r, c, ch),
    ensures
        spec_reuse_ok(g2),
{
    assert forall|i: int, j: int, k: int|
        0 <= i < 7 && 0 <= j < 7 && 0 <= k < 70 && #[trigger] g2.at(i, j, k)
            implies !spec_inuse_neigh(g2, i, j, k) by {
        assert(g1.at(i, j, k));
        assert forall|i2: int, j2: int|
            0 <= i2 < 7 && 0 <= j2 < 7 && !(i2 == i && j2 == j) && spec_hex_distance(i, j, i2, j2)
                <= 2 implies !#[trigger] g2.at(i2, j2, k) by {
            if g2.at(i2, j2, k) {
                assert(g1.at(i2, j2, k));
                assert(spec_inuse_neigh(g1, i, j, k));
            }
        }
    }
}

/// Granting a free channel and then releasing it restores the grid exactly.
pub proof fn lemma_new_then_end_restores(g1: Grid, g2: Grid, g3: Grid, r: int, c: int, ch: int)
    requires
        0 <= r < 7,
        0 <= c < 7,
        0 <= ch < 70,
        !g1.at(r, c, ch),
        grid_agree_except(g1, g2, r, c, ch),
        g2.at(r, c, ch),
        grid_agree_except(g2, g3, r, c, ch),
        !g3.at(r, c, ch),
    ensures
        grid_eq(g1, g3),
{
    assert forall|i: int, j: int, k: int|
        0 <= i < 7 && 0 <= j < 7 && 0 <= k < 70 implies #[trigger] g1.at(i, j, k) == g3.at(
        i,
        j,
        k,
    ) by {
        if !(i == r && j == c && k == ch) {
            assert(g1.at(i, j, k) == g2.at(i, j, k));
            assert(g2.at(i, j, k) == g3.at(i, j, k));
        }
    }
}

/// A channel is eligible exactly when it is free in the cell itself and no
/// other cell within the reuse distance uses it.
pub proof fn lemma_eligible_iff(g: Grid, r: int, c: int, ch: int)
    requires
        0 <= r < 7,
        0 <= c < 7,
        0 <= ch < 70,
    ensures
        spec_eligible(g, r, c, ch) <==> (!g.at(r, c, ch) && !spec_inuse_neigh(g, r, c, ch)),
{
    assert(spec_hex_distance(r, c, r, c) == 0);
    if !g.at(r, c, ch) && !spec_inuse_neigh(g, r, c, ch) {
        assert forall|r2: int, c2: int|
            0 <= r2 < 7 && 0 <= c2 < 7 && spec_hex_distance(r, c, r2, c2) <= 2
                implies !#[trigger] g.at(r2, c2, ch) by {
            if !(r2 == r && c2 == c) {
                assert(!g.at(r2, c2, ch));
            }
        }
    }
}


proof fn lemma_cell_used_agree_except(
    g1: Grid,
    g2: Grid,
    tr: int,
    tc: int,
    tch: int,
    r: int,
    c: int,
    lim: int,
)
    requires
        0 <= tch < 70,
        0 <= lim <= 70,
        0 <= r < 7,
        0 <= c < 7,
        grid_agree_except(g1, g2, tr, tc, tch),
    ensures
        cell_used_upto(g2, r, c, lim) == cell_used_upto(g1, r, c, lim) + if r == tr && c == tc
            && tch < lim {
            (if g2.at(tr, tc, tch) {
                1int
            } else {
                0int
            }) - (if g1.at(tr, tc, tch) {
                1int
            } else {
                0int
            })
        } else {
            0int
        },
    decreases lim,
{
    if lim > 0 {
        lemma_cell_used_agree_except(g1, g2, tr, tc, tch, r, c, lim - 1);
        if !(r == tr && c == tc && lim - 1 == tch) {
            assert(g1.at(r, c, lim - 1) == g2.at(r, c, lim - 1));
        }
    }
}

proof fn lemma_n_used_upto_agree_except(g1: Grid, g2: Grid, tr: int, tc: int, tch: int, k: int)
    requires
        0 <= tr < 7,
        0 <= tc < 7,
        0 <= tch < 70,
        0 <= k <= 49,
        grid_agree_except(g1, g2, tr, tc, tch),
    ensures
        n_used_upto(g2, k) == n_used_upto(g1, k) + if tr * 7 + tc < k {
            (if g2.at(tr, tc, tch) {
                1int
            } else {
                0int
            }) - (if g1.at(tr, tc, tch) {
                1int
            } else {
                0int
            })
        } else {
            0int
        },
    decreases k,
{
    if k > 0 {
        lemma_n_used_upto_agree_except(g1, g2, tr, tc, tch, k - 1);
        let kr = (k - 1) / 7;
        let kc = (k - 1) % 7;
        assert(0 <= kr < 7 && 0 <= kc < 7 && kr * 7 + kc == k - 1) by (nonlinear_arith)
            requires
                0 < k <= 49,
                kr == (k - 1) / 7,
                kc == (k - 1) % 7,
        ;
        lemma_cell_used_agree_except(g1, g2, tr, tc, tch, kr, kc, 70);
        if kr == tr && kc == tc {
            assert(tr * 7 + tc == k - 1);
        } else if tr * 7 + tc == k - 1 {
            assert((tr * 7 + tc) / 7 == tr && (tr * 7 + tc) % 7 == tc) by (nonlinear_arith)
                requires
                    0 <= tr < 7,
                    0 <= tc < 7,
            ;
            assert(false);
        }
    }
}

/// Granting a channel raises the number in use by one; releasing one lowers
/// it by one.
pub proof fn lemma_n_used_agree_except(g1: Grid, g2: Grid, tr: int, tc: int, tch: int)
    requires
        0 <= tr < 7,
        0 <= tc < 7,
        0 <= tch < 70,
        grid_agree_except(g1, g2, tr, tc, tch),
    ensures
        spec_n_used(g2) == spec_n_used(g1) + (if g2.at(tr, tc, tch) {
            1int
        } else {
            0int
        }) - (if g1.at(tr, tc, tch) {
            1int
        } else {
            0int
        }),
{
    lemma_n_used_upto_agree_except(g1, g2, tr, tc, tch, 49);
    assert(tr * 7 + tc < 49) by (nonlinear_arith)
        requires
            0 <= tr < 7,
            0 <= tc < 7,
    ;
}

/// A grid with no channel in use has none counted.
pub proof fn lemma_n_used_zero(g: Grid)
    requires
        forall|r: int, c: int, ch: int|
            0 <= r < 7 && 0 <= c < 7 && 0 <= ch < 70 ==> !g.at(r, c, ch),
    ensures
        spec_n_used(g) == 0,
{
    lemma_n_used_upto_zero(g, 49);
}

proof fn lemma_cell_used_upto_zero(g: Grid, r: int, c: int, lim: int)
    requires
        0 <= r < 7,
        0 <= c < 7,
        0 <= lim <= 70,
        forall|i: int, j: int, ch: int|
            0 <= i < 7 && 0 <= j < 7 && 0 <= ch < 70 ==> !g.at(i, j, ch),
    ensures
        cell_used_upto(g, r, c, lim) == 0,
    decreases lim,
{
    if lim > 0 {
        lemma_cell_used_upto_zero(g, r, c, lim - 1);
        assert(!g.at(r, c, lim - 1));
    }
}

proof fn lemma_n_used_upto_zero(g: Grid, k: int)
    requires
        0 <= k <= 49,
        forall|r: int, c: int, ch: int|
            0 <= r < 7 && 0 <= c < 7 && 0 <= ch < 70 ==> !g.at(r, c, ch),
    ensures
        n_used_upto(g, k) == 0,
    decreases k,
{
    if k > 0 {
        lemma_n_used_upto_zero(g, k - 1);
        let kr = (k - 1) / 7;
        let kc = (k - 1) % 7;
        assert(0 <= kr < 7 && 0 <= kc < 7) by (nonlinear_arith)
            requires
                0 < k <= 49,
                kr == (k - 1) / 7,
                kc == (k - 1) % 7,
        ;
        lemma_cell_used_upto_zero(g, kr, kc, 70);
    }
}

} // verus!
