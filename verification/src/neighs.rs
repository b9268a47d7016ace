//! Precomputed neighbor tables: for each cell, the cells within hex
//! distance 1, 2 and 4, the focal cell first so that callers can include or
//! exclude it. Boundary cells have shorter lists.

use vstd::prelude::*;
use crate::{Cell, spec_hex_distance, hex_distance};

verus! {

/// Row-major position of a cell, from 0 to 48.
pub open spec fn cell_pos(cell: Cell) -> int {
    cell.row * 7 + cell.col
}

/// The cells among the first `k` in row-major order that lie within hex
/// distance `d` of `(r0, c0)`, the focal cell itself excluded, in scan order.
pub open spec fn nbr_seq_upto(d: int, r0: int, c0: int, k: int) -> Seq<Cell>
    decreases k,
{
    if k <= 0 {
        Seq::empty()
    } else {
        let pre = nbr_seq_upto(d, r0, c0, k - 1);
        let r = (k - 1) / 7;
        let c = (k - 1) % 7;
        if !(r == r0 && c == c0) && spec_hex_distance(r0, c0, r, c) <= d {
            pre.push(Cell { row: r as usize, col: c as usize })
        } else {
            pre
        }
    }
}

/// All cells within hex distance `d` of `(r0, c0)` other than the focal
/// cell itself, in row-major order.
pub open spec fn nbr_seq(d: int, r0: int, c0: int) -> Seq<Cell> {
    nbr_seq_upto(d, r0, c0, 49)
}

proof fn lemma_pos_index(r: int, c: int)
    requires
        0 <= r < 7,
        0 <= c < 7,
    ensures
        (r * 7 + c) / 7 == r,
        (r * 7 + c) % 7 == c,
{
    assert((r * 7 + c) / 7 == r && (r * 7 + c) % 7 == c) by (nonlinear_arith)
        requires
            0 <= r < 7,
            0 <= c < 7,
    ;
}

/// The neighbor sequence holds exactly the cells within distance `d` of the
/// focal cell, the focal cell excluded, each once, in strictly increasing
/// row-major position.
pub proof fn lemma_nbr_seq_props(d: int, r0: int, c0: int, k: int)
    requires
        0 <= r0 < 7,
        0 <= c0 < 7,
        0 <= k <= 49,
    ensures
        forall|i: int|
            0 <= i < nbr_seq_upto(d, r0, c0, k).len() ==> {
                let cell = #[trigger] nbr_seq_upto(d, r0, c0, k)[i];
                cell.valid() && !(cell.row == r0 && cell.col == c0) && spec_hex_distance(
                    r0,
                    c0,
                    cell.row as int,
                    cell.col as int,
                ) <= d && cell_pos(cell) < k
            },
        forall|cell: Cell|
            cell.valid() && !(cell.row == r0 && cell.col == c0) && spec_hex_distance(
                r0,
                c0,
                cell.row as int,
                cell.col as int,
            ) <= d && #[trigger] cell_pos(cell) < k ==> nbr_seq_upto(d, r0, c0, k).contains(cell),
        forall|i: int, j: int|
            0 <= i < j < nbr_seq_upto(d, r0, c0, k).len() ==> cell_pos(
                nbr_seq_upto(d, r0, c0, k)[i],
            ) < cell_pos(nbr_seq_upto(d, r0, c0, k)[j]),
        nbr_seq_upto(d, r0, c0, k).len() <= k,
    decreases k,
{
    if k > 0 {
        lemma_nbr_seq_props(d, r0, c0, k - 1);
        let pre = nbr_seq_upto(d, r0, c0, k - 1);
        let cur = nbr_seq_upto(d, r0, c0, k);
        let r = (k - 1) / 7;
        let c = (k - 1) % 7;
        assert(0 <= r < 7 && 0 <= c < 7) by (nonlinear_arith)
            requires
                0 < k <= 49,
                r == (k - 1) / 7,
                c == (k - 1) % 7,
        ;
        lemma_pos_index(r, c);
        assert forall|cell: Cell|
            cell.valid() && !(cell.row == r0 && cell.col == c0) && spec_hex_distance(
                r0,
                c0,
                cell.row as int,
                cell.col as int,
            ) <= d && #[trigger] cell_pos(cell) < k implies cur.contains(cell) by {
            if cell_pos(cell) < k - 1 {
                assert(pre.contains(cell));
                let i = choose|i: int| 0 <= i < pre.len() && pre[i] == cell;
                assert(cur[i] == cell);
            } else {
                // cell_pos(cell) == k - 1, so cell is exactly (r, c)
                lemma_pos_index(cell.row as int, cell.col as int);
                assert(cell.row == r && cell.col == c);
                assert(cur[cur.len() - 1] == cell);
            }
        }
    }
}

/// Every cell has at least one neighbor at hex distance 1.
pub proof fn lemma_nbr1_nonempty(r0: int, c0: int)
    requires
        0 <= r0 < 7,
        0 <= c0 < 7,
    ensures
        nbr_seq(1, r0, c0).len() > 0,
{
    let other = if r0 < 6 {
        Cell { row: (r0 + 1) as usize, col: c0 as usize }
    } else {
        Cell { row: (r0 - 1) as usize, col: c0 as usize }
    };
    assert(spec_hex_distance(r0, c0, other.row as int, other.col as int) == 1);
    assert(cell_pos(other) < 49);
    lemma_nbr_seq_props(1, r0, c0, 49);
    assert(nbr_seq(1, r0, c0).contains(other));
}

/// A neighbor list made of the focal cell (when asked for) followed by the
/// distance-`d` neighborhood lists only valid cells within the distance,
/// each once, and every such cell.
pub proof fn lemma_neighbor_list_props(ns: Seq<Cell>, d: int, row: int, col: int, include_self: bool)
    requires
        1 <= d,
        0 <= row < 7,
        0 <= col < 7,
        ns == if include_self {
            seq![Cell { row: row as usize, col: col as usize }] + nbr_seq(d, row, col)
        } else {
            nbr_seq(d, row, col)
        },
    ensures
        forall|i: int|
            0 <= i < ns.len() ==> (#[trigger] ns[i]).valid() && spec_hex_distance(
                row,
                col,
                ns[i].row as int,
                ns[i].col as int,
            ) <= d,
        forall|i: int, j: int| 0 <= i < j < ns.len() ==> ns[i] != ns[j],
        forall|cell: Cell|
            #![auto]
            cell.valid() && spec_hex_distance(row, col, cell.row as int, cell.col as int) <= d && (
            include_self || !(cell.row == row && cell.col == col)) ==> ns.contains(cell),
        include_self ==> ns.len() >= 1 && ns[0] == (Cell { row: row as usize, col: col as usize }),
{
    let nbrs = nbr_seq(d, row, col);
    lemma_nbr_seq_props(d, row, col, 49);
    assert(spec_hex_distance(row, col, row, col) == 0);
    assert forall|i: int|
        0 <= i < ns.len() implies (#[trigger] ns[i]).valid() && spec_hex_distance(
        row,
        col,
        ns[i].row as int,
        ns[i].col as int,
    ) <= d by {
        if include_self {
            if i > 0 {
                assert(ns[i] == nbrs[i - 1]);
            }
        } else {
            assert(ns[i] == nbrs[i]);
        }
    }
    assert forall|i: int, j: int| 0 <= i < j < ns.len() implies ns[i] != ns[j] by {
        if include_self {
            if i == 0 {
                assert(ns[j] == nbrs[j - 1]);
            } else {
                assert(ns[i] == nbrs[i - 1]);
                assert(ns[j] == nbrs[j - 1]);
                assert(cell_pos(nbrs[i - 1]) < cell_pos(nbrs[j - 1]));
            }
        } else {
            assert(cell_pos(nbrs[i]) < cell_pos(nbrs[j]));
        }
    }
    assert forall|cell: Cell|
        #![auto]
        cell.valid() && spec_hex_distance(row, col, cell.row as int, cell.col as int) <= d && (
        include_self || !(cell.row == row && cell.col == col)) implies ns.contains(cell) by {
        if cell.row == row && cell.col == col {
            assert(ns[0] == cell);
        } else {
            assert(cell_pos(cell) < 49);
            assert(nbrs.contains(cell));
            let idx = choose|idx: int| 0 <= idx < nbrs.len() && nbrs[idx] == cell;
            if include_self {
                assert(ns[idx + 1] == cell);
            } else {
                assert(ns[idx] == cell);
            }
        }
    }
}

/// A lookup table of neighbor lists for hex distances 1, 2 and 4: entry
/// `(r, c)` of each table lists the focal cell first, then its neighbors in
/// row-major order.
pub struct Neighs {
    pub n1: Vec<Vec<Vec<Cell>>>,
    pub n2: Vec<Vec<Vec<Cell>>>,
    pub n4: Vec<Vec<Vec<Cell>>>,
}

/// Table `t` lists, for each cell, the focal cell followed by its
/// distance-`d` neighborhood.
pub open spec fn table_wf(t: Vec<Vec<Vec<Cell>>>, d: int) -> bool {
    &&& t@.len() == 7
    &&& forall|r: int| 0 <= r < 7 ==> (#[trigger] t@[r])@.len() == 7
    &&& forall|r: int, c: int|
        0 <= r < 7 && 0 <= c < 7 ==> (#[trigger] t@[r]@[c])@ == seq![
            Cell { row: r as usize, col: c as usize },
        ] + nbr_seq(d, r, c)
}

impl Neighs {
    pub open spec fn wf(self) -> bool {
        table_wf(self.n1, 1) && table_wf(self.n2, 2) && table_wf(self.n4, 4)
    }

    /// The cells with hex distance `dist` or less from `(row, col)`, in
    /// row-major order; the focal cell leads when `include_self` is set.
    pub fn neighbors(&self, dist: usize, row: usize, col: usize, include_self: bool) -> (ns: Vec<
        Cell,
    >)
        requires
            self.wf(),
            dist == 1 || dist == 2 || dist == 4,
            row < 7,
            col < 7,
        ensures
            ns@ == if include_self {
                seq![Cell { row, col }] + nbr_seq(dist as int, row as int, col as int)
            } else {
                nbr_seq(dist as int, row as int, col as int)
            },
            // only the valid prefix: every listed cell is on the grid and
            // within the distance, each cell occurs at most once
            forall|i: int|
                0 <= i < ns@.len() ==> (#[trigger] ns@[i]).valid() && spec_hex_distance(
                    row as int,
                    col as int,
                    ns@[i].row as int,
                    ns@[i].col as int,
                ) <= dist,
            forall|i: int, j: int| 0 <= i < j < ns@.len() ==> ns@[i] != ns@[j],
            // every cell within the distance occurs, the focal cell exactly
            // when it is asked for, and then first
            forall|cell: Cell|
                #![auto]
                cell.valid() && spec_hex_distance(
                    row as int,
                    col as int,
                    cell.row as int,
                    cell.col as int,
                ) <= dist && (include_self || !(cell.row == row && cell.col == col))
                    ==> ns@.contains(cell),
            include_self ==> ns@.len() >= 1 && ns@[0] == (Cell { row, col }),
    {
        let t: &Vec<Vec<Vec<Cell>>> = if dist == 1 {
            &self.n1
        } else if dist == 2 {
            &self.n2
        } else {
            &self.n4
        };
        let entry: &Vec<Cell> = &t[row][col];
        let ghost full = entry@;
        let start: usize = if include_self {
            0
        } else {
            1
        };
        let mut ns: Vec<Cell> = Vec::new();
        let n = entry.len();
        for i in start..n
            invariant
                start <= 1,
                n == full.len(),
                n >= 1,
                entry@ == full,
                ns@ == full.subrange(start as int, i as int),
        {
            ns.push(entry[i]);
            proof {
                assert(ns@ =~= full.subrange(start as int, i + 1));
            }
        }
        proof {
            if include_self {
                assert(ns@ =~= full);
            } else {
                assert(ns@ =~= full.subrange(1, full.len() as int));
                assert(full =~= seq![Cell { row, col }] + nbr_seq(
                    dist as int,
                    row as int,
                    col as int,
                ));
                assert(ns@ =~= nbr_seq(dist as int, row as int, col as int));
            }
            lemma_neighbor_list_props(ns@, dist as int, row as int, col as int, include_self);
        }
        ns
    }
}

/// The cell at position `i` of a neighbor list.
pub fn cell_of(neighs: &Vec<Cell>, i: usize) -> (cell: Cell)
    requires
        i < neighs@.len(),
    ensures
        cell == neighs@[i as int],
{
    neighs[i]
}

/// Build the neighbor list table for distance `d`.
fn build_table(d: usize) -> (t: Vec<Vec<Vec<Cell>>>)
    requires
        d == 1 || d == 2 || d == 4,
    ensures
        table_wf(t, d as int),
{
    let mut t: Vec<Vec<Vec<Cell>>> = Vec::new();
    for r0 in 0..7usize
        invariant
            d == 1 || d == 2 || d == 4,
            t@.len() == r0,
            forall|r: int| 0 <= r < r0 ==> (#[trigger] t@[r])@.len() == 7,
            forall|r: int, c: int|
                0 <= r < r0 && 0 <= c < 7 ==> (#[trigger] t@[r]@[c])@ == seq![
                    Cell { row: r as usize, col: c as usize },
                ] + nbr_seq(d as int, r, c),
    {
        let mut trow: Vec<Vec<Cell>> = Vec::new();
        for c0 in 0..7usize
            invariant
                d == 1 || d == 2 || d == 4,
                r0 < 7,
                trow@.len() == c0,
                forall|c: int|
                    0 <= c < c0 ==> (#[trigger] trow@[c])@ == seq![
                        Cell { row: r0, col: c as usize },
                    ] + nbr_seq(d as int, r0 as int, c),
        {
            let mut entry: Vec<Cell> = Vec::new();
            entry.push(Cell { row: r0, col: c0 });
            for r in 0..7usize
                invariant
                    d == 1 || d == 2 || d == 4,
                    r0 < 7,
                    c0 < 7,
                    entry@ == seq![Cell { row: r0, col: c0 }] + nbr_seq_upto(
                        d as int,
                        r0 as int,
                        c0 as int,
                        7 * r,
                    ),
            {
                for c in 0..7usize
                    invariant
                        d == 1 || d == 2 || d == 4,
                        r0 < 7,
                        c0 < 7,
                        r < 7,
                        entry@ == seq![Cell { row: r0, col: c0 }] + nbr_seq_upto(
                            d as int,
                            r0 as int,
                            c0 as int,
                            7 * r + c,
                        ),
                {
                    proof {
                        lemma_pos_index(r as int, c as int);
                        assert((7 * r + c) / 7 == r as int && (7 * r + c) % 7 == c as int);
                    }
                    if !(r == r0 && c == c0) {
                        let dd = hex_distance(r0 as i8, c0 as i8, r as i8, c as i8);
                        if dd as usize <= d {
                            entry.push(Cell { row: r, col: c });
                        }
                    }
                    proof {
                        assert(entry@ =~= seq![Cell { row: r0, col: c0 }] + nbr_seq_upto(
                            d as int,
                            r0 as int,
                            c0 as int,
                            7 * r + c + 1,
                        ));
                    }
                }
            }
            trow.push(entry);
        }
        t.push(trow);
    }
    t
}

/// Build the three neighbor tables, enumerating all cell pairs once.
pub fn generate_neighs() -> (n: Neighs)
    ensures
        n.wf(),
{
    Neighs { n1: build_table(1), n2: build_table(2), n4: build_table(4) }
}

/// At hex distance exactly 1 from an interior cell lie exactly the six
/// cells reached by the unit hex moves.
proof fn lemma_dist1_moves(r0: int, c0: int, r: int, c: int)
    requires
        spec_hex_distance(r0, c0, r, c) <= 1,
        !(r == r0 && c == c0),
    ensures
        (r == r0 - 1 && c == c0) || (r == r0 + 1 && c == c0) || (r == r0 && c == c0 - 1) || (r
            == r0 && c == c0 + 1) || (r == r0 - 1 && c == c0 + 1) || (r == r0 + 1 && c == c0 - 1),
{
    let dr = r - r0;
    let dc = c - c0;
    assert(crate::abs_int(dr) + crate::abs_int(dr + dc) + crate::abs_int(dc) <= 3);
}

/// A valid cell within the distance occurs in the neighbor sequence.
proof fn lemma_nbr_contains(d: int, r0: int, c0: int, cell: Cell)
    requires
        1 <= d,
        0 <= r0 < 7,
        0 <= c0 < 7,
        cell.valid(),
        !(cell.row == r0 && cell.col == c0),
        spec_hex_distance(r0, c0, cell.row as int, cell.col as int) <= d,
    ensures
        nbr_seq(d, r0, c0).contains(cell),
{
    lemma_nbr_seq_props(d, r0, c0, 49);
    assert(cell_pos(cell) < 49);
}

/// An interior cell has at least six neighbors at hex distance 1: the six
/// unit hex moves all stay on the grid.
#[verifier::spinoff_prover]
pub proof fn lemma_interior_nbr1_count(r: int, c: int)
    requires
        1 <= r <= 5,
        1 <= c <= 5,
    ensures
        nbr_seq(1, r, c).len() >= 6,
{
    let s = nbr_seq(1, r, c);
    let n1 = Cell { row: (r - 1) as usize, col: c as usize };
    let n2 = Cell { row: (r + 1) as usize, col: c as usize };
    let n3 = Cell { row: r as usize, col: (c - 1) as usize };
    let n4 = Cell { row: r as usize, col: (c + 1) as usize };
    let n5 = Cell { row: (r - 1) as usize, col: (c + 1) as usize };
    let n6 = Cell { row: (r + 1) as usize, col: (c - 1) as usize };
    lemma_nbr_contains(1, r, c, n1);
    lemma_nbr_contains(1, r, c, n2);
    lemma_nbr_contains(1, r, c, n3);
    lemma_nbr_contains(1, r, c, n4);
    lemma_nbr_contains(1, r, c, n5);
    lemma_nbr_contains(1, r, c, n6);
    let i1 = choose|i: int| 0 <= i < s.len() && s[i] == n1;
    let i2 = choose|i: int| 0 <= i < s.len() && s[i] == n2;
    let i3 = choose|i: int| 0 <= i < s.len() && s[i] == n3;
    let i4 = choose|i: int| 0 <= i < s.len() && s[i] == n4;
    let i5 = choose|i: int| 0 <= i < s.len() && s[i] == n5;
    let i6 = choose|i: int| 0 <= i < s.len() && s[i] == n6;
    assert(n1 != n2);
    assert(n1 != n3);
    assert(n1 != n4);
    assert(n1 != n5);
    assert(n1 != n6);
    assert(n2 != n3);
    assert(n2 != n4);
    assert(n2 != n5);
    assert(n2 != n6);
    assert(n3 != n4);
    assert(n3 != n5);
    assert(n3 != n6);
    assert(n4 != n5);
    assert(n4 != n6);
    assert(n5 != n6);
    assert(s.len() >= 6);
}

/// The corner cell (0, 0) has exactly two neighbors at hex distance 1:
/// of the six unit hex moves, four leave the grid.
#[verifier::spinoff_prover]
pub proof fn lemma_corner_nbr1_count()
    ensures
        nbr_seq(1, 0, 0).len() == 2,
{
    lemma_nbr_seq_props(1, 0, 0, 49);
    let s = nbr_seq(1, 0, 0);
    let n1 = Cell { row: 1usize, col: 0usize };
    let n2 = Cell { row: 0usize, col: 1usize };
    assert(cell_pos(n1) < 49 && cell_pos(n2) < 49);
    assert(spec_hex_distance(0, 0, n1.row as int, n1.col as int) == 1);
    assert(spec_hex_distance(0, 0, n2.row as int, n2.col as int) == 1);
    assert(s.contains(n1) && s.contains(n2));
    let i1 = choose|i: int| 0 <= i < s.len() && s[i] == n1;
    let i2 = choose|i: int| 0 <= i < s.len() && s[i] == n2;
    assert(s.len() >= 2);
    if s.len() > 2 {
        assert(s[0] == n1 || s[0] == n2) by {
            let cell = s[0];
            lemma_dist1_moves(0, 0, cell.row as int, cell.col as int);
        }
        assert(s[1] == n1 || s[1] == n2) by {
            let cell = s[1];
            lemma_dist1_moves(0, 0, cell.row as int, cell.col as int);
        }
        assert(s[2] == n1 || s[2] == n2) by {
            let cell = s[2];
            lemma_dist1_moves(0, 0, cell.row as int, cell.col as int);
        }
        assert(s[0] != s[1]) by { assert(cell_pos(s[0]) < cell_pos(s[1])); }
        assert(s[0] != s[2]) by { assert(cell_pos(s[0]) < cell_pos(s[2])); }
        assert(s[1] != s[2]) by { assert(cell_pos(s[1]) < cell_pos(s[2])); }
        assert(false);
    }
}

/// A corner cell has fewer distance-1 neighbors than an interior cell.
pub proof fn lemma_corner_fewer_nbrs_than_interior(r: int, c: int)
    requires
        1 <= r <= 5,
        1 <= c <= 5,
    ensures
        nbr_seq(1, 0, 0).len() < nbr_seq(1, r, c).len(),
{
    lemma_corner_nbr1_count();
    lemma_interior_nbr1_count(r, c);
}

} // verus!
