use dca_sim::{Cell, hex_distance, ROWS, COLS, CHANNELS};
use dca_sim::gridfuncs::{
    Grid, get_eligible_chs, get_inuse_chs, afterstates, validate_reuse_constraint, n_used,
    argpmax1, eligible_map, inuse_neighs,
};
use dca_sim::frep::{Frep, feature_rep, incremental_freps};
use dca_sim::neighs::{Neighs, generate_neighs, cell_of};
use dca_sim::eventgen::EType;

fn eq_frep(frep1: &Frep, frep2: &Frep) {
    for r in 0..ROWS {
        for c in 0..COLS {
            for f in 0..(CHANNELS + 1) {
                assert_eq!(
                    frep1.get(r, c, f),
                    frep2.get(r, c, f),
                    "frep entry ({}, {}, {})",
                    r,
                    c,
                    f
                );
            }
        }
    }
}

fn eq_grid(g1: &Grid, g2: &Grid) -> bool {
    for r in 0..ROWS {
        for c in 0..COLS {
            for ch in 0..CHANNELS {
                if g1.get(r, c, ch) != g2.get(r, c, ch) {
                    return false;
                }
            }
        }
    }
    true
}

/// Check that deriving feature reps incrementally yields the same result
/// as doing it from scratch.
fn incremental_vs_scratch(neighs: &Neighs, grid: &mut Grid, cell: &Cell, etype: &EType, chs: &Vec<usize>) {
    let astates = afterstates(grid, cell, etype, chs);
    let pre_frep = feature_rep(grid);
    let freps_a = incremental_freps(neighs, grid, &pre_frep, cell, etype, chs);
    assert_eq!(astates.len(), freps_a.len());
    for (astate, frep_a) in astates.iter().zip(freps_a.iter()) {
        let frep_b = feature_rep(astate);
        eq_frep(frep_a, &frep_b);
    }
}

/// Case: Call arrival on empty grid
#[test]
fn test_incremental_1() {
    let neighs = generate_neighs();
    let mut grid = Grid::new();
    let grid_original = grid.copy();
    let cell = Cell { row: 2, col: 3 };
    let etype = EType::NEW;
    let chs = get_eligible_chs(&grid, &cell);
    incremental_vs_scratch(&neighs, &mut grid, &cell, &etype, &chs);
    // Grid should not have changed
    assert!(eq_grid(&grid, &grid_original));
}

/// Case: Call termination of the only channel in use
#[test]
fn test_incremental_2() {
    let neighs = generate_neighs();
    let mut grid = Grid::new();
    grid.set(4, 1, 4, true);
    let cell = Cell { row: 4, col: 1 };
    let etype = EType::END;
    let chs = get_inuse_chs(&grid, &cell);
    incremental_vs_scratch(&neighs, &mut grid, &cell, &etype, &chs);
}

/// Case: Call arrival when focal cell and neighbor has channels in use
#[test]
fn test_incremental_3() {
    let neighs = generate_neighs();
    let mut grid = Grid::new();
    let cell = Cell { row: 0, col: 0 };
    grid.set(0, 0, 4, true);
    grid.set(0, 1, 5, true);
    let etype = EType::NEW;
    let chs = get_eligible_chs(&grid, &cell);
    incremental_vs_scratch(&neighs, &mut grid, &cell, &etype, &chs);
}

#[test]
fn test_feature_rep1() {
    let grid = Grid::new();
    let frep = feature_rep(&grid);
    // No cell has a channel in use by any of its neighbors
    for r in 0..ROWS {
        for c in 0..COLS {
            for ch in 0..CHANNELS {
                assert_eq!(frep.get(r, c, ch), 0);
            }
        }
    }
    // No cell has any channels in use, i.e. all are free
    for r in 0..ROWS {
        for c in 0..COLS {
            assert_eq!(frep.get(r, c, CHANNELS), CHANNELS as u32);
        }
    }
}

#[test]
fn test_feature_rep2() {
    let neighs = generate_neighs();
    let mut grid = Grid::new();
    for r in 0..ROWS {
        for c in 0..COLS {
            grid.set(r, c, 0, true);
        }
    }
    let frep = feature_rep(&grid);

    // Every cell has as many distance-4 neighbors using channel 0 as it has
    // distance-4 neighbors (which depends on cell coordinates)
    for r in 0..ROWS {
        for c in 0..COLS {
            let n_neighs = neighs.neighbors(4, r, c, false).len();
            assert_eq!(frep.get(r, c, 0), n_neighs as u32);
            for ch in 1..CHANNELS {
                assert_eq!(frep.get(r, c, ch), 0);
            }
        }
    }

    // All cells have the same channel in use, thus all but one of the
    // channels are eligible in all of the cells
    for r in 0..ROWS {
        for c in 0..COLS {
            assert_eq!(frep.get(r, c, CHANNELS), (CHANNELS - 1) as u32);
        }
    }
}

#[test]
fn test_feature_rep3() {
    let neighs = generate_neighs();
    let mut grid = Grid::new();
    let (r, c, ch) = (1, 2, 9);
    grid.set(r, c, ch, true);
    let frep = feature_rep(&grid);

    // Cell (1, 2) has no neighs that use ch9. The neighs of (1, 2)
    // has 1 neigh that use ch9.
    let mut f1_target = vec![vec![vec![0u32; CHANNELS]; COLS]; ROWS];
    for neigh in neighs.neighbors(4, r, c, false) {
        f1_target[neigh.row][neigh.col][ch] = 1;
    }
    for rr in 0..ROWS {
        for cc in 0..COLS {
            for f in 0..CHANNELS {
                assert_eq!(frep.get(rr, cc, f), f1_target[rr][cc][f]);
            }
        }
    }

    // The interfering neighbors of (row, col) = (1, 2) has one less
    // eligible channel
    let mut f2_target = vec![vec![CHANNELS as u32; COLS]; ROWS];
    for neigh in neighs.neighbors(2, r, c, true) {
        f2_target[neigh.row][neigh.col] -= 1;
    }
    for rr in 0..ROWS {
        for cc in 0..COLS {
            assert_eq!(frep.get(rr, cc, CHANNELS), f2_target[rr][cc]);
        }
    }
}

#[test]
fn test_get_eligible_chs() {
    let neighs = generate_neighs();
    let mut grid = Grid::new();
    for r in 0..ROWS {
        for c in 0..COLS {
            for ch in 0..CHANNELS {
                grid.set(r, c, ch, true);
            }
        }
    }
    let (r, c) = (3, 4);
    let chs: [usize; 3] = [0, 4, 10];
    for neigh in neighs.neighbors(2, r, c, true) {
        for ch in chs.iter() {
            grid.set(neigh.row, neigh.col, *ch, false);
        }
    }
    let elig = get_eligible_chs(&grid, &Cell { row: r, col: c });
    assert_eq!(chs.to_vec(), elig);
}

#[test]
fn test_eligibility_full_on_empty_grid() {
    let grid = Grid::new();
    let chs = get_eligible_chs(&grid, &Cell { row: 2, col: 3 });
    assert_eq!(chs.len(), 70);
    for (i, ch) in chs.iter().enumerate() {
        assert_eq!(*ch, i);
    }
}

#[test]
fn test_afterstate_end_clears_only_channel() {
    let mut grid = Grid::new();
    grid.set(4, 1, 4, true);
    let cell = Cell { row: 4, col: 1 };
    let chs = vec![4usize];
    let astates = afterstates(&grid, &cell, &EType::END, &chs);
    assert_eq!(astates.len(), 1);
    let empty = Grid::new();
    assert!(eq_grid(&astates[0], &empty));
    assert_eq!(n_used(&astates[0]), 0);
}

#[test]
fn test_n_used_counts_all_entries() {
    let mut grid = Grid::new();
    assert_eq!(n_used(&grid), 0);
    grid.set(0, 0, 5, true);
    grid.set(6, 6, 69, true);
    grid.set(3, 2, 17, true);
    assert_eq!(n_used(&grid), 3);
    grid.set(3, 2, 17, false);
    assert_eq!(n_used(&grid), 2);
}

#[test]
fn test_validate_reuse_constraint_ok_and_err() {
    let mut grid = Grid::new();
    assert!(validate_reuse_constraint(&grid).is_ok());
    // (3, 3) and (3, 4) are hex distance 1 apart: same channel violates reuse
    grid.set(3, 3, 7, true);
    assert!(validate_reuse_constraint(&grid).is_ok());
    grid.set(3, 4, 7, true);
    let res = validate_reuse_constraint(&grid);
    assert!(res.is_err());
    let cell = res.unwrap_err();
    assert_eq!((cell.row, cell.col), (3, 3));
}

#[test]
fn test_argpmax1_first_index_tie_break() {
    let empty: Vec<i64> = Vec::new();
    assert_eq!(argpmax1(&empty), None);
    let v = vec![3i64, 9, 1, 9, 2];
    assert_eq!(argpmax1(&v), Some((1, 9)));
    let w = vec![-5i64, -5];
    assert_eq!(argpmax1(&w), Some((0, -5)));
}

#[test]
fn test_new_then_end_restores_grid_and_frep() {
    let mut grid = Grid::new();
    grid.set(5, 5, 30, true);
    let before = grid.copy();
    let frep_before = feature_rep(&grid);
    // grant channel 12 in (1, 1), then process its END for the same channel
    grid.set(1, 1, 12, true);
    grid.set(1, 1, 12, false);
    assert!(eq_grid(&grid, &before));
    let frep_after = feature_rep(&grid);
    eq_frep(&frep_before, &frep_after);
}

#[test]
fn test_eligibility_feature_counts_eligible_chs() {
    let mut grid = Grid::new();
    grid.set(0, 0, 4, true);
    grid.set(0, 1, 5, true);
    grid.set(6, 6, 4, true);
    let frep = feature_rep(&grid);
    for r in 0..ROWS {
        for c in 0..COLS {
            let elig = get_eligible_chs(&grid, &Cell { row: r, col: c });
            assert_eq!(frep.get(r, c, CHANNELS), elig.len() as u32);
        }
    }
}

#[test]
fn test_eligible_and_inuse_maps() {
    let mut grid = Grid::new();
    grid.set(2, 2, 0, true);
    let cell = Cell { row: 2, col: 3 };
    let emap = eligible_map(&grid, &cell);
    let imap = inuse_neighs(&grid, &cell);
    assert_eq!(emap.len(), 70);
    assert_eq!(imap.len(), 70);
    // channel 0 is used at (2, 2), one cell away: ineligible at (2, 3)
    assert!(!emap[0]);
    assert!(imap[0]);
    for ch in 1..CHANNELS {
        assert!(emap[ch]);
        assert!(!imap[ch]);
    }
    // in-use channels at the cell itself are listed by get_inuse_chs
    let inuse = get_inuse_chs(&grid, &Cell { row: 2, col: 2 });
    assert_eq!(inuse, vec![0usize]);
}

#[test]
fn test_hex_distance_values() {
    assert_eq!(hex_distance(0, 0, 0, 0), 0);
    assert_eq!(hex_distance(3, 3, 3, 4), 1);
    assert_eq!(hex_distance(3, 3, 4, 3), 1);
    // moving one row up and one column right is distance 1 in a hex grid
    assert_eq!(hex_distance(3, 3, 2, 4), 1);
    assert_eq!(hex_distance(3, 3, 4, 4), 2);
    assert_eq!(hex_distance(0, 0, 6, 6), 12);
}

#[test]
fn test_neighbors_corner_has_fewer_than_interior() {
    let neighs = generate_neighs();
    let corner = neighs.neighbors(1, 0, 0, false);
    let interior = neighs.neighbors(1, 3, 3, false);
    assert_eq!(corner.len(), 2);
    assert_eq!(interior.len(), 6);
    assert!(corner.len() < interior.len());
    // every listed neighbor is on the grid and within the distance
    for nb in &interior {
        assert!(nb.row < ROWS && nb.col < COLS);
        assert!(hex_distance(3, 3, nb.row as i8, nb.col as i8) <= 1);
    }
    // the focal cell leads when included
    let with_self = neighs.neighbors(2, 0, 0, true);
    assert_eq!(cell_of(&with_self, 0), Cell { row: 0, col: 0 });
    assert_eq!(with_self.len(), neighs.neighbors(2, 0, 0, false).len() + 1);
}
