//! What the afterstate controller sees and enumerates: the state it scores,
//! the candidate channels for an event, and the afterstate feature
//! representations for hand-off look-ahead. Scoring itself is a linear map
//! over the freps and belongs to the value network that sits on top.

use vstd::prelude::*;
use crate::Cell;
use crate::eventgen::{EType, Event};
use crate::gridfuncs::{
    Grid, get_eligible_chs, get_inuse_chs, afterstates, elig_seq_upto, inuse_seq_upto,
    grid_agree_except, grid_eq, spec_eligible,
};
use crate::frep::{Frep, incremental_freps, lemma_incremental_matches_afterstate, lemma_frep_congruence};
use crate::neighs::Neighs;

verus! {

/// An action: the channel to assign or release, or none to block the call.
pub type Action = Option<usize>;

/// What the controller observes between events: the grid, its feature
/// representation, and the event to act on.
pub struct State {
    pub grid: Grid,
    pub frep: Frep,
    pub event: Event,
}

impl State {
    /// The parts are well-formed and the frep belongs to the grid.
    pub open spec fn wf(self) -> bool {
        &&& self.grid.wf()
        &&& self.frep.wf()
        &&& self.frep.matches_grid(self.grid)
        &&& self.event.wf()
    }
}

/// The channels an action may name: the channels in use at the cell for an
/// END event, the eligible ones for a NEW or HOFF arrival. The returned
/// list is ascending, and it is empty on a NEW or HOFF exactly when no
/// channel is eligible at the cell.
pub fn get_action_candidates(grid: &Grid, event: &Event) -> (chs: Vec<usize>)
    requires
        grid.wf(),
        event.wf(),
    ensures
        chs@ == if event.etype == EType::END {
            inuse_seq_upto(*grid, event.cell.row as int, event.cell.col as int, 70)
        } else {
            elig_seq_upto(*grid, event.cell.row as int, event.cell.col as int, 70)
        },
{
    match event.etype {
        EType::END => get_inuse_chs(grid, &event.cell),
        _ => get_eligible_chs(grid, &event.cell),
    }
}

/// One candidate of a hand-off look-ahead: the grid after the departure has
/// released its channel, the channels then eligible at the arrival cell,
/// and for each of them the grid and the feature representation after the
/// arrival has absorbed it.
pub struct HlaBatch {
    /// The grid once the departure releases its channel.
    pub astate: Grid,
    /// The channels eligible at the arrival cell in that grid, ascending.
    pub chs: Vec<usize>,
    /// Per eligible channel, the grid once the arrival takes it.
    pub ha_astates: Vec<Grid>,
    /// Per eligible channel, the feature representation of that grid.
    pub ha_freps: Vec<Frep>,
}

/// Evaluate one candidate channel of a hand-off departure: release `ch` in
/// `cell`, and derive, for every channel then eligible at the arrival cell,
/// the feature representation the arrival would leave behind. The working
/// grid is mutated only temporarily and restored exactly.
pub fn hla_afterstate_freps(
    neighs: &Neighs,
    grid: &mut Grid,
    frep: &Frep,
    cell: &Cell,
    ch: usize,
    to_cell: &Cell,
) -> (r: HlaBatch)
    requires
        neighs.wf(),
        old(grid).wf(),
        frep.wf(),
        frep.matches_grid(*old(grid)),
        cell.valid(),
        to_cell.valid(),
        ch < 70,
        old(grid).at(cell.row as int, cell.col as int, ch as int),
    ensures
        final(grid).wf(),
        grid_eq(*old(grid), *final(grid)),
        r.astate.wf(),
        grid_agree_except(*old(grid), r.astate, cell.row as int, cell.col as int, ch as int),
        !r.astate.at(cell.row as int, cell.col as int, ch as int),
        r.chs@ == elig_seq_upto(r.astate, to_cell.row as int, to_cell.col as int, 70),
        r.ha_astates@.len() == r.chs@.len(),
        r.ha_freps@.len() == r.chs@.len(),
        forall|j: int|
            0 <= j < r.chs@.len() ==> {
                let ha = #[trigger] r.ha_astates@[j];
                &&& ha.wf()
                &&& grid_agree_except(
                    r.astate,
                    ha,
                    to_cell.row as int,
                    to_cell.col as int,
                    r.chs@[j] as int,
                )
                &&& ha.at(to_cell.row as int, to_cell.col as int, r.chs@[j] as int)
                &&& r.ha_freps@[j].wf()
                &&& r.ha_freps@[j].matches_grid(ha)
            },
{
    let chs_one: Vec<usize> = vec![ch];
    proof {
        assert(chs_one@[0] == ch);
    }
    let end_freps = incremental_freps(neighs, grid, frep, cell, &EType::END, &chs_one);
    let mut astates_one = afterstates(grid, cell, &EType::END, &chs_one);
    let astate = astates_one.remove(0);
    let end_frep = &end_freps[0];
    proof {
        // the incrementally derived frep belongs to the released grid
        assert forall|x: int, y: int, z: int|
            0 <= x < 7 && 0 <= y < 7 && 0 <= z < 70 && !(x == cell.row as int && y
                == cell.col as int && z == ch as int) implies #[trigger] astate.at(x, y, z)
            == old(grid).at(x, y, z) by {}
        lemma_incremental_matches_afterstate(
            *old(grid),
            astate,
            cell.row as int,
            cell.col as int,
            ch as int,
            true,
            *frep,
            end_freps@[0],
        );
    }
    let mut work = astate.copy();
    let echs = get_eligible_chs(&astate, to_cell);
    proof {
        lemma_frep_congruence(astate, work);
        assert(end_freps@[0].matches_grid(work));
        crate::gridfuncs::lemma_elig_seq_props(
            astate,
            to_cell.row as int,
            to_cell.col as int,
            70,
        );
        assert forall|j: int| 0 <= j < echs@.len() implies (#[trigger] echs@[j]) < 70 && !work.at(
            to_cell.row as int,
            to_cell.col as int,
            echs@[j] as int,
        ) by {
            assert(spec_eligible(astate, to_cell.row as int, to_cell.col as int, echs@[j] as int));
            assert(crate::spec_hex_distance(
                to_cell.row as int,
                to_cell.col as int,
                to_cell.row as int,
                to_cell.col as int,
            ) == 0);
            assert(!astate.at(to_cell.row as int, to_cell.col as int, echs@[j] as int));
        }
    }
    let ha_astates = afterstates(&astate, to_cell, &EType::HOFF, &echs);
    let ghost work0 = work;
    let ha_freps = incremental_freps(neighs, &mut work, end_frep, to_cell, &EType::HOFF, &echs);
    proof {
        assert forall|j: int|
            0 <= j < echs@.len() implies (#[trigger] ha_freps@[j]).matches_grid(
            ha_astates@[j],
        ) by {
            assert forall|x: int, y: int, z: int|
                0 <= x < 7 && 0 <= y < 7 && 0 <= z < 70 && !(x == to_cell.row as int && y
                    == to_cell.col as int && z == echs@[j] as int)
                implies #[trigger] work0.at(x, y, z) == ha_astates@[j].at(x, y, z) by {
                assert(astate.at(x, y, z) == ha_astates@[j].at(x, y, z));
                assert(work0.at(x, y, z) == astate.at(x, y, z));
            }
            lemma_incremental_matches_afterstate(
                work0,
                ha_astates@[j],
                to_cell.row as int,
                to_cell.col as int,
                echs@[j] as int,
                false,
                end_freps@[0],
                ha_freps@[j],
            );
        }
    }
    HlaBatch { astate, chs: echs, ha_astates, ha_freps }
}

} // verus!
