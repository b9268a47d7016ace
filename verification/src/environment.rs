//! The environment: owns the grid, the statistics counters and the event
//! generator, and advances the simulation one event at a time.

use vstd::prelude::*;
use crate::{Cell, spec_hex_distance};
use crate::eventgen::{EType, Event, EventGen, spec_end_key, end_key_of, key_le};
use crate::gridfuncs::{
    Grid, spec_eligible, spec_reuse_ok, spec_n_used, n_used, validate_reuse_constraint,
    grid_agree_except, grid_eq, lemma_set_eligible_preserves_reuse, lemma_clear_preserves_reuse,
    lemma_n_used_agree_except, lemma_n_used_zero,
};
use crate::stats::{Stats, stats_in_progress};
use crate::neighs::Neighs;

verus! {

/// The simulation environment: the occupancy grid, the statistics counters
/// and the event generator. Whether a fresh call hands off, and the sampled
/// arrival and hold times, are handed in by the caller with each step.
pub struct Env {
    /// Validate the reuse constraint after every step.
    pub verify_grid: bool,
    pub grid: Grid,
    pub stats: Stats,
    pub eventgen: EventGen,
}

/// The random draws one step may consume: the inter-arrival delay of the
/// successor NEW event, whether an accepted fresh call will hand off, and
/// the sampled hold time of the accepted call.
pub struct StepRand {
    pub dt_new: u64,
    pub hoff: bool,
    pub dt_hold: u64,
}

/// Keys of the END index are equal exactly when cell and channel are.
proof fn lemma_key_eq_iff(r1: int, c1: int, h1: int, r2: int, c2: int, h2: int)
    requires
        0 <= r1 < 7,
        0 <= c1 < 7,
        0 <= h1 < 70,
        0 <= r2 < 7,
        0 <= c2 < 7,
        0 <= h2 < 70,
    ensures
        ((spec_end_key(r1, c1, h1) as u64) == (spec_end_key(r2, c2, h2) as u64)) <==> (r1 == r2
            && c1 == c2 && h1 == h2),
{
    assert(0 <= spec_end_key(r1, c1, h1) < 3430 && 0 <= spec_end_key(r2, c2, h2) < 3430)
        by (nonlinear_arith)
        requires
            0 <= r1 < 7,
            0 <= c1 < 7,
            0 <= h1 < 70,
            0 <= r2 < 7,
            0 <= c2 < 7,
            0 <= h2 < 70,
    ;
    if spec_end_key(r1, c1, h1) == spec_end_key(r2, c2, h2) {
        assert(r1 == r2 && c1 == c2 && h1 == h2) by (nonlinear_arith)
            requires
                0 <= r1 < 7,
                0 <= c1 < 7,
                0 <= h1 < 70,
                0 <= r2 < 7,
                0 <= c2 < 7,
                0 <= h2 < 70,
                (r1 * 7 + c1) * 70 + h1 == (r2 * 7 + c2) * 70 + h2,
        ;
    }
}

/// A channel is in use exactly when the END index holds a pending END event
/// for it.
pub open spec fn grid_matches_ends(g: Grid, gen: EventGen) -> bool {
    forall|r: int, c: int, ch: int|
        0 <= r < 7 && 0 <= c < 7 && 0 <= ch < 70 ==> (#[trigger] g.at(r, c, ch)
            <==> gen.end_ids@.contains_key((spec_end_key(r, c, ch) as u64)))
}

/// What holds between steps, of the environment and the event now in
/// flight (popped but not yet processed): the parts are well-formed, the
/// in-flight event is no later than anything pending, a channel is in use
/// exactly when a pending END will release it or the in-flight END itself
/// will, and the counters balance the channels in use.
pub open spec fn env_inv(env: Env, inflight: Event) -> bool {
    &&& env.grid.wf()
    &&& env.eventgen.wf()
    &&& inflight.wf()
    &&& inflight.id <= env.eventgen.id
    &&& !env.eventgen.events@.contains_key(inflight.id)
    &&& forall|id: u32|
        #[trigger] env.eventgen.events@.contains_key(id) ==> key_le(
            inflight.time,
            inflight.id,
            env.eventgen.events@[id].time,
            id,
        )
    &&& forall|r: int, c: int, ch: int|
        0 <= r < 7 && 0 <= c < 7 && 0 <= ch < 70 ==> (#[trigger] env.grid.at(r, c, ch)
            <==> (env.eventgen.end_ids@.contains_key((spec_end_key(r, c, ch) as u64)) || (
            inflight.etype == EType::END && inflight.cell.row == r && inflight.cell.col == c
                && inflight.ch == Some(ch as usize))))
    &&& inflight.etype == EType::END ==> !env.eventgen.end_ids@.contains_key(
        (end_key_of(inflight) as u64),
    )
    &&& spec_n_used(env.grid) == stats_in_progress(env.stats)
    &&& env.stats.n_arrivals_new == env.stats.n_accepted_new + env.stats.n_rejected_new
}

/// The pool of pending events after one step's scheduling and before its
/// pop, `nb` naming the drawn hand-off destination where one was drawn: a
/// NEW event schedules its successor arrival in the same cell, and when
/// accepted either the END of the call or, on a drawn hand-off, the END
/// toward `nb` and the HOFF arrival there under the next two ids; an
/// accepted HOFF schedules the END of the arrived call; an END schedules
/// nothing, but when the agent freed a channel other than the one whose
/// call ended, the freed channel's pending END is retargeted to the ended
/// one.
pub open spec fn step_pool(
    env0: Env,
    event: Event,
    action: Option<usize>,
    rnd: StepRand,
    nb: Cell,
) -> Map<u32, Event> {
    let m0 = env0.eventgen.events@;
    let gid = env0.eventgen.id;
    let t = event.time;
    if event.etype == EType::NEW {
        let m1 = m0.insert(
            (gid + 1) as u32,
            Event {
                id: (gid + 1) as u32,
                time: (t + rnd.dt_new) as u64,
                etype: EType::NEW,
                cell: event.cell,
                ch: None,
                to_cell: None,
            },
        );
        if action is Some {
            if rnd.hoff {
                m1.insert(
                    (gid + 2) as u32,
                    Event {
                        id: (gid + 2) as u32,
                        time: (t + rnd.dt_hold) as u64,
                        etype: EType::END,
                        cell: event.cell,
                        ch: action,
                        to_cell: Some(nb),
                    },
                ).insert(
                    (gid + 3) as u32,
                    Event {
                        id: (gid + 3) as u32,
                        time: (t + rnd.dt_hold) as u64,
                        etype: EType::HOFF,
                        cell: nb,
                        ch: None,
                        to_cell: None,
                    },
                )
            } else {
                m1.insert(
                    (gid + 2) as u32,
                    Event {
                        id: (gid + 2) as u32,
                        time: (t + rnd.dt_hold) as u64,
                        etype: EType::END,
                        cell: event.cell,
                        ch: action,
                        to_cell: None,
                    },
                )
            }
        } else {
            m1
        }
    } else if event.etype == EType::HOFF {
        if action is Some {
            m0.insert(
                (gid + 1) as u32,
                Event {
                    id: (gid + 1) as u32,
                    time: (t + rnd.dt_hold) as u64,
                    etype: EType::END,
                    cell: event.cell,
                    ch: action,
                    to_cell: None,
                },
            )
        } else {
            m0
        }
    } else {
        if action is Some && action.unwrap() != event.ch.unwrap() {
            let id0 = env0.eventgen.end_ids@[(spec_end_key(
                event.cell.row as int,
                event.cell.col as int,
                action.unwrap() as int,
            ) as u64)];
            m0.insert(id0, Event { ch: event.ch, ..m0[id0] })
        } else {
            m0
        }
    }
}

/// The drawn hand-off destination is a distance-1 neighbor of the cell;
/// where no hand-off was drawn, nothing is asked of `nb`.
pub open spec fn hoff_dest_ok(event: Event, action: Option<usize>, rnd: StepRand, nb: Cell) -> bool {
    event.etype == EType::NEW && action is Some && rnd.hoff ==> nb.valid() && !(nb.row
        == event.cell.row && nb.col == event.cell.col) && spec_hex_distance(
        event.cell.row as int,
        event.cell.col as int,
        nb.row as int,
        nb.col as int,
    ) <= 1
}

/// The pool of the first `k` initial arrivals: one NEW event per cell in
/// row-major order, the event for cell `(r, c)` carrying id `7*r + c + 1`
/// and the sampled delay `dts[7*r + c]` as its time.
pub open spec fn initial_pool_upto(dts: Seq<u64>, k: int) -> Map<u32, Event>
    decreases k,
{
    if k <= 0 {
        Map::empty()
    } else {
        initial_pool_upto(dts, k - 1).insert(
            k as u32,
            Event {
                id: k as u32,
                time: dts[k - 1],
                etype: EType::NEW,
                cell: Cell { row: ((k - 1) / 7) as usize, col: ((k - 1) % 7) as usize },
                ch: None,
                to_cell: None,
            },
        )
    }
}

/// The pool of all 49 initial arrivals, one NEW event per cell.
pub open spec fn initial_pool(dts: Seq<u64>) -> Map<u32, Event> {
    initial_pool_upto(dts, 49)
}

impl Env {
    /// Initialize an environment with an empty grid and one NEW arrival per
    /// cell at time zero plus its sampled delay (`dts`, one per cell in
    /// row-major order), pop the earliest of the 49, and return it with the
    /// environment; the other 48 arrivals remain pending.
    pub fn new(verify_grid: bool, dts: &Vec<u64>) -> (res: (Env, Event))
        requires
            dts@.len() == 49,
        ensures
            env_inv(res.0, res.1),
            res.0.verify_grid == verify_grid,
            res.1.etype == EType::NEW,
            // the returned event is one of the 49 scheduled arrivals, and
            // exactly the others remain pending
            initial_pool(dts@).contains_key(res.1.id),
            res.1 == initial_pool(dts@)[res.1.id],
            res.0.eventgen.events@ == initial_pool(dts@).remove(res.1.id),
            // it is the earliest of them, ids breaking ties
            forall|id: u32|
                #[trigger] initial_pool(dts@).contains_key(id) ==> key_le(
                    res.1.time,
                    res.1.id,
                    initial_pool(dts@)[id].time,
                    id,
                ),
            res.0.stats == (Stats {
                n_curr_arrivals_new: 0u64,
                n_arrivals_new: 0u64,
                n_accepted_new: 0u64,
                n_arrivals_hoff: 0u64,
                n_ended: 0u64,
                n_curr_rejected_new: 0u64,
                n_rejected_new: 0u64,
                n_rejected_hoff: 0u64,
            }),
            forall|r: int, c: int, ch: int|
                0 <= r < 7 && 0 <= c < 7 && 0 <= ch < 70 ==> !res.0.grid.at(r, c, ch),
    {
        let grid = Grid::new();
        let mut eventgen = EventGen::new();
        for r in 0..7usize
            invariant
                dts@.len() == 49,
                eventgen.wf(),
                eventgen.id == 7 * r,
                eventgen.event_pq@.len() == 7 * r,
                eventgen.end_ids@ == Map::<u64, u32>::empty(),
                eventgen.events@ == initial_pool_upto(dts@, 7 * r),
                forall|id: u32|
                    #[trigger] eventgen.events@.contains_key(id) ==> eventgen.events@[id].etype
                        == EType::NEW,
        {
            for c in 0..7usize
                invariant
                    dts@.len() == 49,
                    r < 7,
                    eventgen.wf(),
                    eventgen.id == 7 * r + c,
                    eventgen.event_pq@.len() == 7 * r + c,
                    eventgen.end_ids@ == Map::<u64, u32>::empty(),
                    eventgen.events@ == initial_pool_upto(dts@, 7 * r + c),
                    forall|id: u32|
                        #[trigger] eventgen.events@.contains_key(id) ==> eventgen.events@[id].etype
                            == EType::NEW,
            {
                let dt = dts[r * 7 + c];
                eventgen.event_new(0, dt, Cell { row: r, col: c });
                proof {
                    let k = 7 * r + c + 1;
                    assert((k - 1) / 7 == r as int && (k - 1) % 7 == c as int) by (nonlinear_arith)
                        requires
                            r < 7,
                            c < 7,
                            k == 7 * r + c + 1,
                    ;
                    assert(eventgen.events@ =~= initial_pool_upto(dts@, 7 * r + c + 1));
                }
            }
        }
        let ghost pool = eventgen.events@;
        let event = eventgen.pop();
        let env = Env { verify_grid, grid, stats: Stats::new(), eventgen };
        proof {
            lemma_n_used_zero(env.grid);
            assert(pool == initial_pool(dts@));
            assert forall|id: u32| #[trigger] initial_pool(dts@).contains_key(id) implies key_le(
                event.time,
                event.id,
                initial_pool(dts@)[id].time,
                id,
            ) by {
                if id != event.id {
                    assert(env.eventgen.events@.contains_key(id));
                    assert(env.eventgen.events@[id] == pool[id]);
                }
            }
        }
        (env, event)
    }

    /// Apply the chosen channel to the grid. On an END the channel is
    /// released; if the agent chose to free a channel other than the one
    /// whose call ended, the pending END for the freed channel is
    /// reassigned to the channel that stays in use. On a NEW or HOFF the
    /// channel is granted.
    pub fn execute_action(&mut self, event: Event, ch: usize)
        requires
            old(self).grid.wf(),
            old(self).eventgen.wf(),
            event.wf(),
            ch < 70,
            event.etype == EType::END ==> old(self).grid.at(
                event.cell.row as int,
                event.cell.col as int,
                event.ch.unwrap() as int,
            ),
            event.etype == EType::END && event.ch.unwrap() != ch ==> old(self).grid.at(
                event.cell.row as int,
                event.cell.col as int,
                ch as int,
            ) && old(self).eventgen.end_ids@.contains_key(
                (spec_end_key(event.cell.row as int, event.cell.col as int, ch as int) as u64),
            ) && !old(self).eventgen.end_ids@.contains_key((end_key_of(event) as u64)),
            event.etype != EType::END ==> !old(self).grid.at(
                event.cell.row as int,
                event.cell.col as int,
                ch as int,
            ),
        ensures
            final(self).grid.wf(),
            final(self).eventgen.wf(),
            final(self).verify_grid == old(self).verify_grid,
            final(self).stats == old(self).stats,
            grid_agree_except(
                old(self).grid,
                final(self).grid,
                event.cell.row as int,
                event.cell.col as int,
                ch as int,
            ),
            final(self).grid.at(event.cell.row as int, event.cell.col as int, ch as int) == (
            event.etype != EType::END),
            final(self).eventgen.id == old(self).eventgen.id,
            final(self).eventgen.event_pq@ == old(self).eventgen.event_pq@,
            final(self).eventgen.events@.dom() == old(self).eventgen.events@.dom(),
            event.etype == EType::END && event.ch.unwrap() != ch ==> ({
                let kfrom = (spec_end_key(
                    event.cell.row as int,
                    event.cell.col as int,
                    ch as int,
                ) as u64);
                let kto = (end_key_of(event) as u64);
                let id0 = old(self).eventgen.end_ids@[kfrom];
                &&& final(self).eventgen.end_ids@ == old(self).eventgen.end_ids@.remove(
                    kfrom,
                ).insert(kto, id0)
                &&& final(self).eventgen.events@[id0] == (Event {
                    ch: event.ch,
                    ..old(self).eventgen.events@[id0]
                })
                &&& forall|id: u32|
                    old(self).eventgen.events@.contains_key(id) && id != id0
                        ==> final(self).eventgen.events@[id] == old(self).eventgen.events@[id]
            }),
            !(event.etype == EType::END && event.ch.unwrap() != ch) ==> final(self).eventgen == old(
                self,
            ).eventgen,
    {
        let r = event.cell.row;
        let c = event.cell.col;
        match event.etype {
            EType::END => {
                let reass_ch = event.ch.unwrap();
                if reass_ch != ch {
                    proof {
                        lemma_key_eq_iff(
                            event.cell.row as int,
                            event.cell.col as int,
                            ch as int,
                            event.cell.row as int,
                            event.cell.col as int,
                            reass_ch as int,
                        );
                    }
                    self.eventgen.reassign(event.cell, ch, reass_ch);
                }
                self.grid.set(r, c, ch, false);
            },
            _ => {
                self.grid.set(r, c, ch, true);
            },
        }
    }

    /// Process one event with the agent's chosen action. A NEW arrival is
    /// counted, its successor is scheduled, and if accepted the call either
    /// hands off or terminates later in its cell; a HOFF arrival, if
    /// accepted, schedules its own departure; an END releases its channel,
    /// reassigning the pending END when the agent freed a different
    /// channel. The reward is the number of channels then in use, and the
    /// next event is popped.
    #[verifier::rlimit(80)]
    pub fn step(
        &mut self,
        neighs: &Neighs,
        event: Event,
        action: Option<usize>,
        rnd: &StepRand,
    ) -> (res: (usize, Event))
        requires
            env_inv(*old(self), event),
            neighs.wf(),
            old(self).eventgen.event_pq@.len() >= 1,
            action is Some ==> action.unwrap() < 70,
            event.etype == EType::END ==> action is Some,
            event.etype == EType::END ==> old(self).grid.at(
                event.cell.row as int,
                event.cell.col as int,
                event.ch.unwrap() as int,
            ),
            event.etype == EType::END && action is Some && action.unwrap() != event.ch.unwrap()
                ==> old(self).grid.at(
                event.cell.row as int,
                event.cell.col as int,
                action.unwrap() as int,
            ),
            event.etype != EType::END && action is Some ==> !old(self).grid.at(
                event.cell.row as int,
                event.cell.col as int,
                action.unwrap() as int,
            ),
            old(self).eventgen.id + 3 <= u32::MAX,
            event.time + rnd.dt_new <= u64::MAX,
            event.time + rnd.dt_hold <= u64::MAX,
            old(self).stats.n_curr_arrivals_new < u64::MAX,
            old(self).stats.n_arrivals_new < u64::MAX,
            old(self).stats.n_accepted_new < u64::MAX,
            old(self).stats.n_arrivals_hoff < u64::MAX,
            old(self).stats.n_ended < u64::MAX,
            old(self).stats.n_curr_rejected_new < u64::MAX,
            old(self).stats.n_rejected_new < u64::MAX,
            old(self).stats.n_rejected_hoff < u64::MAX,
            old(self).verify_grid ==> spec_reuse_ok(old(self).grid) && (action is Some
                && event.etype != EType::END ==> spec_eligible(
                old(self).grid,
                event.cell.row as int,
                event.cell.col as int,
                action.unwrap() as int,
            )),
        ensures
            env_inv(*final(self), res.1),
            final(self).verify_grid == old(self).verify_grid,
            res.0 == spec_n_used(final(self).grid),
            res.1.time >= event.time,
            // the grid gains the granted channel or loses the released one
            action is Some ==> grid_agree_except(
                old(self).grid,
                final(self).grid,
                event.cell.row as int,
                event.cell.col as int,
                action.unwrap() as int,
            ) && final(self).grid.at(
                event.cell.row as int,
                event.cell.col as int,
                action.unwrap() as int,
            ) == (event.etype != EType::END),
            action is None ==> grid_eq(old(self).grid, final(self).grid),
            // a legal action preserves the reuse constraint
            spec_reuse_ok(old(self).grid) && (action is Some && event.etype != EType::END
                ==> spec_eligible(
                old(self).grid,
                event.cell.row as int,
                event.cell.col as int,
                action.unwrap() as int,
            )) ==> spec_reuse_ok(final(self).grid),
            // exact counter updates
            event.etype == EType::NEW && action is Some ==> final(self).stats == (Stats {
                n_curr_arrivals_new: (old(self).stats.n_curr_arrivals_new + 1) as u64,
                n_arrivals_new: (old(self).stats.n_arrivals_new + 1) as u64,
                n_accepted_new: (old(self).stats.n_accepted_new + 1) as u64,
                ..old(self).stats
            }),
            event.etype == EType::NEW && action is None ==> final(self).stats == (Stats {
                n_curr_arrivals_new: (old(self).stats.n_curr_arrivals_new + 1) as u64,
                n_arrivals_new: (old(self).stats.n_arrivals_new + 1) as u64,
                n_rejected_new: (old(self).stats.n_rejected_new + 1) as u64,
                n_curr_rejected_new: (old(self).stats.n_curr_rejected_new + 1) as u64,
                ..old(self).stats
            }),
            event.etype == EType::HOFF && action is Some ==> final(self).stats == (Stats {
                n_arrivals_hoff: (old(self).stats.n_arrivals_hoff + 1) as u64,
                ..old(self).stats
            }),
            event.etype == EType::HOFF && action is None ==> final(self).stats == (Stats {
                n_arrivals_hoff: (old(self).stats.n_arrivals_hoff + 1) as u64,
                n_rejected_hoff: (old(self).stats.n_rejected_hoff + 1) as u64,
                ..old(self).stats
            }),
            event.etype == EType::END ==> final(self).stats == (Stats {
                n_ended: (old(self).stats.n_ended + 1) as u64,
                ..old(self).stats
            }),
            // the returned event is popped from the pool of old and newly
            // scheduled events, and exactly the others remain pending
            exists|nb: Cell|
                #![auto]
                {
                    &&& hoff_dest_ok(event, action, *rnd, nb)
                    &&& step_pool(*old(self), event, action, *rnd, nb).contains_key(res.1.id)
                    &&& res.1 == step_pool(*old(self), event, action, *rnd, nb)[res.1.id]
                    &&& final(self).eventgen.events@ == step_pool(
                        *old(self),
                        event,
                        action,
                        *rnd,
                        nb,
                    ).remove(res.1.id)
                },
            // no hand-off event is scheduled unless one was drawn on an
            // accepted fresh call
            !(event.etype == EType::NEW && action is Some && rnd.hoff) ==> forall|id: u32|
                #[trigger] final(self).eventgen.events@.contains_key(id)
                    && final(self).eventgen.events@[id].etype == EType::HOFF ==> old(
                    self,
                ).eventgen.events@.contains_key(id),
    {
        let time = event.time;
        let cell = event.cell;
        let ghost mut nbw: Cell = Cell { row: 0, col: 0 };
        match event.etype {
            EType::NEW => {
                self.stats.event_arrival_new();
                self.eventgen.event_new(time, rnd.dt_new, cell);
                let ghost g1 = self.eventgen;
                match action {
                    Some(ch) => {
                        self.stats.event_accept_new();
                        proof {
                            // the granted channel has no pending END
                            assert(!old(self).eventgen.end_ids@.contains_key(
                                (spec_end_key(
                                    cell.row as int,
                                    cell.col as int,
                                    ch as int,
                                ) as u64),
                            ));
                        }
                        if rnd.hoff {
                            self.eventgen.event_hoff_new(neighs, time, rnd.dt_hold, cell, ch);
                            proof {
                                // name the drawn hand-off destination
                                nbw = choose|nb: Cell|
                                    #![auto]
                                    nb.valid() && !(nb.row == cell.row && nb.col == cell.col)
                                        && spec_hex_distance(
                                        cell.row as int,
                                        cell.col as int,
                                        nb.row as int,
                                        nb.col as int,
                                    ) <= 1 && self.eventgen.events@ == g1.events@.insert(
                                        (g1.id + 1) as u32,
                                        (Event {
                                            id: (g1.id + 1) as u32,
                                            time: (time + rnd.dt_hold) as u64,
                                            etype: EType::END,
                                            cell,
                                            ch: Some(ch),
                                            to_cell: Some(nb),
                                        }),
                                    ).insert(
                                        (g1.id + 2) as u32,
                                        (Event {
                                            id: (g1.id + 2) as u32,
                                            time: (time + rnd.dt_hold) as u64,
                                            etype: EType::HOFF,
                                            cell: nb,
                                            ch: None,
                                            to_cell: None,
                                        }),
                                    );
                                assert(self.eventgen.events@ =~= step_pool(
                                    *old(self),
                                    event,
                                    action,
                                    *rnd,
                                    nbw,
                                ));
                            }
                        } else {
                            self.eventgen.event_end(time, rnd.dt_hold, cell, ch);
                            proof {
                                assert(self.eventgen.events@ =~= step_pool(
                                    *old(self),
                                    event,
                                    action,
                                    *rnd,
                                    nbw,
                                ));
                            }
                        }
                    },
                    None => {
                        self.stats.event_reject_new();
                        proof {
                            assert(self.eventgen.events@ =~= step_pool(
                                *old(self),
                                event,
                                action,
                                *rnd,
                                nbw,
                            ));
                        }
                    },
                }
            },
            EType::HOFF => {
                self.stats.event_arrival_hoff();
                match action {
                    Some(ch) => {
                        proof {
                            assert(!old(self).eventgen.end_ids@.contains_key(
                                (spec_end_key(
                                    cell.row as int,
                                    cell.col as int,
                                    ch as int,
                                ) as u64),
                            ));
                        }
                        self.eventgen.event_hoff_end(time, rnd.dt_hold, cell, ch);
                        proof {
                            assert(self.eventgen.events@ =~= step_pool(
                                *old(self),
                                event,
                                action,
                                *rnd,
                                nbw,
                            ));
                        }
                    },
                    None => {
                        self.stats.event_reject_hoff();
                        proof {
                            assert(self.eventgen.events@ =~= step_pool(
                                *old(self),
                                event,
                                action,
                                *rnd,
                                nbw,
                            ));
                        }
                    },
                }
            },
            EType::END => {
                self.stats.event_end();
            },
        }
        let ghost mid = *self;
        match action {
            Some(ch) => {
                proof {
                    if event.etype == EType::END && event.ch.unwrap() != ch {
                        // the channel the agent frees still has its pending
                        // END, and the ended channel's END was just popped
                        assert(mid.eventgen.end_ids@.contains_key(
                            (spec_end_key(cell.row as int, cell.col as int, ch as int) as u64),
                        ));
                        assert(!mid.eventgen.end_ids@.contains_key((end_key_of(event) as u64)));
                    }
                }
                self.execute_action(event, ch);
            },
            None => {},
        }
        proof {
            // the pending pool now holds the old events plus exactly what
            // this step scheduled or retargeted
            assert(self.eventgen.events@ =~= step_pool(*old(self), event, action, *rnd, nbw)) by {
                if event.etype == EType::END {
                    if action is Some && action.unwrap() != event.ch.unwrap() {
                        let m0 = old(self).eventgen.events@;
                        let id0 = old(self).eventgen.end_ids@[(spec_end_key(
                            event.cell.row as int,
                            event.cell.col as int,
                            action.unwrap() as int,
                        ) as u64)];
                        assert(mid.eventgen == old(self).eventgen);
                        assert(self.eventgen.events@.dom() =~= m0.insert(
                            id0,
                            (Event { ch: event.ch, ..m0[id0] }),
                        ).dom());
                        assert forall|id: u32| self.eventgen.events@.dom().contains(id)
                            implies #[trigger] self.eventgen.events@[id] == m0.insert(
                            id0,
                            (Event { ch: event.ch, ..m0[id0] }),
                        )[id] by {
                            if id != id0 {
                                assert(self.eventgen.events@[id] == m0[id]);
                            }
                        }
                    } else {
                        assert(self.eventgen == old(self).eventgen);
                    }
                }
            }
            assert(hoff_dest_ok(event, action, *rnd, nbw));
        }
        proof {
            // between the update and the pop, occupancy and the END index
            // agree exactly
            assert forall|r: int, c: int, ch: int|
                0 <= r < 7 && 0 <= c < 7 && 0 <= ch < 70 implies (#[trigger] self.grid.at(r, c, ch)
                <==> self.eventgen.end_ids@.contains_key(
                (spec_end_key(r, c, ch) as u64),
            )) by {
                assert(old(self).grid.at(r, c, ch) <==> (old(self).eventgen.end_ids@.contains_key(
                    (spec_end_key(r, c, ch) as u64),
                ) || (event.etype == EType::END && event.cell.row == r && event.cell.col == c
                    && event.ch == Some(ch as usize))));
                if event.etype == EType::END {
                    lemma_key_eq_iff(r, c, ch, event.cell.row as int, event.cell.col as int,
                        event.ch.unwrap() as int);
                }
                if action is Some {
                    lemma_key_eq_iff(r, c, ch, event.cell.row as int, event.cell.col as int,
                        action.unwrap() as int);
                }
            }
            assert(grid_matches_ends(self.grid, self.eventgen));
            // everything pending is no earlier than the event in flight
            assert forall|id: u32| #[trigger] self.eventgen.events@.contains_key(id) implies key_le(
                event.time,
                event.id,
                self.eventgen.events@[id].time,
                id,
            ) by {
                if old(self).eventgen.events@.contains_key(id) {
                    assert(key_le(event.time, event.id, old(self).eventgen.events@[id].time, id));
                }
            }
            // the channels in use still balance the counters
            if action is Some {
                lemma_n_used_agree_except(
                    old(self).grid,
                    self.grid,
                    event.cell.row as int,
                    event.cell.col as int,
                    action.unwrap() as int,
                );
            }
            // a legal action preserves the reuse constraint
            if spec_reuse_ok(old(self).grid) {
                if action is Some {
                    if event.etype == EType::END {
                        lemma_clear_preserves_reuse(
                            old(self).grid,
                            self.grid,
                            event.cell.row as int,
                            event.cell.col as int,
                            action.unwrap() as int,
                        );
                    } else if spec_eligible(
                        old(self).grid,
                        event.cell.row as int,
                        event.cell.col as int,
                        action.unwrap() as int,
                    ) {
                        lemma_set_eligible_preserves_reuse(
                            old(self).grid,
                            self.grid,
                            event.cell.row as int,
                            event.cell.col as int,
                            action.unwrap() as int,
                        );
                    }
                }
            }
        }
        if self.verify_grid {
            let ok = validate_reuse_constraint(&self.grid);
            match ok {
                Ok(_) => {},
                Err(_) => {
                    proof {
                        assert(false);
                    }
                },
            }
        }
        let reward = n_used(&self.grid);
        let ghost pre_pop = *self;
        let next = self.eventgen.pop();
        proof {
            // the next event is no earlier than the one just processed
            assert(key_le(event.time, event.id, next.time, next.id));
            // occupancy, the END index and the new in-flight event satisfy
            // the invariant again
            assert forall|r: int, c: int, ch: int|
                0 <= r < 7 && 0 <= c < 7 && 0 <= ch < 70 implies (#[trigger] self.grid.at(r, c, ch)
                <==> (self.eventgen.end_ids@.contains_key((spec_end_key(r, c, ch) as u64)) || (
            next.etype == EType::END && next.cell.row == r && next.cell.col == c && next.ch == Some(
                ch as usize,
            )))) by {
                if next.etype == EType::END {
                    lemma_key_eq_iff(
                        r,
                        c,
                        ch,
                        next.cell.row as int,
                        next.cell.col as int,
                        next.ch.unwrap() as int,
                    );
                    assert(pre_pop.eventgen.end_ids@.contains_key((end_key_of(next) as u64)));
                }
            }
            // the returned event came out of the scheduled pool, which now
            // holds exactly the others
            assert(pre_pop.eventgen.events@ == step_pool(*old(self), event, action, *rnd, nbw));
            assert(step_pool(*old(self), event, action, *rnd, nbw).contains_key(next.id));
            assert(next == step_pool(*old(self), event, action, *rnd, nbw)[next.id]);
            assert(self.eventgen.events@ == step_pool(
                *old(self),
                event,
                action,
                *rnd,
                nbw,
            ).remove(next.id));
        }
        (reward, next)
    }
}

/// Number of channels below `lim` at cell `(r, c)` that have a pending END
/// entry in the index.
pub open spec fn count_ends_cell_upto(gen: EventGen, r: int, c: int, lim: int) -> int
    decreases lim,
{
    if lim <= 0 {
        0
    } else {
        count_ends_cell_upto(gen, r, c, lim - 1) + if gen.end_ids@.contains_key(
            (spec_end_key(r, c, lim - 1) as u64),
        ) {
            1int
        } else {
            0int
        }
    }
}

/// Number of pending END entries over the first `k` cells in row-major
/// order.
pub open spec fn count_ends_upto(gen: EventGen, k: int) -> int
    decreases k,
{
    if k <= 0 {
        0
    } else {
        count_ends_upto(gen, k - 1) + count_ends_cell_upto(gen, (k - 1) / 7, (k - 1) % 7, 70)
    }
}

/// Number of entries of the END index; by the generator invariant that
/// index is a bijection onto the pending END events, so this is the number
/// of END events currently scheduled and not yet processed.
pub open spec fn spec_pending_ends(gen: EventGen) -> int {
    count_ends_upto(gen, 49)
}

proof fn lemma_cell_used_counts_ends(env: Env, inflight: Event, r: int, c: int, lim: int)
    requires
        env_inv(env, inflight),
        0 <= r < 7,
        0 <= c < 7,
        0 <= lim <= 70,
    ensures
        crate::gridfuncs::cell_used_upto(env.grid, r, c, lim) == count_ends_cell_upto(
            env.eventgen,
            r,
            c,
            lim,
        ) + if inflight.etype == EType::END && inflight.cell.row == r && inflight.cell.col == c
            && inflight.ch.unwrap() < lim {
            1int
        } else {
            0int
        },
    decreases lim,
{
    if lim > 0 {
        lemma_cell_used_counts_ends(env, inflight, r, c, lim - 1);
        let ch = lim - 1;
        assert(env.grid.at(r, c, ch) <==> (env.eventgen.end_ids@.contains_key(
            (spec_end_key(r, c, ch) as u64),
        ) || (inflight.etype == EType::END && inflight.cell.row == r && inflight.cell.col == c
            && inflight.ch == Some(ch as usize))));
        if inflight.etype == EType::END && inflight.cell.row == r && inflight.cell.col == c
            && inflight.ch == Some(ch as usize) {
            // the in-flight END left the index when it was popped
            assert(end_key_of(inflight) == spec_end_key(r, c, ch));
            assert(!env.eventgen.end_ids@.contains_key((spec_end_key(r, c, ch) as u64)));
        }
    }
}

proof fn lemma_n_used_counts_ends_upto(env: Env, inflight: Event, k: int)
    requires
        env_inv(env, inflight),
        0 <= k <= 49,
    ensures
        crate::gridfuncs::n_used_upto(env.grid, k) == count_ends_upto(env.eventgen, k)
            + if inflight.etype == EType::END && inflight.cell.row * 7 + inflight.cell.col < k {
            1int
        } else {
            0int
        },
    decreases k,
{
    if k > 0 {
        lemma_n_used_counts_ends_upto(env, inflight, k - 1);
        let kr = (k - 1) / 7;
        let kc = (k - 1) % 7;
        assert(0 <= kr < 7 && 0 <= kc < 7 && kr * 7 + kc == k - 1) by (nonlinear_arith)
            requires
                0 < k <= 49,
                kr == (k - 1) / 7,
                kc == (k - 1) % 7,
        ;
        lemma_cell_used_counts_ends(env, inflight, kr, kc, 70);
        if inflight.etype == EType::END {
            if inflight.cell.row == kr && inflight.cell.col == kc {
                assert(inflight.cell.row * 7 + inflight.cell.col == k - 1);
                assert(inflight.ch.unwrap() < 70);
            } else if inflight.cell.row * 7 + inflight.cell.col == k - 1 {
                assert((inflight.cell.row * 7 + inflight.cell.col) / 7 == inflight.cell.row as int
                    && (inflight.cell.row * 7 + inflight.cell.col) % 7
                    == inflight.cell.col as int) by (nonlinear_arith)
                    requires
                        inflight.cell.row < 7,
                        inflight.cell.col < 7,
                ;
                assert(false);
            }
        }
    }
}

/// The channels in use are the END events scheduled and not yet processed:
/// between steps, `n_used` of the grid equals the number of pending END
/// entries, plus one for the in-flight event when it is itself an END whose
/// channel has not been released yet.
pub proof fn lemma_n_used_counts_pending_ends(env: Env, inflight: Event)
    requires
        env_inv(env, inflight),
    ensures
        spec_n_used(env.grid) == spec_pending_ends(env.eventgen) + if inflight.etype
            == EType::END {
            1int
        } else {
            0int
        },
{
    lemma_n_used_counts_ends_upto(env, inflight, 49);
    if inflight.etype == EType::END {
        assert(inflight.cell.row * 7 + inflight.cell.col < 49) by (nonlinear_arith)
            requires
                inflight.cell.row < 7,
                inflight.cell.col < 7,
        ;
    }
}

} // verus!
