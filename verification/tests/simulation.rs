use dca_sim::Cell;
use dca_sim::eventgen::{EType, Event, EventGen};
use dca_sim::environment::{Env, StepRand};
use dca_sim::gridfuncs::{Grid, n_used};
use dca_sim::frep::feature_rep;
use dca_sim::neighs::generate_neighs;
use dca_sim::agent::{get_action_candidates, hla_afterstate_freps};
use dca_sim::filters::{foo, foo2, bar, bar2, ErrNegative};
use dca_sim::hex_distance;
use dca_sim::stats::Stats;

#[test]
fn test_pop_orders_by_time_then_id() {
    let mut gen = EventGen::new();
    let cell = Cell { row: 0, col: 0 };
    gen.event_new(0, 50, Cell { row: 1, col: 1 });
    gen.event_new(0, 10, Cell { row: 2, col: 2 });
    gen.event_new(0, 10, Cell { row: 3, col: 3 });
    gen.event_new(0, 5, cell);
    let e1 = gen.pop();
    let e2 = gen.pop();
    let e3 = gen.pop();
    let e4 = gen.pop();
    assert_eq!(e1.time, 5);
    assert_eq!(e1.cell, Cell { row: 0, col: 0 });
    // equal times pop in increasing id order
    assert_eq!((e2.time, e2.cell.row), (10, 2));
    assert_eq!((e3.time, e3.cell.row), (10, 3));
    assert!(e2.id < e3.id);
    assert_eq!(e4.time, 50);
    assert!(e1.time <= e2.time && e2.time <= e3.time && e3.time <= e4.time);
}

#[test]
fn test_event_end_and_pop_clears_end_index() {
    let mut gen = EventGen::new();
    let cell = Cell { row: 2, col: 5 };
    let end_t = gen.event_end(100, 30, cell, 7);
    assert_eq!(end_t, 130);
    let e = gen.pop();
    assert_eq!(e.etype, EType::END);
    assert_eq!(e.time, 130);
    assert_eq!(e.cell, cell);
    assert_eq!(e.ch, Some(7));
    assert_eq!(e.to_cell, None);
}

#[test]
fn test_reassign_moves_end_entry() {
    let mut gen = EventGen::new();
    let cell = Cell { row: 3, col: 3 };
    gen.event_end(0, 20, cell, 4);
    gen.event_end(0, 40, cell, 9);
    // the call on channel 4 will now end as a call on channel 2
    gen.reassign(cell, 4, 2);
    let e1 = gen.pop();
    assert_eq!(e1.etype, EType::END);
    assert_eq!(e1.time, 20);
    assert_eq!(e1.ch, Some(2));
    let e2 = gen.pop();
    assert_eq!(e2.ch, Some(9));
}

#[test]
fn test_event_hoff_new_schedules_pair() {
    let mut gen = EventGen::new();
    let neighs = generate_neighs();
    let cell = Cell { row: 6, col: 0 };
    gen.event_hoff_new(&neighs, 10, 25, cell, 33);
    let dep = gen.pop();
    let arr = gen.pop();
    // the departure pops first: same time, smaller id
    assert_eq!(dep.etype, EType::END);
    assert_eq!(arr.etype, EType::HOFF);
    assert_eq!(dep.time, 35);
    assert_eq!(arr.time, 35);
    assert!(dep.id < arr.id);
    assert_eq!(dep.cell, cell);
    assert_eq!(dep.ch, Some(33));
    // the arrival cell is a uniformly drawn distance-1 neighbor
    let to = dep.to_cell.expect("departure names the arrival cell");
    assert_eq!(arr.cell, to);
    assert_ne!(to, cell);
    assert_eq!(
        hex_distance(cell.row as i8, cell.col as i8, to.row as i8, to.col as i8),
        1
    );
    assert_eq!(arr.ch, None);
    assert_eq!(arr.to_cell, None);
}

fn fixed_dts() -> Vec<u64> {
    // distinct inter-arrival delays, one per cell, spaced so that a short
    // call ends before the next arrival comes in
    (0..49u64).map(|i| 10 + 1000 * i).collect()
}

#[test]
fn test_env_new_pops_earliest_arrival() {
    let (env, event) = Env::new(false, &fixed_dts());
    assert_eq!(event.etype, EType::NEW);
    assert_eq!(event.time, 10);
    assert_eq!(event.cell, Cell { row: 0, col: 0 });
    assert_eq!(n_used(&env.grid), 0);
    assert_eq!(env.stats.n_arrivals_new, 0);
}

#[test]
fn test_step_accept_and_end_roundtrip() {
    let neighs = generate_neighs();
    let (mut env, e0) = Env::new(true, &fixed_dts());
    let frep0 = feature_rep(&env.grid);
    // accept the first arrival on an eligible channel; no hand-off
    let chs = get_action_candidates(&env.grid, &e0);
    assert_eq!(chs.len(), 70);
    let ch = chs[0];
    let rnd = StepRand { dt_new: 1_000_000, hoff: false, dt_hold: 7 };
    let (reward, e1) = env.step(&neighs, e0, Some(ch), &rnd);
    assert_eq!(reward, 1);
    assert!(env.grid.get(e0.cell.row, e0.cell.col, ch));
    assert_eq!(env.stats.n_arrivals_new, 1);
    assert_eq!(env.stats.n_accepted_new, 1);
    assert!(e1.time >= e0.time);
    // the call's END comes before any later arrival; process it
    assert_eq!(e1.etype, EType::END);
    assert_eq!(e1.time, e0.time + 7);
    assert_eq!(e1.ch, Some(ch));
    let (reward2, _e2) = env.step(&neighs, e1, Some(ch), &rnd);
    assert_eq!(reward2, 0);
    // the grid and the feature representation are restored exactly
    let frep2 = feature_rep(&env.grid);
    for r in 0..7 {
        for c in 0..7 {
            for f in 0..71 {
                assert_eq!(frep0.get(r, c, f), frep2.get(r, c, f));
            }
        }
    }
    assert_eq!(env.stats.n_ended, 1);
    // the counters account for every call in progress
    assert_eq!(env.stats.expected_in_progress(), n_used(&env.grid) as i128);
}

#[test]
fn test_step_reject_counts_and_leaves_grid() {
    let neighs = generate_neighs();
    let (mut env, e0) = Env::new(false, &fixed_dts());
    let rnd = StepRand { dt_new: 1_000_000, hoff: false, dt_hold: 7 };
    let (reward, e1) = env.step(&neighs, e0, None, &rnd);
    assert_eq!(reward, 0);
    assert_eq!(env.stats.n_rejected_new, 1);
    assert_eq!(env.stats.n_curr_rejected_new, 1);
    assert_eq!(env.stats.n_accepted_new, 0);
    assert_eq!(n_used(&env.grid), 0);
    assert_eq!(e1.etype, EType::NEW);
}

#[test]
fn test_no_handoffs_when_never_drawn() {
    let neighs = generate_neighs();
    let (mut env, mut event) = Env::new(false, &fixed_dts());
    let rnd = StepRand { dt_new: 500, hoff: false, dt_hold: 40 };
    for _ in 0..200 {
        let chs = get_action_candidates(&env.grid, &event);
        let action = chs.first().copied();
        let (_reward, next) = env.step(&neighs, event, action, &rnd);
        assert_ne!(next.etype, EType::HOFF);
        event = next;
    }
    assert_eq!(env.stats.n_arrivals_hoff, 0);
    assert_eq!(env.stats.n_rejected_hoff, 0);
}

#[test]
fn test_handoff_pair_processed_in_order() {
    let neighs = generate_neighs();
    let (mut env, e0) = Env::new(false, &fixed_dts());
    let chs = get_action_candidates(&env.grid, &e0);
    let ch = chs[0];
    // accept with a hand-off drawn: the call departs its cell and arrives
    // at a neighbor at the same instant
    let rnd = StepRand { dt_new: 1_000_000, hoff: true, dt_hold: 3 };
    let (_r1, dep) = env.step(&neighs, e0, Some(ch), &rnd);
    assert_eq!(dep.etype, EType::END);
    assert_eq!(dep.ch, Some(ch));
    let to = dep.to_cell.expect("hand-off departure names the arrival cell");
    let rnd2 = StepRand { dt_new: 1_000_000, hoff: false, dt_hold: 11 };
    let (_r2, arr) = env.step(&neighs, dep, Some(ch), &rnd2);
    assert_eq!(arr.etype, EType::HOFF);
    assert_eq!(arr.cell, to);
    assert_eq!(arr.time, dep.time);
    assert_eq!(env.stats.n_ended, 1);
    // absorb the hand-off on an eligible channel at the arrival cell
    let achs = get_action_candidates(&env.grid, &arr);
    assert!(!achs.is_empty());
    let (r3, _next) = env.step(&neighs, arr, Some(achs[0]), &rnd2);
    assert_eq!(r3, 1);
    assert_eq!(env.stats.n_arrivals_hoff, 1);
}

#[test]
fn test_action_candidates_by_event_type() {
    let mut grid = Grid::new();
    grid.set(3, 3, 10, true);
    grid.set(3, 3, 20, true);
    let end_ev = Event {
        id: 1,
        time: 0,
        etype: EType::END,
        cell: Cell { row: 3, col: 3 },
        ch: Some(10),
        to_cell: None,
    };
    let chs = get_action_candidates(&grid, &end_ev);
    assert_eq!(chs, vec![10usize, 20]);
    let new_ev = Event { id: 2, time: 0, etype: EType::NEW, ..end_ev };
    let echs = get_action_candidates(&grid, &new_ev);
    // the two in-use channels are not eligible anywhere near (3, 3)
    assert_eq!(echs.len(), 68);
    assert!(!echs.contains(&10) && !echs.contains(&20));
}

#[test]
fn test_hla_freps_match_scratch_feature_rep() {
    let neighs = generate_neighs();
    let mut grid = Grid::new();
    grid.set(2, 2, 0, true);
    grid.set(5, 5, 1, true);
    let frep = feature_rep(&grid);
    let cell = Cell { row: 2, col: 2 };
    let to_cell = Cell { row: 2, col: 3 };
    let batch = hla_afterstate_freps(&neighs, &mut grid, &frep, &cell, 0, &to_cell);
    // releasing channel 0 frees every channel at the arrival cell except
    // the one in use at (5, 5)... which is out of reach, so all 70
    assert_eq!(batch.chs.len(), 70);
    assert_eq!(batch.ha_astates.len(), 70);
    assert_eq!(batch.ha_freps.len(), 70);
    assert!(!batch.astate.get(2, 2, 0));
    for j in (0..batch.chs.len()).step_by(23) {
        let scratch = feature_rep(&batch.ha_astates[j]);
        for r in 0..7 {
            for c in 0..7 {
                for f in 0..71 {
                    assert_eq!(batch.ha_freps[j].get(r, c, f), scratch.get(r, c, f));
                }
            }
        }
    }
    // the working grid is restored
    assert!(grid.get(2, 2, 0));
    assert!(grid.get(5, 5, 1));
    assert_eq!(n_used(&grid), 2);
}

#[test]
fn test_no_candidates_when_all_channels_blocked() {
    // every channel in use one cell away leaves nothing eligible at (3, 3)
    let mut grid = Grid::new();
    for ch in 0..70 {
        grid.set(3, 4, ch, true);
    }
    let new_ev = Event {
        id: 1,
        time: 0,
        etype: EType::NEW,
        cell: Cell { row: 3, col: 3 },
        ch: None,
        to_cell: None,
    };
    let chs = get_action_candidates(&grid, &new_ev);
    assert!(chs.is_empty());
    // a far-away cell is unaffected
    let far_ev = Event { cell: Cell { row: 0, col: 0 }, ..new_ev };
    assert_eq!(get_action_candidates(&grid, &far_ev).len(), 70);
}

#[test]
fn test_stats_counters_and_period_reset() {
    let mut s = Stats::new();
    s.event_arrival_new();
    s.event_arrival_new();
    s.event_accept_new();
    s.event_reject_new();
    s.event_arrival_hoff();
    s.event_reject_hoff();
    s.event_end();
    assert_eq!(s.n_arrivals_new, 2);
    assert_eq!(s.n_curr_arrivals_new, 2);
    assert_eq!(s.n_accepted_new, 1);
    assert_eq!(s.n_rejected_new, 1);
    assert_eq!(s.n_curr_rejected_new, 1);
    assert_eq!(s.n_arrivals_hoff, 1);
    assert_eq!(s.n_rejected_hoff, 1);
    assert_eq!(s.n_ended, 1);
    assert_eq!(s.expected_in_progress(), 0);
    s.reset_log_period();
    assert_eq!(s.n_curr_arrivals_new, 0);
    assert_eq!(s.n_curr_rejected_new, 0);
    assert_eq!(s.n_arrivals_new, 2);
}

#[test]
fn test_filters_agree() {
    let xs = [None, Some(-1), Some(0), Some(1), Some(5)];
    for x in &xs {
        let fx1 = foo(*x);
        let fx2 = foo2(*x);
        assert_eq!(fx1, fx2);
        let bx1 = bar(*x);
        let bx2 = bar2(*x);
        assert_eq!(bx1, bx2);
    }
    assert_eq!(foo(Some(5)), Some(5));
    assert_eq!(foo(Some(-1)), None);
    assert_eq!(bar(None), Err(ErrNegative::V1));
    assert_eq!(bar(Some(0)), Ok(0));
}
