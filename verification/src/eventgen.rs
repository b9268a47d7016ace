//! Event generation: NEW/HOFF/END call events ordered by time with id
//! tie-break, with stable reassignment of pending end events.

use vstd::prelude::*;
use crate::Cell;
use crate::spec_hex_distance;
use crate::neighs::{Neighs, lemma_nbr_seq_props, lemma_nbr1_nonempty};
use std::collections::HashMap;

verus! {

broadcast use vstd::std_specs::hash::group_hash_axioms;

/// The kind of a call event: a fresh arrival, a call termination, or a
/// hand-off arrival.
#[derive(PartialEq, Eq, Clone, Copy, Debug, Structural)]
pub enum EType {
    NEW,
    END,
    HOFF,
}

/// A call event. Times are simulation times in fixed ticks; ids grow
/// monotonically as events are generated. `ch` names the channel in use for
/// END events. `to_cell` is set only on an END that is immediately followed
/// by a HOFF, and names the hand-off arrival cell.
#[derive(Clone, Copy, Debug)]
pub struct Event {
    pub id: u32,
    pub time: u64,
    pub etype: EType,
    pub cell: Cell,
    pub ch: Option<usize>,
    pub to_cell: Option<Cell>,
}

impl Event {
    /// The cell is on the grid; an END event names an in-range channel; a
    /// hand-off destination is on the grid and occurs only on END events.
    pub open spec fn wf(self) -> bool {
        &&& self.cell.valid()
        &&& self.etype == EType::END ==> (self.ch matches Some(ch) && ch < 70)
        &&& self.to_cell matches Some(tc) ==> (tc.valid() && self.etype == EType::END)
    }
}

/// The key of the pending-END index for cell `(r, c)` and channel `ch`.
pub open spec fn spec_end_key(r: int, c: int, ch: int) -> int {
    (r * 7 + c) * 70 + ch
}

/// The end-index key of an END event.
pub open spec fn end_key_of(e: Event) -> int {
    spec_end_key(e.cell.row as int, e.cell.col as int, e.ch.unwrap() as int)
}

/// The end-index key for a cell and a channel.
fn end_key(cell: &Cell, ch: usize) -> (k: u64)
    requires
        cell.valid(),
        ch < 70,
    ensures
        k as int == spec_end_key(cell.row as int, cell.col as int, ch as int),
{
    (cell.row as u64 * 7 + cell.col as u64) * 70 + ch as u64
}

/// Queue order on events: earlier time first, ids breaking ties.
pub open spec fn key_le(t1: u64, id1: u32, t2: u64, id2: u32) -> bool {
    t1 < t2 || (t1 == t2 && id1 <= id2)
}

/// The event generator: a pool of pending events ordered by `(time, id)`,
/// an id map, and an index from `(cell, channel)` to the pending END event
/// for that channel.
pub struct EventGen {
    /// Last event id issued.
    pub id: u32,
    /// Pending `(time, id)` pairs; popping takes the least.
    pub event_pq: Vec<(u64, u32)>,
    /// Pending events by id.
    pub events: HashMap<u32, Event>,
    /// Pending END event ids by end-index key.
    pub end_ids: HashMap<u64, u32>,
}

impl EventGen {
    /// The queue and the maps describe one another: queue entries carry the
    /// times of pending events, each pending event is queued exactly once,
    /// and the END index is a bijection onto the pending END events.
    pub open spec fn wf(self) -> bool {
        &&& forall|i: int|
            0 <= i < self.event_pq@.len() ==> self.events@.contains_key(
                (#[trigger] self.event_pq@[i]).1,
            ) && self.events@[self.event_pq@[i].1].time == self.event_pq@[i].0
        &&& forall|id: u32|
            #[trigger] self.events@.contains_key(id) ==> exists|i: int|
                0 <= i < self.event_pq@.len() && (#[trigger] self.event_pq@[i]).1 == id
        &&& forall|i: int, j: int|
            0 <= i < j < self.event_pq@.len() ==> (#[trigger] self.event_pq@[i]).1
                != (#[trigger] self.event_pq@[j]).1
        &&& forall|id: u32|
            #[trigger] self.events@.contains_key(id) ==> self.events@[id].wf()
                && self.events@[id].id == id && id <= self.id
        &&& forall|k: u64|
            #[trigger] self.end_ids@.contains_key(k) ==> self.events@.contains_key(
                self.end_ids@[k],
            ) && self.events@[self.end_ids@[k]].etype == EType::END && end_key_of(
                self.events@[self.end_ids@[k]],
            ) == k as int
        &&& forall|id: u32|
            self.events@.contains_key(id) && (#[trigger] self.events@[id]).etype == EType::END
                ==> self.end_ids@.contains_key((end_key_of(self.events@[id]) as u64))
                && self.end_ids@[(end_key_of(self.events@[id]) as u64)] == id
    }

    /// A fresh generator with no pending events.
    pub fn new() -> (g: EventGen)
        ensures
            g.wf(),
            g.id == 0,
            g.events@ == Map::<u32, Event>::empty(),
            g.end_ids@ == Map::<u64, u32>::empty(),
            g.event_pq@.len() == 0,
    {
        EventGen {
            id: 0,
            event_pq: Vec::new(),
            events: HashMap::new(),
            end_ids: HashMap::new(),
        }
    }

    /// Insert an event, keyed to pop by smallest time, ties broken by
    /// smallest id. An END event also enters the end index, whose entry
    /// for that cell and channel must be free.
    pub fn push(&mut self, event: Event)
        requires
            old(self).wf(),
            event.wf(),
            !old(self).events@.contains_key(event.id),
            event.id <= old(self).id,
            event.etype == EType::END ==> !old(self).end_ids@.contains_key(
                (end_key_of(event) as u64),
            ),
        ensures
            final(self).wf(),
            final(self).id == old(self).id,
            final(self).events@ == old(self).events@.insert(event.id, event),
            final(self).event_pq@ == old(self).event_pq@.push((event.time, event.id)),
            final(self).end_ids@ == if event.etype == EType::END {
                old(self).end_ids@.insert((end_key_of(event) as u64), event.id)
            } else {
                old(self).end_ids@
            },
    {
        if event.etype == EType::END {
            let ch = event.ch.unwrap();
            let k = end_key(&event.cell, ch);
            self.end_ids.insert(k, event.id);
        }
        self.event_pq.push((event.time, event.id));
        self.events.insert(event.id, event);
        proof {
            let s = *self;
            let o = *old(self);
            assert forall|id: u32| #[trigger] s.events@.contains_key(id) implies exists|i: int|
                0 <= i < s.event_pq@.len() && (#[trigger] s.event_pq@[i]).1 == id by {
                if id == event.id {
                    assert(s.event_pq@[s.event_pq@.len() - 1].1 == id);
                } else {
                    assert(o.events@.contains_key(id));
                    let i = choose|i: int|
                        0 <= i < o.event_pq@.len() && (#[trigger] o.event_pq@[i]).1 == id;
                    assert(s.event_pq@[i].1 == id);
                }
            }
            assert forall|k: u64| #[trigger] s.end_ids@.contains_key(k) implies s.events@
                .contains_key(s.end_ids@[k]) && s.events@[s.end_ids@[k]].etype == EType::END
                && end_key_of(s.events@[s.end_ids@[k]]) == k as int by {
                if event.etype == EType::END && k == (end_key_of(event) as u64) {
                } else {
                    assert(o.end_ids@.contains_key(k));
                    assert(o.end_ids@[k] != event.id);
                }
            }
            assert forall|id: u32|
                s.events@.contains_key(id) && (#[trigger] s.events@[id]).etype == EType::END
                implies s.end_ids@.contains_key((end_key_of(s.events@[id]) as u64))
                && s.end_ids@[(end_key_of(s.events@[id]) as u64)] == id by {
                if id != event.id {
                    assert(o.events@.contains_key(id));
                    if event.etype == EType::END {
                        // the fresh end key differs from every indexed one
                        assert(o.end_ids@.contains_key((end_key_of(o.events@[id]) as u64)));
                        assert((end_key_of(o.events@[id]) as u64) != (end_key_of(event) as u64));
                    }
                }
            }
        }
    }

    /// Remove and return the next event: the pending event with the least
    /// time, ties broken by the least id. An END event also leaves the end
    /// index.
    pub fn pop(&mut self) -> (e: Event)
        requires
            old(self).wf(),
            old(self).event_pq@.len() > 0,
        ensures
            final(self).wf(),
            final(self).id == old(self).id,
            old(self).events@.contains_key(e.id),
            e == old(self).events@[e.id],
            e.wf(),
            final(self).events@ == old(self).events@.remove(e.id),
            final(self).event_pq@.len() == old(self).event_pq@.len() - 1,
            forall|id: u32|
                #[trigger] final(self).events@.contains_key(id) ==> key_le(
                    e.time,
                    e.id,
                    final(self).events@[id].time,
                    id,
                ),
            final(self).end_ids@ == if e.etype == EType::END {
                old(self).end_ids@.remove((end_key_of(e) as u64))
            } else {
                old(self).end_ids@
            },
    {
        let n = self.event_pq.len();
        let mut best: usize = 0;
        for i in 1..n
            invariant
                n == self.event_pq@.len(),
                n > 0,
                best < i,
                forall|j: int|
                    0 <= j < i ==> key_le(
                        self.event_pq@[best as int].0,
                        self.event_pq@[best as int].1,
                        (#[trigger] self.event_pq@[j]).0,
                        self.event_pq@[j].1,
                    ),
        {
            let (bt, bid) = self.event_pq[best];
            let (t, id) = self.event_pq[i];
            if t < bt || (t == bt && id < bid) {
                best = i;
            }
        }
        let ghost opq = self.event_pq@;
        let (_t, id) = self.event_pq.remove(best);
        let event = self.events.remove(&id).unwrap();
        if event.etype == EType::END {
            let ch = event.ch.unwrap();
            let k = end_key(&event.cell, ch);
            self.end_ids.remove(&k);
        }
        proof {
            let s = *self;
            let o = *old(self);
            let b = best as int;
            assert(opq[b].1 == id);
            assert(event == o.events@[id]);
            // every remaining queue entry matches an old entry off `best`
            assert forall|i: int| 0 <= i < s.event_pq@.len() implies (#[trigger] s.event_pq@[i])
                == (if i < b {
                opq[i]
            } else {
                opq[i + 1]
            }) by {}
            assert forall|i: int| 0 <= i < s.event_pq@.len() implies s.events@.contains_key(
                (#[trigger] s.event_pq@[i]).1,
            ) && s.events@[s.event_pq@[i].1].time == s.event_pq@[i].0 by {
                let oi = if i < b {
                    i
                } else {
                    i + 1
                };
                assert(s.event_pq@[i] == opq[oi]);
                assert(opq[oi].1 != id);
            }
            assert forall|rid: u32| #[trigger] s.events@.contains_key(rid) implies exists|i: int|
                0 <= i < s.event_pq@.len() && (#[trigger] s.event_pq@[i]).1 == rid by {
                assert(o.events@.contains_key(rid));
                let i = choose|i: int| 0 <= i < opq.len() && (#[trigger] opq[i]).1 == rid;
                assert(rid != id);
                assert(i != b);
                if i < b {
                    assert(s.event_pq@[i].1 == rid);
                } else {
                    assert(s.event_pq@[i - 1].1 == rid);
                }
            }
            assert forall|i: int, j: int|
                0 <= i < j < s.event_pq@.len() implies (#[trigger] s.event_pq@[i]).1
                != (#[trigger] s.event_pq@[j]).1 by {
                let oi = if i < b {
                    i
                } else {
                    i + 1
                };
                let oj = if j < b {
                    j
                } else {
                    j + 1
                };
                assert(s.event_pq@[i] == opq[oi]);
                assert(s.event_pq@[j] == opq[oj]);
            }
            // minimality among the remaining events
            assert forall|rid: u32| #[trigger] s.events@.contains_key(rid) implies key_le(
                event.time,
                event.id,
                s.events@[rid].time,
                rid,
            ) by {
                let i = choose|i: int| 0 <= i < opq.len() && (#[trigger] opq[i]).1 == rid;
                assert(key_le(opq[b].0, opq[b].1, opq[i].0, opq[i].1));
                assert(o.events@[rid].time == opq[i].0);
                assert(event.time == opq[b].0);
            }
            // the end index keeps exactly the other END events
            if event.etype == EType::END {
                assert forall|k: u64| #[trigger] s.end_ids@.contains_key(k) implies s.events@
                    .contains_key(s.end_ids@[k]) && s.events@[s.end_ids@[k]].etype == EType::END
                    && end_key_of(s.events@[s.end_ids@[k]]) == k as int by {
                    assert(o.end_ids@.contains_key(k));
                    assert(k != (end_key_of(event) as u64));
                    assert(o.end_ids@[k] != id) by {
                        if o.end_ids@[k] == id {
                            assert(end_key_of(o.events@[id]) == k as int);
                        }
                    }
                }
                assert forall|rid: u32|
                    s.events@.contains_key(rid) && (#[trigger] s.events@[rid]).etype == EType::END
                    implies s.end_ids@.contains_key((end_key_of(s.events@[rid]) as u64))
                    && s.end_ids@[(end_key_of(s.events@[rid]) as u64)] == rid by {
                    assert(o.events@.contains_key(rid) && rid != id);
                    assert(o.end_ids@.contains_key((end_key_of(o.events@[rid]) as u64)));
                    assert((end_key_of(o.events@[rid]) as u64) != (end_key_of(event) as u64)) by {
                        if (end_key_of(o.events@[rid]) as u64) == (end_key_of(event) as u64) {
                            assert(o.end_ids@[(end_key_of(o.events@[rid]) as u64)] == rid);
                            assert(o.end_ids@[(end_key_of(event) as u64)] == id);
                        }
                    }
                }
            } else {
                assert forall|k: u64| #[trigger] s.end_ids@.contains_key(k) implies s.events@
                    .contains_key(s.end_ids@[k]) && s.events@[s.end_ids@[k]].etype == EType::END
                    && end_key_of(s.events@[s.end_ids@[k]]) == k as int by {
                    assert(o.end_ids@.contains_key(k));
                    assert(o.end_ids@[k] != id) by {
                        if o.end_ids@[k] == id {
                            assert(o.events@[id].etype == EType::END);
                        }
                    }
                }
            }
        }
        event
    }

    /// Move the pending END event for `(cell, from_ch)` so that it refers
    /// to `to_ch`: the end index drops its entry for the old channel, gains
    /// one for the new channel bound to the same event id, and the pending
    /// event now names the new channel. The queue order is unaffected.
    pub fn reassign(&mut self, cell: Cell, from_ch: usize, to_ch: usize)
        requires
            old(self).wf(),
            cell.valid(),
            from_ch < 70,
            to_ch < 70,
            from_ch != to_ch,
            old(self).end_ids@.contains_key(
                (spec_end_key(cell.row as int, cell.col as int, from_ch as int) as u64),
            ),
            !old(self).end_ids@.contains_key(
                (spec_end_key(cell.row as int, cell.col as int, to_ch as int) as u64),
            ),
        ensures
            final(self).wf(),
            final(self).id == old(self).id,
            final(self).event_pq@ == old(self).event_pq@,
            final(self).end_ids@ == old(self).end_ids@.remove(
                (spec_end_key(cell.row as int, cell.col as int, from_ch as int) as u64),
            ).insert(
                (spec_end_key(cell.row as int, cell.col as int, to_ch as int) as u64),
                old(self).end_ids@[(spec_end_key(
                    cell.row as int,
                    cell.col as int,
                    from_ch as int,
                ) as u64)],
            ),
            final(self).events@.dom() == old(self).events@.dom(),
            ({
                let id0 = old(self).end_ids@[(spec_end_key(
                    cell.row as int,
                    cell.col as int,
                    from_ch as int,
                ) as u64)];
                &&& final(self).events@[id0] == (Event {
                    ch: Some(to_ch),
                    ..old(self).events@[id0]
                })
                &&& forall|id: u32|
                    old(self).events@.contains_key(id) && id != id0
                        ==> final(self).events@[id] == old(self).events@[id]
            }),
    {
        let kfrom = end_key(&cell, from_ch);
        let kto = end_key(&cell, to_ch);
        let id = self.end_ids.remove(&kfrom).unwrap();
        self.end_ids.insert(kto, id);
        let mut ev = self.events.remove(&id).unwrap();
        ev.ch = Some(to_ch);
        let ghost oev = old(self).events@[id];
        self.events.insert(id, ev);
        proof {
            let s = *self;
            let o = *old(self);
            assert(ev == (Event { ch: Some(to_ch), ..oev }));
            assert(oev.etype == EType::END);
            assert(end_key_of(oev) == kfrom as int);
            assert(s.events@.dom() =~= o.events@.dom());
            assert forall|i: int| 0 <= i < s.event_pq@.len() implies s.events@.contains_key(
                (#[trigger] s.event_pq@[i]).1,
            ) && s.events@[s.event_pq@[i].1].time == s.event_pq@[i].0 by {
                assert(o.events@.contains_key(o.event_pq@[i].1));
            }
            assert forall|k: u64| #[trigger] s.end_ids@.contains_key(k) implies s.events@
                .contains_key(s.end_ids@[k]) && s.events@[s.end_ids@[k]].etype == EType::END
                && end_key_of(s.events@[s.end_ids@[k]]) == k as int by {
                if k == kto {
                    assert(s.end_ids@[k] == id);
                    assert(s.events@[id] == ev);
                    assert(end_key_of(ev) == kto as int);
                } else {
                    assert(o.end_ids@.contains_key(k));
                    assert(o.end_ids@[k] != id) by {
                        if o.end_ids@[k] == id {
                            assert(end_key_of(o.events@[id]) == k as int);
                        }
                    }
                }
            }
            assert forall|rid: u32|
                s.events@.contains_key(rid) && (#[trigger] s.events@[rid]).etype == EType::END
                implies s.end_ids@.contains_key((end_key_of(s.events@[rid]) as u64))
                && s.end_ids@[(end_key_of(s.events@[rid]) as u64)] == rid by {
                if rid == id {
                    assert(s.events@[id] == ev);
                    assert(end_key_of(ev) == kto as int);
                } else {
                    assert(o.events@.contains_key(rid));
                    assert(o.end_ids@.contains_key((end_key_of(o.events@[rid]) as u64)));
                    assert((end_key_of(o.events@[rid]) as u64) != kfrom) by {
                        if (end_key_of(o.events@[rid]) as u64) == kfrom {
                            assert(o.end_ids@[kfrom] == rid);
                        }
                    }
                    assert((end_key_of(o.events@[rid]) as u64) != kto) by {
                        if (end_key_of(o.events@[rid]) as u64) == kto {
                            assert(o.end_ids@.contains_key(kto));
                        }
                    }
                }
            }
        }
    }

    /// Schedule the next NEW arrival in `cell`, `dt` ticks after `t`, under
    /// a fresh id.
    pub fn event_new(&mut self, t: u64, dt: u64, cell: Cell)
        requires
            old(self).wf(),
            cell.valid(),
            old(self).id < u32::MAX,
            t + dt <= u64::MAX,
        ensures
            final(self).wf(),
            final(self).id == old(self).id + 1,
            final(self).events@ == old(self).events@.insert(
                (old(self).id + 1) as u32,
                (Event {
                    id: (old(self).id + 1) as u32,
                    time: (t + dt) as u64,
                    etype: EType::NEW,
                    cell,
                    ch: None,
                    to_cell: None,
                }),
            ),
            final(self).event_pq@ == old(self).event_pq@.push(
                ((t + dt) as u64, (old(self).id + 1) as u32),
            ),
            final(self).end_ids@ == old(self).end_ids@,
    {
        self.id = self.id + 1;
        let event = Event {
            id: self.id,
            time: t + dt,
            etype: EType::NEW,
            cell,
            ch: None,
            to_cell: None,
        };
        self.push(event);
    }

    /// Schedule the departure of a call on channel `ch` in `cell`, `dt`
    /// ticks after `t`, under a fresh id; return the scheduled end time.
    fn _event_end(
        &mut self,
        t: u64,
        dt: u64,
        cell: Cell,
        ch: usize,
        to_cell: Option<Cell>,
    ) -> (end_t: u64)
        requires
            old(self).wf(),
            cell.valid(),
            ch < 70,
            to_cell matches Some(tc) ==> tc.valid(),
            old(self).id < u32::MAX,
            t + dt <= u64::MAX,
            !old(self).end_ids@.contains_key(
                (spec_end_key(cell.row as int, cell.col as int, ch as int) as u64),
            ),
        ensures
            end_t == t + dt,
            final(self).wf(),
            final(self).id == old(self).id + 1,
            final(self).events@ == old(self).events@.insert(
                (old(self).id + 1) as u32,
                (Event {
                    id: (old(self).id + 1) as u32,
                    time: (t + dt) as u64,
                    etype: EType::END,
                    cell,
                    ch: Some(ch),
                    to_cell,
                }),
            ),
            final(self).event_pq@ == old(self).event_pq@.push(
                ((t + dt) as u64, (old(self).id + 1) as u32),
            ),
            final(self).end_ids@ == old(self).end_ids@.insert(
                (spec_end_key(cell.row as int, cell.col as int, ch as int) as u64),
                (old(self).id + 1) as u32,
            ),
    {
        self.id = self.id + 1;
        let event = Event {
            id: self.id,
            time: t + dt,
            etype: EType::END,
            cell,
            ch: Some(ch),
            to_cell,
        };
        self.push(event);
        t + dt
    }

    /// Schedule the departure of a regular call; return the end time.
    pub fn event_end(&mut self, t: u64, dt: u64, cell: Cell, ch: usize) -> (end_t: u64)
        requires
            old(self).wf(),
            cell.valid(),
            ch < 70,
            old(self).id < u32::MAX,
            t + dt <= u64::MAX,
            !old(self).end_ids@.contains_key(
                (spec_end_key(cell.row as int, cell.col as int, ch as int) as u64),
            ),
        ensures
            end_t == t + dt,
            final(self).wf(),
            final(self).id == old(self).id + 1,
            final(self).events@ == old(self).events@.insert(
                (old(self).id + 1) as u32,
                (Event {
                    id: (old(self).id + 1) as u32,
                    time: (t + dt) as u64,
                    etype: EType::END,
                    cell,
                    ch: Some(ch),
                    to_cell: None,
                }),
            ),
            final(self).event_pq@ == old(self).event_pq@.push(
                ((t + dt) as u64, (old(self).id + 1) as u32),
            ),
            final(self).end_ids@ == old(self).end_ids@.insert(
                (spec_end_key(cell.row as int, cell.col as int, ch as int) as u64),
                (old(self).id + 1) as u32,
            ),
    {
        self._event_end(t, dt, cell, ch, None)
    }

    /// Schedule the departure of a handed-off call; return the end time.
    /// The hold time `dt` is sampled by the caller from the hand-off
    /// duration distribution rather than the fresh-call one.
    pub fn event_hoff_end(&mut self, t: u64, dt: u64, cell: Cell, ch: usize) -> (end_t: u64)
        requires
            old(self).wf(),
            cell.valid(),
            ch < 70,
            old(self).id < u32::MAX,
            t + dt <= u64::MAX,
            !old(self).end_ids@.contains_key(
                (spec_end_key(cell.row as int, cell.col as int, ch as int) as u64),
            ),
        ensures
            end_t == t + dt,
            final(self).wf(),
            final(self).id == old(self).id + 1,
            final(self).events@ == old(self).events@.insert(
                (old(self).id + 1) as u32,
                (Event {
                    id: (old(self).id + 1) as u32,
                    time: (t + dt) as u64,
                    etype: EType::END,
                    cell,
                    ch: Some(ch),
                    to_cell: None,
                }),
            ),
            final(self).event_pq@ == old(self).event_pq@.push(
                ((t + dt) as u64, (old(self).id + 1) as u32),
            ),
            final(self).end_ids@ == old(self).end_ids@.insert(
                (spec_end_key(cell.row as int, cell.col as int, ch as int) as u64),
                (old(self).id + 1) as u32,
            ),
    {
        self._event_end(t, dt, cell, ch, None)
    }

    /// Hand off the call on channel `ch` in `cell` to a neighboring cell
    /// picked uniformly at random at hex distance 1. The hand-off is
    /// scheduled as two events with the same time stamp: the END departure
    /// from `cell`, carrying the destination in `to_cell`, and then the
    /// HOFF arrival in the destination. The arrival's id is the larger, so
    /// the departure pops first.
    pub fn event_hoff_new(&mut self, neighs: &Neighs, t: u64, dt: u64, cell: Cell, ch: usize)
        requires
            old(self).wf(),
            neighs.wf(),
            cell.valid(),
            ch < 70,
            old(self).id < u32::MAX - 1,
            t + dt <= u64::MAX,
            !old(self).end_ids@.contains_key(
                (spec_end_key(cell.row as int, cell.col as int, ch as int) as u64),
            ),
        ensures
            final(self).wf(),
            final(self).id == old(self).id + 2,
            final(self).end_ids@ == old(self).end_ids@.insert(
                (spec_end_key(cell.row as int, cell.col as int, ch as int) as u64),
                (old(self).id + 1) as u32,
            ),
            exists|nb: Cell|
                #![auto]
                nb.valid() && !(nb.row == cell.row && nb.col == cell.col) && spec_hex_distance(
                    cell.row as int,
                    cell.col as int,
                    nb.row as int,
                    nb.col as int,
                ) <= 1 && final(self).events@ == old(self).events@.insert(
                    (old(self).id + 1) as u32,
                    (Event {
                        id: (old(self).id + 1) as u32,
                        time: (t + dt) as u64,
                        etype: EType::END,
                        cell,
                        ch: Some(ch),
                        to_cell: Some(nb),
                    }),
                ).insert(
                    (old(self).id + 2) as u32,
                    (Event {
                        id: (old(self).id + 2) as u32,
                        time: (t + dt) as u64,
                        etype: EType::HOFF,
                        cell: nb,
                        ch: None,
                        to_cell: None,
                    }),
                ),
    {
        let ns = neighs.neighbors(1, cell.row, cell.col, false);
        proof {
            lemma_nbr1_nonempty(cell.row as int, cell.col as int);
            lemma_nbr_seq_props(1, cell.row as int, cell.col as int, 49);
        }
        let ni = sample_uniform_below(ns.len());
        let to_cell = ns[ni];
        let end_t = self._event_end(t, dt, cell, ch, Some(to_cell));
        self.id = self.id + 1;
        let event = Event {
            id: self.id,
            time: end_t,
            etype: EType::HOFF,
            cell: to_cell,
            ch: None,
            to_cell: None,
        };
        self.push(event);
    }
}

/// The event queue pops in non-decreasing time, ids breaking ties among
/// equal times: what a pop returns is no later than anything left pending,
/// so the next pop cannot come out earlier.
pub proof fn lemma_pops_nondecreasing(pending: Map<u32, Event>, e1: Event, e2: Event)
    requires
        forall|id: u32|
            #[trigger] pending.contains_key(id) ==> key_le(e1.time, e1.id, pending[id].time, id),
        pending.contains_key(e2.id),
        e2 == pending[e2.id],
    ensures
        e1.time < e2.time || (e1.time == e2.time && e1.id <= e2.id),
{
}

/// Relies on rand::random_range: a uniform draw from `0..n` lies below `n`.
#[verifier::external_body]
fn sample_uniform_below(n: usize) -> (r: usize)
    requires
        n > 0,
    ensures
        r < n,
{
    rand::random_range(0..n)
}

} // verus!
