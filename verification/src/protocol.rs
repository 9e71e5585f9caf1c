//! The rooms and the manager together.
//!
//! Rooms and manager run side by side and only exchange messages, so a
//! report that a room is empty may reach the manager late, after somebody
//! has joined the room again. This module states what the two sides do as
//! steps of one system and proves that the manager never retires a room
//! that has a member.

use crate::room::{
    lemma_join_keeps_wf, lemma_leave_keeps_wf, DeathSignal, RoomHandle, RoomView,
};
use crate::room_mng::laws::{
    lemma_handle_unreg_wf, lemma_join_or_make_wf, lemma_registered, lemma_settle_all,
    lemma_swept_wf,
};
use crate::room_mng::{
    distinct, find_id, find_name, has_id_at, has_name_at, lemma_find_id, lemma_find_name, live,
    settle_all, Expired, ManagerView, Scheduling, SlotView, TimeoutHandle,
};
use vstd::prelude::*;

verus! {

/// The whole system at one moment.
pub struct World {
    pub manager: ManagerView,
    /// The rooms that have been started, by identifier.
    pub rooms: Map<u128, RoomView>,
    /// The reports that rooms have sent. A report may reach the manager at
    /// any later time, and more than once.
    pub sent: Set<(u128, DeathSignal)>,
}

/// What can happen next.
pub enum Step {
    /// The manager routes the request of `member` to join the room called
    /// `name`, starts the room if it is new, and the room takes the request.
    Join { name: Seq<char>, member: u128, fresh: u128 },
    /// The room `room` learns that `member` is gone, and reports to the
    /// manager if that was its last member.
    Leave { room: u128, member: u128 },
    /// A report reaches the manager at clock reading `now`.
    Report { room: u128, signal: DeathSignal, now: u128 },
    /// The manager sweeps its queue at clock reading `now`.
    Sweep { now: u128, fired: Seq<Expired> },
}

/// The signal of the room `id` counts for the manager.
pub open spec fn counts(m: ManagerView, id: u128, signal: DeathSignal) -> bool {
    live(m.slots, TimeoutHandle { signal, room: RoomHandle { id } })
}

impl World {
    /// No room, no report, a manager that has done nothing.
    pub open spec fn start() -> World {
        World {
            manager: ManagerView { slots: Seq::empty(), timeouts: Map::empty(), issued: 0 },
            rooms: Map::empty(),
            sent: Set::empty(),
        }
    }

    pub open spec fn enabled(self, step: Step) -> bool {
        match step {
            Step::Join { .. } => self.manager.issued < u64::MAX,
            Step::Leave { room, .. } => self.rooms.contains_key(room),
            Step::Report { room, signal, .. } => self.sent.contains((room, signal)),
            Step::Sweep { now, fired } => self.manager.fires(now, fired),
        }
    }

    pub open spec fn next(self, step: Step) -> World {
        match step {
            Step::Join { name, member, fresh } => match self.manager.join_route(
                name,
                member,
                fresh,
            ) {
                Ok(route) => {
                    let id = route.room.id;
                    let room = if route.created {
                        RoomView::started(id)
                    } else {
                        self.rooms[id]
                    };
                    World {
                        manager: self.manager.join_or_make(name, fresh),
                        rooms: self.rooms.insert(id, room.join(member, route.epoch)),
                        ..self
                    }
                },
                Err(_) => World { manager: self.manager.join_or_make(name, fresh), ..self },
            },
            Step::Leave { room, member } => {
                let before = self.rooms[room];
                World {
                    rooms: self.rooms.insert(room, before.leave(member)),
                    sent: if before.is_last(member) {
                        self.sent.insert((room, DeathSignal { epoch: before.epoch }))
                    } else {
                        self.sent
                    },
                    ..self
                }
            },
            Step::Report { room, signal, now } => World {
                manager: self.manager.handle_unreg(room, signal, now),
                ..self
            },
            Step::Sweep { now, fired } => World { manager: self.manager.swept(now, fired), ..self },
        }
    }

    /// Every step of `steps` can be taken in its turn, from `self` on.
    pub open spec fn admits(self, steps: Seq<Step>) -> bool
        decreases steps.len(),
    {
        steps.len() > 0 ==> self.admits(steps.drop_last()) && self.run(steps.drop_last()).enabled(
            steps.last(),
        )
    }

    /// The system after `steps`, first to last.
    pub open spec fn run(self, steps: Seq<Step>) -> World
        decreases steps.len(),
    {
        if steps.len() == 0 {
            self
        } else {
            self.run(steps.drop_last()).next(steps.last())
        }
    }

    /// What holds of the system at every moment.
    pub open spec fn inv(self) -> bool {
        &&& self.manager.wf()
        &&& forall|id: u128| #[trigger]
            self.rooms.contains_key(id) ==> {
                &&& self.rooms[id].wf()
                &&& self.rooms[id].id == id
                &&& self.rooms[id].epoch <= self.manager.issued
            }
        &&& forall|i: int|
            0 <= i < self.manager.slots.len() ==> {
                &&& self.rooms.contains_key((#[trigger] self.manager.slots[i]).id)
                &&& self.rooms[self.manager.slots[i].id].epoch == self.manager.slots[i].epoch
            }
        &&& forall|id: u128, signal: DeathSignal| #[trigger]
            self.sent.contains((id, signal)) ==> {
                &&& signal.epoch <= self.manager.issued
                &&& counts(self.manager, id, signal) ==> self.rooms[id].holds(signal)
            }
        &&& forall|k: u128| #[trigger]
            self.manager.timeouts.contains_key(k) ==> (counts(
                self.manager,
                self.manager.timeouts[k].room.id,
                self.manager.timeouts[k].signal,
            ) ==> self.rooms[self.manager.timeouts[k].room.id].holds(
                self.manager.timeouts[k].signal,
            ))
    }
}

/// A signal that counts after a change of the registry that kept the room's
/// place, identifier and epoch counted before it.
proof fn lemma_counts_in_place(
    before: Seq<SlotView>,
    after: Seq<SlotView>,
    id: u128,
    signal: DeathSignal,
)
    requires
        distinct(before),
        live(after, TimeoutHandle { signal, room: RoomHandle { id } }),
        ({
            let j = find_id(after, id)->0;
            0 <= j < before.len() && before[j].id == id && before[j].epoch == after[j].epoch
        }),
    ensures
        live(before, TimeoutHandle { signal, room: RoomHandle { id } }),
{
    let j = find_id(after, id)->0;
    assert(has_id_at(before, id, j));
    lemma_find_id(before, id, j);
}

proof fn lemma_join_keeps_inv(w: World, name: Seq<char>, member: u128, fresh: u128)
    requires
        w.inv(),
        w.manager.issued < u64::MAX,
    ensures
        w.next(Step::Join { name, member, fresh }).inv(),
{
    let after = w.next(Step::Join { name, member, fresh });
    let m = w.manager;
    let m2 = after.manager;
    let epoch = (m.issued + 1) as u64;
    lemma_join_or_make_wf(m, name, fresh);
    match m.join_route(name, member, fresh) {
        Ok(route) => {
            let id = route.room.id;
            let joined = after.rooms[id];
            if route.created {
                lemma_join_keeps_wf(RoomView::started(id), member, epoch);
            } else {
                let i = find_name(m.slots, name)->0;
                assert(has_name_at(m.slots, name, i));
                assert(w.rooms.contains_key(m.slots[i].id));
                lemma_join_keeps_wf(w.rooms[id], member, epoch);
            }
            let at: int = if route.created {
                m.slots.len() as int
            } else {
                find_name(m.slots, name)->0
            };
            assert(m2.slots[at].id == id && m2.slots[at].epoch == epoch);
            assert(has_id_at(m2.slots, id, at));
            lemma_find_id(m2.slots, id, at);
            assert forall|i: int| 0 <= i < m2.slots.len() implies {
                &&& after.rooms.contains_key((#[trigger] m2.slots[i]).id)
                &&& after.rooms[m2.slots[i].id].epoch == m2.slots[i].epoch
            } by {
                if i != at {
                    assert(m2.slots[i] == m.slots[i]);
                    if i < at {
                        assert(m2.slots[i].id != m2.slots[at].id);
                    } else {
                        assert(m2.slots[at].id != m2.slots[i].id);
                    }
                }
            }
            assert forall|x: u128, signal: DeathSignal|
                signal.epoch <= m.issued && counts(m2, x, signal) implies x != id && counts(
                m,
                x,
                signal,
            ) by {
                let j = find_id(m2.slots, x)->0;
                assert(has_id_at(m2.slots, x, j));
                if x == id {
                    assert(j == at);
                } else {
                    assert(m2.slots[j] == m.slots[j]);
                    lemma_counts_in_place(m.slots, m2.slots, x, signal);
                }
            }
            assert forall|x: u128, signal: DeathSignal| #[trigger]
                after.sent.contains((x, signal)) implies {
                &&& signal.epoch <= m2.issued
                &&& counts(m2, x, signal) ==> after.rooms[x].holds(signal)
            } by {
                assert(w.sent.contains((x, signal)));
            }
            assert forall|k: u128| #[trigger] m2.timeouts.contains_key(k) && counts(
                m2,
                m2.timeouts[k].room.id,
                m2.timeouts[k].signal,
            ) implies after.rooms[m2.timeouts[k].room.id].holds(m2.timeouts[k].signal) by {
                assert(m.timeouts.contains_key(k));
            }
        },
        Err(_) => {},
    }
}

proof fn lemma_leave_keeps_inv(w: World, room: u128, member: u128)
    requires
        w.inv(),
        w.rooms.contains_key(room),
    ensures
        w.next(Step::Leave { room, member }).inv(),
{
    let after = w.next(Step::Leave { room, member });
    let before = w.rooms[room];
    lemma_leave_keeps_wf(before, member);
    assert forall|i: int| 0 <= i < w.manager.slots.len() implies {
        &&& after.rooms.contains_key((#[trigger] after.manager.slots[i]).id)
        &&& after.rooms[after.manager.slots[i].id].epoch == after.manager.slots[i].epoch
    } by {
        assert(w.rooms.contains_key(w.manager.slots[i].id));
    }
    assert forall|x: u128, signal: DeathSignal|
        w.rooms.contains_key(x) && w.rooms[x].holds(signal) implies after.rooms[x].holds(
        signal,
    ) by {
        if x == room {
            assert(before.members.dom().is_empty());
            assert(before.leave(member).members.dom() =~= before.members.dom());
        }
    }
    assert forall|x: u128, signal: DeathSignal| #[trigger]
        after.sent.contains((x, signal)) implies {
        &&& signal.epoch <= after.manager.issued
        &&& counts(after.manager, x, signal) ==> after.rooms[x].holds(signal)
    } by {
        if w.sent.contains((x, signal)) {
            if counts(w.manager, x, signal) {
                let j = find_id(w.manager.slots, x)->0;
                assert(has_id_at(w.manager.slots, x, j));
                assert(w.rooms.contains_key(w.manager.slots[j].id));
            }
        }
    }
    assert forall|k: u128| #[trigger] after.manager.timeouts.contains_key(k) && counts(
        after.manager,
        after.manager.timeouts[k].room.id,
        after.manager.timeouts[k].signal,
    ) implies after.rooms[after.manager.timeouts[k].room.id].holds(
        after.manager.timeouts[k].signal,
    ) by {
        let x = w.manager.timeouts[k].room.id;
        if counts(w.manager, x, w.manager.timeouts[k].signal) {
            let j = find_id(w.manager.slots, x)->0;
            assert(has_id_at(w.manager.slots, x, j));
            assert(w.rooms.contains_key(w.manager.slots[j].id));
        }
    }
}

proof fn lemma_report_keeps_inv(w: World, room: u128, signal: DeathSignal, now: u128)
    requires
        w.inv(),
        w.sent.contains((room, signal)),
    ensures
        w.next(Step::Report { room, signal, now }).inv(),
{
    let after = w.next(Step::Report { room, signal, now });
    lemma_handle_unreg_wf(w.manager, room, signal, now);
    assert forall|k: u128| #[trigger] after.manager.timeouts.contains_key(k) && counts(
        after.manager,
        after.manager.timeouts[k].room.id,
        after.manager.timeouts[k].signal,
    ) implies after.rooms[after.manager.timeouts[k].room.id].holds(
        after.manager.timeouts[k].signal,
    ) by {
        if !w.manager.timeouts.contains_key(k) {
            assert(after.manager.timeouts[k] == (TimeoutHandle {
                signal,
                room: RoomHandle { id: room },
            }));
        }
    }
}

/// A signal that counts after a sweep counted before it.
proof fn lemma_counts_after_sweep(m: ManagerView, fired: Seq<Expired>, id: u128, signal: DeathSignal)
    requires
        m.wf(),
        live(settle_all(m.slots, fired), TimeoutHandle { signal, room: RoomHandle { id } }),
    ensures
        counts(m, id, signal),
{
    let left = settle_all(m.slots, fired);
    lemma_settle_all(m.slots, fired);
    let j = find_id(left, id)->0;
    assert(has_id_at(left, id, j));
    let slot = left[j];
    assert(left.contains(slot));
    assert(m.slots.contains(slot));
    lemma_registered(m.slots, slot);
}

proof fn lemma_sweep_keeps_inv(w: World, now: u128, fired: Seq<Expired>)
    requires
        w.inv(),
        w.manager.fires(now, fired),
    ensures
        w.next(Step::Sweep { now, fired }).inv(),
{
    let after = w.next(Step::Sweep { now, fired });
    let m = w.manager;
    let m2 = after.manager;
    lemma_swept_wf(m, now, fired);
    lemma_settle_all(m.slots, fired);
    assert forall|i: int| 0 <= i < m2.slots.len() implies {
        &&& after.rooms.contains_key((#[trigger] m2.slots[i]).id)
        &&& after.rooms[m2.slots[i].id].epoch == m2.slots[i].epoch
    } by {
        let slot = m2.slots[i];
        assert(m2.slots.contains(slot));
        assert(m.slots.contains(slot));
        let j = choose|j: int| 0 <= j < m.slots.len() && m.slots[j] == slot;
        assert(w.rooms.contains_key(m.slots[j].id));
    }
    assert forall|x: u128, signal: DeathSignal| #[trigger]
        after.sent.contains((x, signal)) implies {
        &&& signal.epoch <= m2.issued
        &&& counts(m2, x, signal) ==> after.rooms[x].holds(signal)
    } by {
        if counts(m2, x, signal) {
            lemma_counts_after_sweep(m, fired, x, signal);
        }
    }
    assert forall|k: u128| #[trigger] m2.timeouts.contains_key(k) && counts(
        m2,
        m2.timeouts[k].room.id,
        m2.timeouts[k].signal,
    ) implies after.rooms[m2.timeouts[k].room.id].holds(m2.timeouts[k].signal) by {
        assert(m.timeouts.contains_key(k));
        if counts(m2, m2.timeouts[k].room.id, m2.timeouts[k].signal) {
            lemma_counts_after_sweep(m, fired, m.timeouts[k].room.id, m.timeouts[k].signal);
        }
    }
}

/// The first request for a name makes the room, the second finds it: after
/// both there is one room, registered under the name, and the two who asked
/// are its members.
pub proof fn lemma_two_requests_share_one_room(
    name: Seq<char>,
    first: u128,
    second: u128,
    fresh: u128,
    unused: u128,
)
    ensures
        ({
            let w = World::start().next(Step::Join { name, member: first, fresh }).next(
                Step::Join { name, member: second, fresh: unused },
            );
            &&& w.manager.slots.len() == 1
            &&& w.manager.lookup(name) == Some(RoomHandle { id: fresh })
            &&& find_id(w.manager.slots, fresh) is Some
            &&& w.rooms.contains_key(fresh)
            &&& w.rooms[fresh].members.dom() == set![first, second]
            &&& w.rooms[fresh].ticket is None
        }),
{
    let w0 = World::start();
    let w1 = w0.next(Step::Join { name, member: first, fresh });
    let w2 = w1.next(Step::Join { name, member: second, fresh: unused });
    assert(find_name(w0.manager.slots, name) is None);
    assert(find_id(w0.manager.slots, fresh) is None);
    assert(has_name_at(w1.manager.slots, name, 0));
    assert(has_id_at(w1.manager.slots, fresh, 0));
    assert(distinct(w1.manager.slots));
    lemma_find_name(w1.manager.slots, name, 0);
    assert(has_name_at(w2.manager.slots, name, 0));
    assert(has_id_at(w2.manager.slots, fresh, 0));
    assert(distinct(w2.manager.slots));
    lemma_find_name(w2.manager.slots, name, 0);
    lemma_find_id(w2.manager.slots, fresh, 0);
    assert(w1.rooms[fresh].members.dom() =~= set![first]);
    assert(w2.rooms[fresh].members.dom() =~= set![first, second]);
}

/// The report of a registered room that has just become empty counts: the
/// manager will not ignore it.
pub proof fn lemma_report_of_vacated_room_counts(w: World, room: u128, member: u128, now: u128)
    requires
        w.inv(),
        w.rooms.contains_key(room),
        find_id(w.manager.slots, room) is Some,
        w.rooms[room].is_last(member),
    ensures
        w.next(Step::Leave { room, member }).sent.contains(
            (room, DeathSignal { epoch: w.rooms[room].epoch }),
        ),
        counts(w.manager, room, DeathSignal { epoch: w.rooms[room].epoch }),
        w.manager.scheduling(room, DeathSignal { epoch: w.rooms[room].epoch }, now)
            != Scheduling::Ignored,
{
    let j = find_id(w.manager.slots, room)->0;
    assert(has_id_at(w.manager.slots, room, j));
    assert(w.rooms.contains_key(w.manager.slots[j].id));
}

/// Whatever happens next, what holds of the system still holds.
pub proof fn lemma_step_keeps_inv(w: World, step: Step)
    requires
        w.inv(),
        w.enabled(step),
    ensures
        w.next(step).inv(),
{
    match step {
        Step::Join { name, member, fresh } => lemma_join_keeps_inv(w, name, member, fresh),
        Step::Leave { room, member } => lemma_leave_keeps_inv(w, room, member),
        Step::Report { room, signal, now } => lemma_report_keeps_inv(w, room, signal, now),
        Step::Sweep { now, fired } => lemma_sweep_keeps_inv(w, now, fired),
    }
}

/// It holds from the start, and so after every history.
pub proof fn lemma_inv_always(steps: Seq<Step>)
    requires
        World::start().admits(steps),
    ensures
        World::start().run(steps).inv(),
    decreases steps.len(),
{
    if steps.len() > 0 {
        lemma_inv_always(steps.drop_last());
        lemma_step_keeps_inv(World::start().run(steps.drop_last()), steps.last());
    }
}

/// The manager retires no room that has a member: whenever a sweep takes a
/// room out of the registry, the room is empty and still holds the ticket
/// whose signal made the entry, however late that signal came in and
/// whatever happened in between.
pub proof fn lemma_only_empty_rooms_are_retired(w: World, now: u128, fired: Seq<Expired>, i: int)
    requires
        w.inv(),
        w.manager.fires(now, fired),
        0 <= i < fired.len(),
        fired[i].retired,
    ensures
        w.rooms.contains_key(fired[i].handle.room.id),
        w.rooms[fired[i].handle.room.id].holds(fired[i].handle.signal),
        w.rooms[fired[i].handle.room.id].members.dom().is_empty(),
{
    let entry = fired[i].handle;
    lemma_counts_after_sweep(w.manager, fired.take(i), entry.room.id, entry.signal);
    assert(w.manager.timeouts.contains_key(fired[i].expiry));
    let j = find_id(w.manager.slots, entry.room.id)->0;
    assert(has_id_at(w.manager.slots, entry.room.id, j));
    assert(w.rooms.contains_key(w.manager.slots[j].id));
}

} // verus!
