//! The registry of rooms.
//!
//! The manager knows every room by its name and by its identifier, creates a
//! room when somebody asks for a name that is not registered, and retires a
//! room once it has stood empty for the whole grace period.
//!
//! Every join request goes through the manager and starts a new epoch for
//! its room, here and in the room itself. A destruction signal counts only
//! while the epoch it was minted in is still the room's epoch: a signal that
//! was overtaken by a join is void, whenever it arrives and whenever its
//! timeout fires.

pub mod laws;

use crate::room::timer::Clock;
use crate::room_mng::laws::{lemma_join_or_make_wf, lemma_settle_wf};
use crate::room::{fresh_id, is_random_uuid, DeathSignal, RoomHandle};
use std::collections::BTreeMap;
use vstd::prelude::*;

verus! {

/// Nanoseconds for which a room may stand empty before it is retired.
pub const GRACE_PERIOD_NANOS: u128 = 300_000_000_000;

/// A registered room.
pub struct RoomSlot {
    pub name: String,
    pub handle: RoomHandle,
    /// Epoch of the latest join request routed to the room.
    pub epoch: u64,
}

/// A registered room, as far as the manager's behaviour goes.
pub struct SlotView {
    pub name: Seq<char>,
    pub id: u128,
    pub epoch: u64,
}

impl View for RoomSlot {
    type V = SlotView;

    open spec fn view(&self) -> SlotView {
        SlotView { name: self.name@, id: self.handle.id, epoch: self.epoch }
    }
}

/// A pending destruction: the signal that asked for it and the room it is
/// about.
#[derive(Clone, Copy, Debug, PartialEq, Eq, Structural)]
pub struct TimeoutHandle {
    pub signal: DeathSignal,
    pub room: RoomHandle,
}

/// A pending destruction whose time has come, and what became of its room.
#[derive(Clone, Copy, Debug, PartialEq, Eq, Structural)]
pub struct Expired {
    /// The clock reading at which the entry was due.
    pub expiry: u128,
    pub handle: TimeoutHandle,
    /// The room was taken out of the registry. Otherwise the entry was void.
    pub retired: bool,
}

/// What the connection layer asks of the manager.
pub enum ManagerMessage {
    /// The connection `id` wants to be in the room called `room`.
    JoinOrMake { room: String, id: u128 },
}

/// Where to send a connection that asked for a room.
#[derive(Clone, Copy, Debug, PartialEq, Eq, Structural)]
pub struct JoinRoute {
    pub room: RoomHandle,
    pub member: u128,
    /// The epoch that the room enters with this request.
    pub epoch: u64,
    /// The room was registered by this very request and has yet to be
    /// started.
    pub created: bool,
}

/// Why a request to join a room could not be routed.
#[derive(Clone, Copy, Debug, PartialEq, Eq, Structural)]
pub enum ManagerError {
    /// The identifier drawn for a new room already belongs to a room.
    RoomIdTaken,
}

/// What became of a room's report that it is empty.
#[derive(Clone, Copy, Debug, PartialEq, Eq, Structural)]
pub enum Scheduling {
    /// The signal was void, or the room is not registered.
    Ignored,
    /// The room will be looked at again when the clock reads `expiry`.
    Scheduled { expiry: u128 },
    /// Every instant from the end of the grace period on is taken.
    Full,
}

/// The room in place `i` of `slots` is called `name`.
pub open spec fn has_name_at(slots: Seq<SlotView>, name: Seq<char>, i: int) -> bool {
    0 <= i < slots.len() && slots[i].name == name
}

/// The room in place `i` of `slots` has the identifier `id`.
pub open spec fn has_id_at(slots: Seq<SlotView>, id: u128, i: int) -> bool {
    0 <= i < slots.len() && slots[i].id == id
}

/// Where the room called `name` stands among `slots`.
pub open spec fn find_name(slots: Seq<SlotView>, name: Seq<char>) -> Option<int> {
    if exists|i: int| has_name_at(slots, name, i) {
        Some(choose|i: int| has_name_at(slots, name, i))
    } else {
        None
    }
}

/// Where the room with the identifier `id` stands among `slots`.
pub open spec fn find_id(slots: Seq<SlotView>, id: u128) -> Option<int> {
    if exists|i: int| has_id_at(slots, id, i) {
        Some(choose|i: int| has_id_at(slots, id, i))
    } else {
        None
    }
}

/// No name and no identifier stands in two places.
pub open spec fn distinct(slots: Seq<SlotView>) -> bool {
    &&& forall|i: int, j: int|
        0 <= i < j < slots.len() ==> (#[trigger] slots[i]).name != (#[trigger] slots[j]).name
    &&& forall|i: int, j: int|
        0 <= i < j < slots.len() ==> (#[trigger] slots[i]).id != (#[trigger] slots[j]).id
}

/// The signal of `entry` still counts: its room is registered and has seen
/// no join request since the signal was minted.
pub open spec fn live(slots: Seq<SlotView>, entry: TimeoutHandle) -> bool {
    match find_id(slots, entry.room.id) {
        Some(i) => slots[i].epoch == entry.signal.epoch,
        None => false,
    }
}

/// The rooms that are left once `entry` has fired.
pub open spec fn settle(slots: Seq<SlotView>, entry: TimeoutHandle) -> Seq<SlotView> {
    if live(slots, entry) {
        slots.remove(find_id(slots, entry.room.id)->0)
    } else {
        slots
    }
}

/// The rooms that are left once all of `fired` have fired, first to last.
pub open spec fn settle_all(slots: Seq<SlotView>, fired: Seq<Expired>) -> Seq<SlotView>
    decreases fired.len(),
{
    if fired.len() == 0 {
        slots
    } else {
        settle(settle_all(slots, fired.drop_last()), fired.last().handle)
    }
}

/// `key` is the smallest key of `timeouts`.
pub open spec fn is_earliest(timeouts: Map<u128, TimeoutHandle>, key: u128) -> bool {
    &&& timeouts.contains_key(key)
    &&& forall|k: u128| timeouts.contains_key(k) ==> key <= k
}

/// `t` is the first instant from `from` on that no entry of `timeouts`
/// occupies.
pub open spec fn is_first_free(timeouts: Map<u128, TimeoutHandle>, from: int, t: u128) -> bool {
    &&& from <= t
    &&& !timeouts.contains_key(t)
    &&& forall|k: u128| from <= k < t ==> #[trigger] timeouts.contains_key(k)
}

/// The first instant from `from` on that no entry of `timeouts` occupies,
/// if there is one.
pub open spec fn first_free(timeouts: Map<u128, TimeoutHandle>, from: int) -> Option<u128> {
    if exists|t: u128| is_first_free(timeouts, from, t) {
        Some(choose|t: u128| is_first_free(timeouts, from, t))
    } else {
        None
    }
}

/// What the manager is, as far as its behaviour goes.
pub struct ManagerView {
    /// The registered rooms, oldest first.
    pub slots: Seq<SlotView>,
    /// The pending destructions by the clock reading at which they fire.
    pub timeouts: Map<u128, TimeoutHandle>,
    /// The latest epoch handed out to a join request.
    pub issued: u64,
}

impl ManagerView {
    pub open spec fn wf(self) -> bool {
        &&& self.timeouts.dom().finite()
        &&& distinct(self.slots)
        &&& forall|i: int| 0 <= i < self.slots.len() ==> (#[trigger] self.slots[i]).epoch <= self.issued
        &&& forall|k: u128| #[trigger]
            self.timeouts.contains_key(k) ==> self.timeouts[k].signal.epoch <= self.issued
    }

    /// The room called `name`, if one is registered.
    pub open spec fn lookup(self, name: Seq<char>) -> Option<RoomHandle> {
        match find_name(self.slots, name) {
            Some(i) => Some(RoomHandle { id: self.slots[i].id }),
            None => None,
        }
    }

    /// The registry after a request to join the room called `name`, where
    /// `fresh` is the identifier that a new room would get. The room enters
    /// the next epoch.
    pub open spec fn join_or_make(self, name: Seq<char>, fresh: u128) -> ManagerView
        recommends
            self.issued < u64::MAX,
    {
        let epoch = (self.issued + 1) as u64;
        match find_name(self.slots, name) {
            Some(i) => ManagerView {
                slots: self.slots.update(i, SlotView { epoch, ..self.slots[i] }),
                issued: epoch,
                ..self
            },
            None => if find_id(self.slots, fresh) is Some {
                self
            } else {
                ManagerView {
                    slots: self.slots.push(SlotView { name, id: fresh, epoch }),
                    issued: epoch,
                    ..self
                }
            },
        }
    }

    /// The answer to a request of `member` to join the room called `name`,
    /// where `fresh` is the identifier that a new room would get.
    pub open spec fn join_route(self, name: Seq<char>, member: u128, fresh: u128) -> Result<
        JoinRoute,
        ManagerError,
    >
        recommends
            self.issued < u64::MAX,
    {
        let epoch = (self.issued + 1) as u64;
        match find_name(self.slots, name) {
            Some(i) => Ok(
                JoinRoute {
                    room: RoomHandle { id: self.slots[i].id },
                    member,
                    epoch,
                    created: false,
                },
            ),
            None => if find_id(self.slots, fresh) is Some {
                Err(ManagerError::RoomIdTaken)
            } else {
                Ok(JoinRoute { room: RoomHandle { id: fresh }, member, epoch, created: true })
            },
        }
    }

    /// What becomes of the report, received at clock reading `now`, that
    /// the room `id` is empty.
    pub open spec fn scheduling(self, id: u128, signal: DeathSignal, now: u128) -> Scheduling {
        if !live(self.slots, TimeoutHandle { signal, room: RoomHandle { id } }) {
            Scheduling::Ignored
        } else {
            match first_free(self.timeouts, now + GRACE_PERIOD_NANOS) {
                Some(expiry) => Scheduling::Scheduled { expiry },
                None => Scheduling::Full,
            }
        }
    }

    /// The manager after the report, received at clock reading `now`, that
    /// the room `id` is empty.
    pub open spec fn handle_unreg(self, id: u128, signal: DeathSignal, now: u128) -> ManagerView {
        match self.scheduling(id, signal, now) {
            Scheduling::Scheduled { expiry } => ManagerView {
                timeouts: self.timeouts.insert(
                    expiry,
                    TimeoutHandle { signal, room: RoomHandle { id } },
                ),
                ..self
            },
            _ => self,
        }
    }

    /// `fired` lists the entries that are due at clock reading `now`, each
    /// once, earliest first, each with what became of its room.
    pub open spec fn fires(self, now: u128, fired: Seq<Expired>) -> bool {
        &&& forall|i: int|
            0 <= i < fired.len() ==> {
                &&& (#[trigger] fired[i]).expiry <= now
                &&& self.timeouts.contains_key(fired[i].expiry)
                &&& self.timeouts[fired[i].expiry] == fired[i].handle
                &&& fired[i].retired == live(
                    settle_all(self.slots, fired.take(i)),
                    fired[i].handle,
                )
            }
        &&& forall|i: int, j: int|
            0 <= i < j < fired.len() ==> (#[trigger] fired[i]).expiry < (#[trigger] fired[j]).expiry
        &&& forall|k: u128|
            self.timeouts.contains_key(k) && k <= now ==> exists|i: int|
                0 <= i < fired.len() && (#[trigger] fired[i]).expiry == k
    }

    /// The manager after the sweep at clock reading `now` in which `fired`
    /// have fired.
    pub open spec fn swept(self, now: u128, fired: Seq<Expired>) -> ManagerView {
        ManagerView {
            slots: settle_all(self.slots, fired),
            timeouts: self.timeouts.remove_keys(Set::new(|k: u128| k <= now)),
            ..self
        }
    }

    /// Nanoseconds from clock reading `now` to the earliest pending
    /// destruction: zero if it is overdue, `None` if nothing is pending.
    pub open spec fn until_wake(self, now: u128) -> Option<u128> {
        if forall|k: u128| !self.timeouts.contains_key(k) {
            None
        } else {
            let first = choose|k: u128| is_earliest(self.timeouts, k);
            Some(
                if first >= now {
                    (first - now) as u128
                } else {
                    0
                },
            )
        }
    }
}

/// Among distinct slots a name stands in one place only.
pub proof fn lemma_find_name(slots: Seq<SlotView>, name: Seq<char>, i: int)
    requires
        distinct(slots),
        has_name_at(slots, name, i),
    ensures
        find_name(slots, name) == Some(i),
{
    let j = choose|j: int| has_name_at(slots, name, j);
    assert(has_name_at(slots, name, j));
    if i < j {
        assert(slots[i].name != slots[j].name);
    } else if j < i {
        assert(slots[j].name != slots[i].name);
    }
}

/// Among distinct slots an identifier stands in one place only.
pub proof fn lemma_find_id(slots: Seq<SlotView>, id: u128, i: int)
    requires
        distinct(slots),
        has_id_at(slots, id, i),
    ensures
        find_id(slots, id) == Some(i),
{
    let j = choose|j: int| has_id_at(slots, id, j);
    assert(has_id_at(slots, id, j));
    if i < j {
        assert(slots[i].id != slots[j].id);
    } else if j < i {
        assert(slots[j].id != slots[i].id);
    }
}

/// There is one first free instant at most.
pub proof fn lemma_first_free(timeouts: Map<u128, TimeoutHandle>, from: int, t: u128)
    requires
        is_first_free(timeouts, from, t),
    ensures
        first_free(timeouts, from) == Some(t),
{
    let c = choose|c: u128| is_first_free(timeouts, from, c);
    assert(is_first_free(timeouts, from, c));
    if c < t {
        assert(timeouts.contains_key(c));
    } else if t < c {
        assert(timeouts.contains_key(t));
    }
}

/// There is one earliest key at most.
pub proof fn lemma_earliest(timeouts: Map<u128, TimeoutHandle>, key: u128)
    requires
        is_earliest(timeouts, key),
    ensures
        (choose|k: u128| is_earliest(timeouts, k)) == key,
{
    let c = choose|k: u128| is_earliest(timeouts, k);
    assert(is_earliest(timeouts, c));
}

/// Looks at the front of the queue with `BTreeMap::first_key_value`. What is
/// claimed is what the standard library documents: the pair handed out is in
/// the map and no key of the map is smaller than its key, and `None` comes
/// out of an empty map only.
#[verifier::external_body]
fn first_timeout(timeouts: &BTreeMap<u128, TimeoutHandle>) -> (first: Option<(u128, TimeoutHandle)>)
    ensures
        match first {
            Some((key, entry)) => is_earliest(timeouts@, key) && timeouts@[key] == entry,
            None => forall|k: u128| !timeouts@.contains_key(k),
        },
{
    match timeouts.first_key_value() {
        Some((key, entry)) => Some((*key, *entry)),
        None => None,
    }
}

/// Takes the front of the queue out with `BTreeMap::pop_first`. What is
/// claimed is what the standard library documents: the pair handed out was
/// in the map, no key of the map was smaller than its key, and the map has
/// lost that key and nothing else; `None` comes out of an empty map only,
/// which stays as it was.
#[verifier::external_body]
fn pop_first_timeout(timeouts: &mut BTreeMap<u128, TimeoutHandle>) -> (first: Option<
    (u128, TimeoutHandle),
>)
    ensures
        match first {
            Some((key, entry)) => {
                &&& is_earliest(old(timeouts)@, key)
                &&& old(timeouts)@[key] == entry
                &&& final(timeouts)@ == old(timeouts)@.remove(key)
            },
            None => {
                &&& forall|k: u128| !old(timeouts)@.contains_key(k)
                &&& final(timeouts)@ == old(timeouts)@
            },
        },
{
    timeouts.pop_first()
}

/// The registry of rooms and the queue of pending destructions.
pub struct RoomManager {
    clock: Clock,
    rooms: Vec<RoomSlot>,
    timeouts: BTreeMap<u128, TimeoutHandle>,
    issued: u64,
}

impl View for RoomManager {
    type V = ManagerView;

    closed spec fn view(&self) -> ManagerView {
        ManagerView {
            slots: self.rooms@.map_values(|s: RoomSlot| s@),
            timeouts: self.timeouts@,
            issued: self.issued,
        }
    }
}

impl RoomManager {
    /// The manager's invariant: see [`ManagerView::wf`].
    pub open spec fn wf(&self) -> bool {
        self@.wf()
    }

    /// A manager without rooms and without pending destructions.
    pub fn new() -> (m: RoomManager)
        ensures
            m.wf(),
            m@.slots == Seq::<SlotView>::empty(),
            m@.timeouts == Map::<u128, TimeoutHandle>::empty(),
            m@.issued == 0,
    {
        let m = RoomManager {
            clock: Clock::start(),
            rooms: Vec::new(),
            timeouts: BTreeMap::new(),
            issued: 0,
        };
        assert(m@.slots =~= Seq::<SlotView>::empty());
        m
    }

    /// Number of registered rooms.
    pub fn room_count(&self) -> (n: usize)
        ensures
            n == self@.slots.len(),
    {
        self.rooms.len()
    }

    /// The latest epoch handed out to a join request. Once it has reached
    /// the largest there is, no further request can be routed.
    pub fn issued(&self) -> (n: u64)
        ensures
            n == self@.issued,
    {
        self.issued
    }

    /// Number of pending destructions.
    pub fn pending(&self) -> (n: usize)
        ensures
            n == self@.timeouts.dom().len(),
    {
        self.timeouts.len()
    }

    fn position_of_name(&self, name: &String) -> (r: Option<usize>)
        requires
            self.wf(),
        ensures
            match r {
                Some(i) => find_name(self@.slots, name@) == Some(i as int) && i < self@.slots.len(),
                None => find_name(self@.slots, name@) is None,
            },
    {
        let mut i: usize = 0;
        while i < self.rooms.len()
            invariant
                i <= self.rooms.len(),
                self.wf(),
                forall|j: int| 0 <= j < i ==> !has_name_at(self@.slots, name@, j),
            decreases self.rooms.len() - i,
        {
            if self.rooms[i].name == *name {
                proof {
                    lemma_find_name(self@.slots, name@, i as int);
                }
                return Some(i);
            }
            i += 1;
        }
        None
    }

    fn position_of_id(&self, id: u128) -> (r: Option<usize>)
        requires
            self.wf(),
        ensures
            match r {
                Some(i) => find_id(self@.slots, id) == Some(i as int) && i < self@.slots.len(),
                None => find_id(self@.slots, id) is None,
            },
    {
        let mut i: usize = 0;
        while i < self.rooms.len()
            invariant
                i <= self.rooms.len(),
                self.wf(),
                forall|j: int| 0 <= j < i ==> !has_id_at(self@.slots, id, j),
            decreases self.rooms.len() - i,
        {
            if self.rooms[i].handle.id == id {
                proof {
                    lemma_find_id(self@.slots, id, i as int);
                }
                return Some(i);
            }
            i += 1;
        }
        None
    }

    /// The room called `name`, if one is registered.
    pub fn lookup(&self, name: &String) -> (r: Option<RoomHandle>)
        requires
            self.wf(),
        ensures
            r == self@.lookup(name@),
    {
        match self.position_of_name(name) {
            Some(i) => Some(self.rooms[i].handle),
            None => None,
        }
    }

    /// Whether a room with the identifier `id` is registered.
    pub fn is_registered(&self, id: u128) -> (r: bool)
        requires
            self.wf(),
        ensures
            r == find_id(self@.slots, id) is Some,
    {
        self.position_of_id(id).is_some()
    }

    /// Registers a room called `name` under the identifier `fresh` and
    /// lets it enter the next epoch, unless the identifier is taken.
    fn create_room(&mut self, name: String, fresh: u128) -> (r: Option<RoomHandle>)
        requires
            old(self).wf(),
            find_name(old(self)@.slots, name@) is None,
            old(self)@.issued < u64::MAX,
        ensures
            final(self).wf(),
            final(self)@ == old(self)@.join_or_make(name@, fresh),
            match r {
                Some(handle) => find_id(old(self)@.slots, fresh) is None && handle.id == fresh,
                None => find_id(old(self)@.slots, fresh) is Some,
            },
    {
        if self.position_of_id(fresh).is_some() {
            return None;
        }
        let handle = RoomHandle { id: fresh };
        let epoch: u64 = self.issued + 1;
        let ghost name_view = name@;
        self.rooms.push(RoomSlot { name, handle, epoch });
        self.issued = epoch;
        proof {
            assert(self@.slots =~= old(self)@.slots.push(
                SlotView { name: name_view, id: fresh, epoch },
            ));
            lemma_join_or_make_wf(old(self)@, name_view, fresh);
        }
        Some(handle)
    }

    /// Lets the room in place `i` enter the next epoch.
    fn enter(&mut self, i: usize) -> (handle: RoomHandle)
        requires
            old(self).wf(),
            i < old(self)@.slots.len(),
            old(self)@.issued < u64::MAX,
        ensures
            final(self).wf(),
            handle.id == old(self)@.slots[i as int].id,
            final(self)@ == (ManagerView {
                slots: old(self)@.slots.update(
                    i as int,
                    SlotView { epoch: final(self)@.issued, ..old(self)@.slots[i as int] },
                ),
                issued: (old(self)@.issued + 1) as u64,
                ..old(self)@
            }),
    {
        let epoch: u64 = self.issued + 1;
        let slot = &self.rooms[i];
        let handle = slot.handle;
        let next = RoomSlot { name: slot.name.clone(), handle, epoch };
        self.rooms.set(i, next);
        self.issued = epoch;
        assert(self@.slots =~= old(self)@.slots.update(
            i as int,
            SlotView { epoch, ..old(self)@.slots[i as int] },
        ));
        handle
    }

    /// Finds the room called `room`, or registers one under the
    /// identifier `fresh`, and routes the join request of the connection
    /// `id` to it. The request starts the next epoch, which voids every
    /// destruction signal that the room has sent so far.
    pub fn join_or_make_with(&mut self, room: String, id: u128, fresh: u128) -> (r: Result<
        JoinRoute,
        ManagerError,
    >)
        requires
            old(self).wf(),
            old(self)@.issued < u64::MAX,
        ensures
            final(self).wf(),
            final(self)@ == old(self)@.join_or_make(room@, fresh),
            r == old(self)@.join_route(room@, id, fresh),
    {
        match self.position_of_name(&room) {
            Some(i) => {
                let handle = self.enter(i);
                Ok(JoinRoute { room: handle, member: id, epoch: self.issued, created: false })
            },
            None => match self.create_room(room, fresh) {
                Some(handle) => Ok(
                    JoinRoute { room: handle, member: id, epoch: self.issued, created: true },
                ),
                None => Err(ManagerError::RoomIdTaken),
            },
        }
    }

    /// Finds the room called `room`, or registers one under a newly drawn
    /// identifier, and routes the join request of the connection `id` to
    /// it.
    pub fn join_or_make(&mut self, room: String, id: u128) -> (r: Result<JoinRoute, ManagerError>)
        requires
            old(self).wf(),
            old(self)@.issued < u64::MAX,
        ensures
            final(self).wf(),
            exists|fresh: u128|
                {
                    &&& is_random_uuid(fresh)
                    &&& final(self)@ == #[trigger] old(self)@.join_or_make(room@, fresh)
                    &&& r == old(self)@.join_route(room@, id, fresh)
                },
    {
        let fresh: u128 = fresh_id();
        self.join_or_make_with(room, id, fresh)
    }

    /// Takes the report, received at clock reading `now`, that the room
    /// `urg.0` is empty. If the signal `urg.1` still counts, the room is
    /// entered in the queue at the end of the grace period, or at the first
    /// free instant after it.
    pub fn handle_unreg_at(&mut self, urg: (u128, DeathSignal), now: u128) -> (r: Scheduling)
        requires
            old(self).wf(),
        ensures
            final(self).wf(),
            final(self)@ == old(self)@.handle_unreg(urg.0, urg.1, now),
            r == old(self)@.scheduling(urg.0, urg.1, now),
    {
        let (id, signal) = urg;
        let room = match self.position_of_id(id) {
            Some(i) => {
                if self.rooms[i].epoch != signal.epoch {
                    return Scheduling::Ignored;
                }
                self.rooms[i].handle
            },
            None => {
                return Scheduling::Ignored;
            },
        };
        let ghost from: int = now + GRACE_PERIOD_NANOS;
        let mut time: u128 = match now.checked_add(GRACE_PERIOD_NANOS) {
            Some(time) => time,
            None => {
                assert(forall|t: u128| !is_first_free(self@.timeouts, from, t));
                return Scheduling::Full;
            },
        };
        while self.timeouts.contains_key(&time)
            invariant
                self.wf(),
                self@ == old(self)@,
                urg == (id, signal),
                live(self@.slots, TimeoutHandle { signal, room: RoomHandle { id } }),
                from == now + GRACE_PERIOD_NANOS,
                from <= time,
                forall|k: u128| from <= k < time ==> #[trigger] self@.timeouts.contains_key(k),
            decreases u128::MAX - time,
        {
            if time == u128::MAX {
                assert(forall|t: u128| !is_first_free(self@.timeouts, from, t));
                return Scheduling::Full;
            }
            time += 1;
        }
        proof {
            lemma_first_free(self@.timeouts, from, time);
        }
        let _ = self.timeouts.insert(time, TimeoutHandle { signal, room });
        Scheduling::Scheduled { expiry: time }
    }

    /// Takes the report that the room `urg.0` is empty, as of now.
    pub fn handle_unreg(&mut self, urg: (u128, DeathSignal)) -> (r: Scheduling)
        requires
            old(self).wf(),
        ensures
            final(self).wf(),
            exists|now: u128|
                {
                    &&& final(self)@ == #[trigger] old(self)@.handle_unreg(urg.0, urg.1, now)
                    &&& r == old(self)@.scheduling(urg.0, urg.1, now)
                },
    {
        let now: u128 = self.clock.now();
        self.handle_unreg_at(urg, now)
    }

    /// Lets one entry fire: its room leaves the registry if the entry's
    /// signal still counts.
    fn settle(&mut self, entry: TimeoutHandle) -> (retired: bool)
        requires
            old(self).wf(),
        ensures
            final(self).wf(),
            retired == live(old(self)@.slots, entry),
            final(self)@ == (ManagerView {
                slots: settle(old(self)@.slots, entry),
                ..old(self)@
            }),
    {
        match self.position_of_id(entry.room.id) {
            Some(i) => {
                if self.rooms[i].epoch == entry.signal.epoch {
                    let _ = self.rooms.remove(i);
                    proof {
                        assert(self@.slots =~= old(self)@.slots.remove(i as int));
                        lemma_settle_wf(old(self)@, entry);
                    }
                    true
                } else {
                    false
                }
            },
            None => false,
        }
    }

    /// Lets every entry fire that is due at clock reading `now`, earliest
    /// first, and hands out what fired.
    pub fn sweep_at(&mut self, now: u128) -> (fired: Vec<Expired>)
        requires
            old(self).wf(),
        ensures
            final(self).wf(),
            old(self)@.fires(now, fired@),
            final(self)@ == old(self)@.swept(now, fired@),
    {
        let mut fired: Vec<Expired> = Vec::new();
        let ghost before = self@;
        let ghost mut bound: int = -1;
        loop
            invariant
                self.wf(),
                before.wf(),
                self@.issued == before.issued,
                self@.slots == settle_all(before.slots, fired@),
                bound <= now,
                forall|k: u128| #[trigger]
                    self@.timeouts.contains_key(k) ==> before.timeouts.contains_key(k) && k > bound
                        && self@.timeouts[k] == before.timeouts[k],
                forall|k: u128| #[trigger]
                    before.timeouts.contains_key(k) && k > bound ==> self@.timeouts.contains_key(k),
                forall|i: int|
                    0 <= i < fired.len() ==> {
                        &&& (#[trigger] fired[i]).expiry <= bound
                        &&& before.timeouts.contains_key(fired[i].expiry)
                        &&& before.timeouts[fired[i].expiry] == fired[i].handle
                        &&& fired[i].retired == live(
                            settle_all(before.slots, fired@.take(i)),
                            fired[i].handle,
                        )
                    },
                forall|i: int, j: int|
                    0 <= i < j < fired.len() ==> (#[trigger] fired[i]).expiry < (
                    #[trigger] fired[j]).expiry,
                forall|k: u128|
                    before.timeouts.contains_key(k) && k <= bound ==> exists|i: int|
                        0 <= i < fired.len() && (#[trigger] fired[i]).expiry == k,
            ensures
                self.wf(),
                before.fires(now, fired@),
                self@ == before.swept(now, fired@),
            decreases self@.timeouts.dom().len(),
        {
            let due = match first_timeout(&self.timeouts) {
                Some((key, _)) => key <= now,
                None => false,
            };
            if !due {
                assert(self@.timeouts =~= before.timeouts.remove_keys(
                    Set::new(|k: u128| k <= now),
                ));
                break ;
            }
            let ghost queue = self@.timeouts;
            let ghost log = fired@;
            match pop_first_timeout(&mut self.timeouts) {
                Some((expiry, handle)) => {
                    assert(queue.contains_key(expiry));
                    let retired = self.settle(handle);
                    fired.push(Expired { expiry, handle, retired });
                    proof {
                        let old_bound = bound;
                        bound = expiry as int;
                        assert(queue.contains_key(expiry) && old_bound < expiry);
                        assert(self@.timeouts == queue.remove(expiry));
                        assert forall|k: u128| self@.timeouts.contains_key(k) implies (
                        before.timeouts.contains_key(k) && k > bound) by {
                            assert(queue.contains_key(k));
                        }
                        assert forall|k: u128|
                            before.timeouts.contains_key(k) && k > bound implies self@.timeouts.contains_key(
                            k,
                        ) by {
                            assert(queue.contains_key(k));
                        }
                        assert(fired@.drop_last() =~= log);
                        assert(fired@.take(log.len() as int) =~= log);
                        assert forall|i: int| 0 <= i < fired.len() implies {
                            &&& (#[trigger] fired[i]).expiry <= bound
                            &&& before.timeouts.contains_key(fired[i].expiry)
                            &&& before.timeouts[fired[i].expiry] == fired[i].handle
                            &&& fired[i].retired == live(
                                settle_all(before.slots, fired@.take(i)),
                                fired[i].handle,
                            )
                        } by {
                            if i < log.len() {
                                assert(fired@.take(i) =~= log.take(i));
                                assert(fired[i] == log[i]);
                            }
                        }
                        assert forall|i: int, j: int| 0 <= i < j < fired.len() implies (
                        #[trigger] fired[i]).expiry < (#[trigger] fired[j]).expiry by {
                            assert(fired[i] == log[i]);
                            if j < log.len() {
                                assert(fired[j] == log[j]);
                            }
                        }
                        assert forall|k: u128|
                            before.timeouts.contains_key(k) && k <= bound implies exists|i: int|
                            0 <= i < fired.len() && (#[trigger] fired[i]).expiry == k by {
                            if k <= old_bound {
                                let i = choose|i: int|
                                    0 <= i < log.len() && (#[trigger] log[i]).expiry == k;
                                assert(fired[i].expiry == k);
                            } else {
                                assert(queue.contains_key(k));
                                assert(fired[log.len() as int].expiry == k);
                            }
                        }
                    }
                },
                None => {
                    break ;
                },
            }
        }
        fired
    }

    /// Lets every entry fire that is due now.
    pub fn sweep(&mut self) -> (fired: Vec<Expired>)
        requires
            old(self).wf(),
        ensures
            final(self).wf(),
            exists|now: u128|
                {
                    &&& #[trigger] old(self)@.fires(now, fired@)
                    &&& final(self)@ == old(self)@.swept(now, fired@)
                },
    {
        let now: u128 = self.clock.now();
        self.sweep_at(now)
    }

    /// Nanoseconds from clock reading `now` until the next sweep is due.
    /// The timer that wakes the manager is set anew to this after every
    /// change of the queue.
    pub fn until_wake_at(&self, now: u128) -> (r: Option<u128>)
        ensures
            r == self@.until_wake(now),
    {
        match first_timeout(&self.timeouts) {
            Some((first, _)) => {
                proof {
                    lemma_earliest(self@.timeouts, first);
                }
                Some(if first >= now { first - now } else { 0 })
            },
            None => None,
        }
    }

    /// Nanoseconds from now until the next sweep is due.
    pub fn until_wake(&self) -> (r: Option<u128>)
        ensures
            exists|now: u128| r == #[trigger] self@.until_wake(now),
    {
        let now: u128 = self.clock.now();
        self.until_wake_at(now)
    }

    /// Handles one message of the connection layer.
    pub fn handle_msg(&mut self, msg: ManagerMessage) -> (r: Result<JoinRoute, ManagerError>)
        requires
            old(self).wf(),
            old(self)@.issued < u64::MAX,
        ensures
            final(self).wf(),
            exists|fresh: u128|
                {
                    &&& is_random_uuid(fresh)
                    &&& final(self)@ == #[trigger] old(self)@.join_or_make(msg->room@, fresh)
                    &&& r == old(self)@.join_route(msg->room@, msg->id, fresh)
                },
    {
        match msg {
            ManagerMessage::JoinOrMake { room, id } => self.join_or_make(room, id),
        }
    }
}

} // verus!
