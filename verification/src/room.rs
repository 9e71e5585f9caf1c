//! One room: its members, its playback clock, and the decision when it may
//! be torn down.
//!
//! A room that loses its last member mints a destruction ticket and tells the
//! manager. The ticket names the epoch in which it was minted. Every join
//! request brings the room a new epoch from the manager and so voids all
//! earlier tickets.

pub mod timer;

use crate::room::timer::{capped_sum, elapsed, Controller, ControllerView, PlayerEvent};
use std::collections::HashMap;
use vstd::prelude::*;

verus! {

/// May do nothing.
pub const NONE: u8 = 0b0000_0000;

/// May ask for an entry to be put on the queue.
pub const REQ_ENQUEUE: u8 = 0b0000_0001;

/// May reorder and remove queue entries.
pub const MOD_QUEUE: u8 = 0b0000_0010;

/// May pause and resume the video.
pub const PAUSE_VIDEO: u8 = 0b0000_0100;

/// May jump to another position in the video.
pub const JMP_VIDEO: u8 = 0b0000_1000;

/// May pause, resume and jump.
pub const MOD_VIDEO: u8 = PAUSE_VIDEO | JMP_VIDEO;

/// May do everything.
pub const ADMIN: u8 = 0b1111_1111;

/// The capabilities a member holds, one bit each.
#[derive(Clone, Copy, Debug, PartialEq, Eq, Structural)]
pub struct ClientPerms {
    pub bits: u8,
}

impl ClientPerms {
    /// `self` holds every capability of `other`.
    pub open spec fn spec_contains(self, other: ClientPerms) -> bool {
        self.bits & other.bits == other.bits
    }

    pub open spec fn spec_union(self, other: ClientPerms) -> ClientPerms {
        ClientPerms { bits: self.bits | other.bits }
    }

    /// No capability at all.
    pub fn empty() -> (p: ClientPerms)
        ensures
            p.bits == NONE,
    {
        ClientPerms { bits: NONE }
    }

    /// The set of the capabilities whose bits are set in `bits`.
    pub fn from_bits(bits: u8) -> (p: ClientPerms)
        ensures
            p.bits == bits,
    {
        ClientPerms { bits }
    }

    pub fn bits(self) -> (bits: u8)
        ensures
            bits == self.bits,
    {
        self.bits
    }

    pub fn is_empty(self) -> (r: bool)
        ensures
            r == (self.bits == 0),
    {
        self.bits == 0
    }

    #[verifier::when_used_as_spec(spec_contains)]
    pub fn contains(self, other: ClientPerms) -> (r: bool)
        ensures
            r == self.spec_contains(other),
    {
        self.bits & other.bits == other.bits
    }

    /// The capabilities held by either of the two.
    #[verifier::when_used_as_spec(spec_union)]
    pub fn union(self, other: ClientPerms) -> (p: ClientPerms)
        ensures
            p == self.spec_union(other),
    {
        ClientPerms { bits: self.bits | other.bits }
    }
}

/// A union holds whatever either side holds, and it is the least such set:
/// every set that holds both sides holds their union.
pub proof fn lemma_union_is_least_upper_bound(a: ClientPerms, b: ClientPerms, c: ClientPerms)
    ensures
        a.union(b).contains(a),
        a.union(b).contains(b),
        c.contains(a) && c.contains(b) ==> c.contains(a.union(b)),
{
    let (x, y, z) = (a.bits, b.bits, c.bits);
    assert((x | y) & x == x) by (bit_vector);
    assert((x | y) & y == y) by (bit_vector);
    assert(z & x == x && z & y == y ==> z & (x | y) == (x | y)) by (bit_vector);
}

/// The administrator holds every capability, everyone holds the empty set,
/// and the video capability is exactly pausing together with jumping.
pub proof fn lemma_capability_constants(p: ClientPerms)
    ensures
        (ClientPerms { bits: ADMIN }).contains(p),
        p.contains((ClientPerms { bits: NONE })),
        p.contains((ClientPerms { bits: MOD_VIDEO })) <==> (p.contains(
            (ClientPerms { bits: PAUSE_VIDEO }),
        ) && p.contains((ClientPerms { bits: JMP_VIDEO }))),
{
    let x = p.bits;
    assert(0xffu8 & x == x) by (bit_vector);
    assert(x & 0u8 == 0u8) by (bit_vector);
    assert(4u8 | 8u8 == 12u8) by (bit_vector);
    assert(x & 12u8 == 12u8 <==> x & 4u8 == 4u8 && x & 8u8 == 8u8) by (bit_vector);
}

/// The display name every member gets until names can be chosen.
pub open spec fn default_name() -> Seq<char> {
    "User"@
}

/// One participant of a room.
pub struct Member {
    pub id: u128,
    pub name: String,
    pub perms: ClientPerms,
}

/// One participant of a room, as far as the room's behaviour goes.
pub struct MemberView {
    pub id: u128,
    pub name: Seq<char>,
    pub perms: ClientPerms,
}

impl View for Member {
    type V = MemberView;

    open spec fn view(&self) -> MemberView {
        MemberView { id: self.id, name: self.name@, perms: self.perms }
    }
}

/// The record a member starts with: the placeholder name and no capability.
pub open spec fn newcomer(id: u128) -> MemberView {
    MemberView { id, name: default_name(), perms: ClientPerms { bits: NONE } }
}

/// The owned half of a pending destruction. The room keeps it for as long as
/// it stays empty.
#[derive(Debug, PartialEq, Eq, Structural)]
pub struct DeathTicket {
    pub epoch: u64,
}

/// The half of a pending destruction that is handed to the manager. It
/// names the ticket without keeping it alive.
#[derive(Clone, Copy, Debug, PartialEq, Eq, Structural)]
pub struct DeathSignal {
    pub epoch: u64,
}

impl DeathTicket {
    pub open spec fn spec_signal(&self) -> DeathSignal {
        DeathSignal { epoch: self.epoch }
    }

    /// The observation that belongs to this ticket.
    #[verifier::when_used_as_spec(spec_signal)]
    pub fn signal(&self) -> (s: DeathSignal)
        ensures
            s == self.spec_signal(),
    {
        DeathSignal { epoch: self.epoch }
    }
}

/// Why a room refused a request.
#[derive(Clone, Copy, Debug, PartialEq, Eq, Structural)]
pub enum RoomError {
    /// The identifier already belongs to a member of the room.
    DuplicateMember,
}

/// What a connection asks of a room.
#[derive(Clone, Copy, Debug, PartialEq, Eq, Structural)]
pub enum RoomMessage {
    /// The sender wants to join and to receive the room's updates. The
    /// manager gives each such request a new epoch.
    Subscribe { epoch: u64 },
    /// The named member is gone.
    Unsubscribe(u128),
}

/// What a room sends to all of its subscribers.
#[derive(Clone, Copy, Debug, PartialEq, Eq, Structural)]
pub enum RoomUpdate {
    Player(PlayerEvent),
}

/// What the room's owner has to do after a message was handled.
#[derive(Clone, Copy, Debug, PartialEq, Eq, Structural)]
pub enum RoomReply {
    /// Hand the sender a fresh subscription to the room's updates.
    Subscribed,
    /// Tell the sender that the join failed.
    Rejected(RoomError),
    /// Nothing: the room still has members, or nobody left it.
    Left,
    /// Tell the manager that this room is empty.
    Vacated { room: u128, signal: DeathSignal },
}

/// Draws a random identifier with `uuid::Uuid::new_v4` and hands it out as
/// its 128-bit value. Which identifier comes out is left open; what is
/// claimed is what every version-4 UUID has: the version 4 in bits 76 to 79
/// and the variant `10` in bits 62 and 63. The draw fails only where the
/// operating system has no random bytes to give.
#[verifier::external_body]
pub(crate) fn fresh_id() -> (id: u128)
    ensures
        is_random_uuid(id),
{
    uuid::Uuid::new_v4().as_u128()
}

/// `id` has the version and variant bits of a random (version 4) UUID.
pub open spec fn is_random_uuid(id: u128) -> bool {
    id & 0x0000_0000_0000_f000_c000_0000_0000_0000u128
        == 0x0000_0000_0000_4000_8000_0000_0000_0000u128
}

/// The address of a room: all that other components hold of it.
#[derive(Clone, Copy, Debug, PartialEq, Eq, Structural)]
pub struct RoomHandle {
    pub id: u128,
}

impl RoomHandle {
    /// A handle for a room that does not exist yet, under a random
    /// identifier.
    pub fn new() -> (handle: RoomHandle)
        ensures
            is_random_uuid(handle.id),
    {
        RoomHandle { id: fresh_id() }
    }

    pub fn id(&self) -> (id: u128)
        ensures
            id == self.id,
    {
        self.id
    }
}

/// One step of a room's membership history.
pub enum MemberOp {
    Join { id: u128, epoch: u64 },
    Leave(u128),
}

/// What a room is, as far as its behaviour goes.
pub struct RoomView {
    pub id: u128,
    pub members: Map<u128, MemberView>,
    /// Epoch of the destruction ticket the room holds, if it holds one.
    pub ticket: Option<u64>,
    /// Epoch of the latest join request.
    pub epoch: u64,
    pub controller: ControllerView,
}

impl RoomView {
    pub open spec fn wf(self) -> bool {
        &&& self.members.dom().finite()
        &&& forall|id: u128| #[trigger]
            self.members.contains_key(id) ==> self.members[id].id == id
        &&& self.ticket is Some ==> self.members.dom().is_empty() && self.ticket == Some(
            self.epoch,
        )
    }

    /// A room as it is started: nobody in it, no ticket, before its first
    /// epoch, paused at position zero.
    pub open spec fn started(id: u128) -> RoomView {
        RoomView {
            id,
            members: Map::empty(),
            ticket: None,
            epoch: 0,
            controller: ControllerView { start: 0, offset: 0, playing: false, dirty: false },
        }
    }

    /// The room still holds the ticket that `signal` observes.
    pub open spec fn holds(self, signal: DeathSignal) -> bool {
        self.ticket == Some(signal.epoch)
    }

    pub open spec fn join_result(self, id: u128) -> Result<(), RoomError> {
        if self.members.contains_key(id) {
            Err(RoomError::DuplicateMember)
        } else {
            Ok(())
        }
    }

    /// The room after a join request for `id` to which the manager gave
    /// `epoch`. A request for an identifier that is already a member changes
    /// nothing but the epoch.
    pub open spec fn join(self, id: u128, epoch: u64) -> RoomView {
        if self.members.contains_key(id) {
            RoomView { epoch, ..self }
        } else {
            RoomView { members: self.members.insert(id, newcomer(id)), ticket: None, epoch, ..self }
        }
    }

    /// The member `id` is the only one in the room.
    pub open spec fn is_last(self, id: u128) -> bool {
        self.members.contains_key(id) && self.members.remove(id).dom().is_empty()
    }

    /// The room after `id` has left. A leave of somebody who is not a member
    /// changes nothing. The room mints a ticket when its last member leaves,
    /// and only then.
    pub open spec fn leave(self, id: u128) -> RoomView {
        if self.members.contains_key(id) {
            RoomView {
                members: self.members.remove(id),
                ticket: if self.is_last(id) {
                    Some(self.epoch)
                } else {
                    self.ticket
                },
                ..self
            }
        } else {
            self
        }
    }

    /// What the room's owner has to do after `id` has left: tell the manager
    /// if that was the last member, nothing otherwise.
    pub open spec fn leave_reply(self, id: u128) -> RoomReply {
        if self.is_last(id) {
            RoomReply::Vacated { room: self.id, signal: DeathSignal { epoch: self.epoch } }
        } else {
            RoomReply::Left
        }
    }

    pub open spec fn handle(self, sender: u128, msg: RoomMessage) -> RoomView {
        match msg {
            RoomMessage::Subscribe { epoch } => self.join(sender, epoch),
            RoomMessage::Unsubscribe(id) => self.leave(id),
        }
    }

    pub open spec fn reply(self, sender: u128, msg: RoomMessage) -> RoomReply {
        match msg {
            RoomMessage::Subscribe { .. } => match self.join_result(sender) {
                Ok(_) => RoomReply::Subscribed,
                Err(e) => RoomReply::Rejected(e),
            },
            RoomMessage::Unsubscribe(id) => self.leave_reply(id),
        }
    }

    /// The room after its owner has asked for the correction that is due.
    pub open spec fn polled(self) -> RoomView {
        RoomView { controller: self.controller.acknowledged(), ..self }
    }

    /// What goes out when the owner asks at clock reading `now` for the
    /// correction that is due.
    pub open spec fn poll_at(self, now: u128) -> Option<RoomUpdate> {
        match self.controller.pending_at(now) {
            Some(event) => Some(RoomUpdate::Player(event)),
            None => None,
        }
    }

    /// What goes out for the heartbeat at clock reading `now`.
    pub open spec fn tick_at(self, now: u128) -> RoomUpdate {
        RoomUpdate::Player(PlayerEvent::Tick(self.controller.position_at(now)))
    }

    pub open spec fn apply(self, op: MemberOp) -> RoomView {
        match op {
            MemberOp::Join { id, epoch } => self.join(id, epoch),
            MemberOp::Leave(id) => self.leave(id),
        }
    }

    /// The room after the whole history `ops`, oldest step first.
    pub open spec fn replay(self, ops: Seq<MemberOp>) -> RoomView
        decreases ops.len(),
    {
        if ops.len() == 0 {
            self
        } else {
            self.replay(ops.drop_last()).apply(ops.last())
        }
    }

    /// How many joins of `ops` took a new member in.
    pub open spec fn joins(self, ops: Seq<MemberOp>) -> nat
        decreases ops.len(),
    {
        if ops.len() == 0 {
            0
        } else {
            let before = self.replay(ops.drop_last());
            let this: nat = match ops.last() {
                MemberOp::Join { id, .. } => taken_in(before, id),
                MemberOp::Leave(_) => 0,
            };
            self.joins(ops.drop_last()) + this
        }
    }

    /// How many leaves of `ops` took a member out.
    pub open spec fn leaves(self, ops: Seq<MemberOp>) -> nat
        decreases ops.len(),
    {
        if ops.len() == 0 {
            0
        } else {
            let before = self.replay(ops.drop_last());
            let this: nat = match ops.last() {
                MemberOp::Join { .. } => 0,
                MemberOp::Leave(id) => taken_out(before, id),
            };
            self.leaves(ops.drop_last()) + this
        }
    }
}

/// The state of one room.
pub struct Room {
    id: u128,
    controller: Controller,
    members: HashMap<u128, Member>,
    death_ticket: Option<DeathTicket>,
    epoch: u64,
}

impl View for Room {
    type V = RoomView;

    closed spec fn view(&self) -> RoomView {
        RoomView {
            id: self.id,
            members: self.members@.map_values(|m: Member| m@),
            ticket: match self.death_ticket {
                Some(t) => Some(t.epoch),
                None => None,
            },
            epoch: self.epoch,
            controller: self.controller@,
        }
    }
}

impl Room {
    /// The room's invariant: see [`RoomView::wf`].
    pub open spec fn wf(&self) -> bool {
        self@.wf()
    }

    /// An empty room before its first epoch, paused at position zero. It
    /// holds no ticket: nobody has left it yet.
    pub fn new(id: u128) -> (room: Room)
        ensures
            room.wf(),
            room@ == RoomView::started(id),
    {
        let room = Room {
            id,
            controller: Controller::new(),
            members: HashMap::new(),
            death_ticket: None,
            epoch: 0,
        };
        assert(room@.members =~= Map::<u128, MemberView>::empty());
        room
    }

    pub fn id(&self) -> (id: u128)
        ensures
            id == self@.id,
    {
        self.id
    }

    /// Number of members.
    pub fn len(&self) -> (n: usize)
        ensures
            n == self@.members.dom().len(),
    {
        assert(self@.members.dom() =~= self.members@.dom());
        self.members.len()
    }

    pub fn is_member(&self, id: u128) -> (r: bool)
        ensures
            r == self@.members.contains_key(id),
    {
        self.members.contains_key(&id)
    }

    /// The record of the member `id`, if there is one.
    pub fn member(&self, id: u128) -> (r: Option<&Member>)
        ensures
            match r {
                Some(m) => self@.members.contains_key(id) && self@.members[id] == m@,
                None => !self@.members.contains_key(id),
            },
    {
        self.members.get(&id)
    }

    /// The observation of the ticket the room holds, if it holds one.
    pub fn pending_death(&self) -> (s: Option<DeathSignal>)
        ensures
            s is Some <==> self@.ticket is Some,
            s is Some ==> self@.holds(s->0),
    {
        match &self.death_ticket {
            Some(t) => Some(t.signal()),
            None => None,
        }
    }

    /// Takes `id` in as a new member with the placeholder name and no
    /// capability, and drops the destruction ticket if one is held. `epoch`
    /// is the epoch that the manager gave the request.
    pub fn join_user(&mut self, id: u128, epoch: u64) -> (r: Result<(), RoomError>)
        requires
            old(self).wf(),
        ensures
            final(self).wf(),
            final(self)@ == old(self)@.join(id, epoch),
            r == old(self)@.join_result(id),
    {
        let ghost before = self@;
        self.epoch = epoch;
        if self.members.contains_key(&id) {
            assert(self@ == before.join(id, epoch));
            return Err(RoomError::DuplicateMember);
        }
        let member = Member { id, name: "User".to_owned(), perms: ClientPerms::empty() };
        assert(member@ == newcomer(id));
        self.members.insert(id, member);
        // we don't want to die anymore in case we wanted to
        self.death_ticket = None;
        assert(self@.members =~= before.members.insert(id, newcomer(id)));
        Ok(())
    }

    /// Handles one message from the connection `sender`.
    pub fn handle_msg(&mut self, sender: u128, msg: RoomMessage) -> (reply: RoomReply)
        requires
            old(self).wf(),
        ensures
            final(self).wf(),
            final(self)@ == old(self)@.handle(sender, msg),
            reply == old(self)@.reply(sender, msg),
    {
        let ghost before = self@;
        match msg {
            RoomMessage::Subscribe { epoch } => match self.join_user(sender, epoch) {
                Ok(_) => RoomReply::Subscribed,
                Err(e) => RoomReply::Rejected(e),
            },
            RoomMessage::Unsubscribe(id) => {
                if self.members.remove(&id).is_none() {
                    assert(self@.members =~= before.members);
                    return RoomReply::Left;
                }
                assert(self@.members =~= before.members.remove(id));
                assert(self@.members.dom() =~= self.members@.dom());
                if self.members.is_empty() {
                    let ticket = DeathTicket { epoch: self.epoch };
                    let signal = ticket.signal();
                    self.death_ticket = Some(ticket);
                    RoomReply::Vacated { room: self.id, signal }
                } else {
                    RoomReply::Left
                }
            },
        }
    }

    pub fn controller(&self) -> (c: &Controller)
        ensures
            c@ == self@.controller,
    {
        &self.controller
    }

    /// The playback clock, to be driven by whoever may control playback.
    pub fn controller_mut(&mut self) -> (c: &mut Controller)
        ensures
            c@ == old(self)@.controller,
            final(self)@ == (RoomView { controller: final(c)@, ..old(self)@ }),
    {
        &mut self.controller
    }

    /// Asks the playback clock for the correction that is due at clock
    /// reading `now` and turns it into what the subscribers get. The owner
    /// does this before it takes the next message from the mailbox, so that
    /// a correction never waits behind membership traffic.
    pub fn next_update_at(&mut self, now: u128) -> (out: Option<RoomUpdate>)
        ensures
            out == old(self)@.poll_at(now),
            final(self)@ == old(self)@.polled(),
    {
        match self.controller.next_update_at(now) {
            Some(event) => Some(self.broadcast_update(event)),
            None => None,
        }
    }

    /// Asks the playback clock for the correction that is due now.
    pub fn next_update(&mut self) -> (out: Option<RoomUpdate>)
        ensures
            final(self)@ == old(self)@.polled(),
            exists|now: u128| out == #[trigger] old(self)@.poll_at(now),
    {
        let ghost before = self@;
        let event = self.controller.next_update();
        let out = match event {
            Some(event) => Some(self.broadcast_update(event)),
            None => None,
        };
        proof {
            let now = choose|now: u128| event == #[trigger] before.controller.pending_at(now);
            assert(out == before.poll_at(now));
        }
        out
    }

    /// The heartbeat for clock reading `now`, as the subscribers get it.
    pub fn tick_at(&self, now: u128) -> (out: RoomUpdate)
        ensures
            out == self@.tick_at(now),
    {
        self.broadcast_update(self.controller.tick_at(now))
    }

    /// The heartbeat for the present moment, as the subscribers get it.
    pub fn tick(&self) -> (out: RoomUpdate)
        ensures
            exists|now: u128| out == #[trigger] self@.tick_at(now),
    {
        let event = self.controller.tick();
        let out = self.broadcast_update(event);
        proof {
            let now = choose|now: u128|
                event == PlayerEvent::Tick(#[trigger] self@.controller.position_at(now));
            assert(out == self@.tick_at(now));
        }
        out
    }

    /// Turns a playback event into what goes out to the subscribers. Every
    /// event goes out, whoever is in the room and whether or not anybody
    /// listens.
    pub fn broadcast_update(&self, update: PlayerEvent) -> (out: RoomUpdate)
        ensures
            out == RoomUpdate::Player(update),
    {
        RoomUpdate::Player(update)
    }
}

/// The member count of a room is what its history says: the members it
/// started with, plus the joins that took someone in, minus the leaves that
/// took someone out. Leaves can never outnumber what was there to leave.
pub proof fn lemma_member_count(room: RoomView, ops: Seq<MemberOp>)
    requires
        room.wf(),
    ensures
        room.replay(ops).wf(),
        room.replay(ops).members.dom().len() + room.leaves(ops) == room.members.dom().len()
            + room.joins(ops),
        room.leaves(ops) <= room.members.dom().len() + room.joins(ops),
    decreases ops.len(),
{
    if ops.len() > 0 {
        lemma_member_count(room, ops.drop_last());
        let before = room.replay(ops.drop_last());
        match ops.last() {
            MemberOp::Join { id, epoch } => {
                lemma_join_keeps_wf(before, id, epoch);
            },
            MemberOp::Leave(id) => {
                lemma_leave_keeps_wf(before, id);
            },
        }
    }
}

/// How many members a join request for `id` adds to `room`.
pub open spec fn taken_in(room: RoomView, id: u128) -> nat {
    if room.members.contains_key(id) {
        0
    } else {
        1
    }
}

/// How many members a leave of `id` takes from `room`.
pub open spec fn taken_out(room: RoomView, id: u128) -> nat {
    if room.members.contains_key(id) {
        1
    } else {
        0
    }
}

/// A join request leaves the room well formed, with one member more if the
/// identifier was new and with the same members if it was not.
pub proof fn lemma_join_keeps_wf(room: RoomView, id: u128, epoch: u64)
    requires
        room.wf(),
    ensures
        room.join(id, epoch).wf(),
        room.join(id, epoch).ticket is None,
        room.join(id, epoch).members.dom().len() == room.members.dom().len() + taken_in(room, id),
{
    if room.ticket is Some {
        assert(!room.members.dom().contains(id));
    }
}

/// A leave leaves the room well formed, with one member less if the
/// identifier was a member, and as it was if it was not.
pub proof fn lemma_leave_keeps_wf(room: RoomView, id: u128)
    requires
        room.wf(),
    ensures
        room.leave(id).wf(),
        room.leave(id).members.dom().len() + taken_out(room, id) == room.members.dom().len(),
        !room.members.contains_key(id) ==> room.leave(id) == room,
{
    let after = room.leave(id);
    if !after.members.dom().is_empty() && room.ticket is Some {
        let other = after.members.dom().choose();
        assert(room.members.dom().contains(other));
    }
}

/// A leave of somebody who is not a member changes nothing and asks nothing
/// of the room's owner, so a leave that comes twice counts once: the second
/// one neither mints a ticket nor reports to the manager.
pub proof fn lemma_repeated_leave_changes_nothing(room: RoomView, id: u128)
    ensures
        !room.members.contains_key(id) ==> room.leave(id) == room && room.leave_reply(id)
            == RoomReply::Left,
        room.leave(id).leave(id) == room.leave(id),
        room.leave(id).leave_reply(id) == RoomReply::Left,
{
}

/// Both corrections of a pause that is followed by a resume go out to the
/// subscribers, the pause first, however close the two are: the room's owner
/// asks for the correction that is due after each of them.
pub proof fn lemma_corrections_go_out_in_order(
    room: RoomView,
    paused: u128,
    first_poll: u128,
    resumed: u128,
    second_poll: u128,
)
    requires
        room.controller.playing,
    ensures
        ({
            let position = room.controller.position_at(paused);
            let r1 = RoomView { controller: room.controller.pause_at(paused), ..room };
            let r2 = RoomView { controller: r1.polled().controller.play_at(resumed), ..r1 };
            &&& r1.poll_at(first_poll) == Some(
                RoomUpdate::Player(PlayerEvent::Fix { playing: false, position }),
            )
            &&& r2.poll_at(second_poll) == Some(
                RoomUpdate::Player(
                    PlayerEvent::Fix {
                        playing: true,
                        position: capped_sum(position, elapsed(resumed, second_poll)),
                    },
                ),
            )
            &&& r2.polled().poll_at(second_poll) == None::<RoomUpdate>
        }),
{
}

} // verus!
