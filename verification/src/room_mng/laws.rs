//! What holds of the registry and its queue over several steps.

use crate::room::{DeathSignal, RoomHandle};
use crate::room_mng::{
    distinct, find_id, find_name, has_id_at, has_name_at, is_first_free, lemma_find_id,
    lemma_find_name, live, settle, settle_all, Expired, JoinRoute, ManagerError, ManagerView,
    Scheduling, SlotView, TimeoutHandle, GRACE_PERIOD_NANOS,
};
use vstd::prelude::*;

verus! {

/// One of `fired` is about the room of `slot` and carries the epoch that
/// the room is in.
pub open spec fn doomed(fired: Seq<Expired>, slot: SlotView) -> bool {
    exists|i: int|
        0 <= i < fired.len() && (#[trigger] fired[i]).handle.room.id == slot.id
            && fired[i].handle.signal.epoch == slot.epoch
}

/// Taking one room out of the registry leaves all others in, and leaves
/// names and identifiers distinct.
pub proof fn lemma_remove_slot(slots: Seq<SlotView>, i: int)
    requires
        distinct(slots),
        0 <= i < slots.len(),
    ensures
        distinct(slots.remove(i)),
        forall|s: SlotView|
            slots.remove(i).contains(s) <==> slots.contains(s) && s.id != slots[i].id,
{
    let rest = slots.remove(i);
    assert forall|a: int, b: int| 0 <= a < b < rest.len() implies (#[trigger] rest[a]).name != (
    #[trigger] rest[b]).name && rest[a].id != rest[b].id by {
        let a0 = if a < i { a } else { a + 1 };
        let b0 = if b < i { b } else { b + 1 };
        assert(slots[a0].name != slots[b0].name);
        assert(slots[a0].id != slots[b0].id);
    }
    assert forall|s: SlotView| rest.contains(s) implies slots.contains(s) && s.id != slots[i].id by {
        let a = choose|a: int| 0 <= a < rest.len() && rest[a] == s;
        let a0 = if a < i { a } else { a + 1 };
        assert(slots[a0] == s);
        if a0 < i {
            assert(slots[a0].id != slots[i].id);
        } else {
            assert(slots[i].id != slots[a0].id);
        }
    }
    assert forall|s: SlotView| slots.contains(s) && s.id != slots[i].id implies rest.contains(s) by {
        let a0 = choose|a0: int| 0 <= a0 < slots.len() && slots[a0] == s;
        let a = if a0 < i { a0 } else { a0 - 1 };
        assert(rest[a] == s);
    }
}

/// A room is registered under an identifier exactly if one of the slots
/// carries it.
pub proof fn lemma_registered(slots: Seq<SlotView>, s: SlotView)
    requires
        distinct(slots),
        slots.contains(s),
    ensures
        find_id(slots, s.id) is Some,
        slots[find_id(slots, s.id)->0] == s,
        find_name(slots, s.name) is Some,
        slots[find_name(slots, s.name)->0] == s,
{
    let i = choose|i: int| 0 <= i < slots.len() && slots[i] == s;
    assert(has_id_at(slots, s.id, i));
    assert(has_name_at(slots, s.name, i));
    lemma_find_id(slots, s.id, i);
    lemma_find_name(slots, s.name, i);
}

/// After a sweep the registry holds the rooms it held before, but for those
/// that one of the fired entries was about and matched in epoch. What is
/// left keeps its name, identifier and epoch.
pub proof fn lemma_settle_all(slots: Seq<SlotView>, fired: Seq<Expired>)
    requires
        distinct(slots),
    ensures
        distinct(settle_all(slots, fired)),
        forall|s: SlotView|
            settle_all(slots, fired).contains(s) <==> slots.contains(s) && !doomed(fired, s),
    decreases fired.len(),
{
    if fired.len() > 0 {
        let earlier = fired.drop_last();
        let entry = fired.last().handle;
        let rest = settle_all(slots, earlier);
        let last = settle(rest, entry);
        lemma_settle_all(slots, earlier);
        if live(rest, entry) {
            let i = find_id(rest, entry.room.id)->0;
            assert(has_id_at(rest, entry.room.id, i));
            lemma_remove_slot(rest, i);
        }
        assert forall|s: SlotView| last.contains(s) implies slots.contains(s) && !doomed(
            fired,
            s,
        ) by {
            assert(rest.contains(s));
            if doomed(fired, s) {
                let k = choose|k: int|
                    0 <= k < fired.len() && (#[trigger] fired[k]).handle.room.id == s.id
                        && fired[k].handle.signal.epoch == s.epoch;
                if k < earlier.len() {
                    assert(earlier[k] == fired[k]);
                    assert(doomed(earlier, s));
                } else {
                    lemma_registered(rest, s);
                    assert(live(rest, entry));
                }
            }
        }
        assert forall|s: SlotView| slots.contains(s) && !doomed(fired, s) implies last.contains(
            s,
        ) by {
            if doomed(earlier, s) {
                let k = choose|k: int|
                    0 <= k < earlier.len() && (#[trigger] earlier[k]).handle.room.id == s.id
                        && earlier[k].handle.signal.epoch == s.epoch;
                assert(fired[k] == earlier[k]);
            }
            assert(rest.contains(s));
            if live(rest, entry) {
                let i = find_id(rest, entry.room.id)->0;
                assert(has_id_at(rest, entry.room.id, i));
                if s.id == entry.room.id {
                    lemma_registered(rest, s);
                    assert(fired[fired.len() - 1].handle.room.id == s.id);
                }
            }
        }
    }
}

/// A join request leaves the manager well formed.
pub proof fn lemma_join_or_make_wf(m: ManagerView, name: Seq<char>, fresh: u128)
    requires
        m.wf(),
        m.issued < u64::MAX,
    ensures
        m.join_or_make(name, fresh).wf(),
{
    let after = m.join_or_make(name, fresh);
    match find_name(m.slots, name) {
        Some(i) => {
            assert(has_name_at(m.slots, name, i));
            assert forall|a: int, b: int| 0 <= a < b < after.slots.len() implies (
            #[trigger] after.slots[a]).name != (#[trigger] after.slots[b]).name
                && after.slots[a].id != after.slots[b].id by {
                assert(m.slots[a].name != m.slots[b].name);
                assert(m.slots[a].id != m.slots[b].id);
            }
            assert forall|a: int| 0 <= a < after.slots.len() implies (
            #[trigger] after.slots[a]).epoch <= after.issued by {
                assert(m.slots[a].epoch <= m.issued);
            }
        },
        None => {
            if find_id(m.slots, fresh) is None {
                assert forall|a: int, b: int| 0 <= a < b < after.slots.len() implies (
                #[trigger] after.slots[a]).name != (#[trigger] after.slots[b]).name
                    && after.slots[a].id != after.slots[b].id by {
                    if b == m.slots.len() {
                        assert(!has_name_at(m.slots, name, a));
                        assert(!has_id_at(m.slots, fresh, a));
                    } else {
                        assert(m.slots[a].name != m.slots[b].name);
                        assert(m.slots[a].id != m.slots[b].id);
                    }
                }
                assert forall|a: int| 0 <= a < after.slots.len() implies (
                #[trigger] after.slots[a]).epoch <= after.issued by {
                    if a < m.slots.len() {
                        assert(m.slots[a].epoch <= m.issued);
                    }
                }
            }
        },
    }
}

/// An entry that fires leaves the manager well formed.
pub proof fn lemma_settle_wf(m: ManagerView, entry: TimeoutHandle)
    requires
        m.wf(),
    ensures
        (ManagerView { slots: settle(m.slots, entry), ..m }).wf(),
{
    if live(m.slots, entry) {
        let i = find_id(m.slots, entry.room.id)->0;
        assert(has_id_at(m.slots, entry.room.id, i));
        lemma_remove_slot(m.slots, i);
        let left = m.slots.remove(i);
        assert forall|a: int| 0 <= a < left.len() implies (#[trigger] left[a]).epoch
            <= m.issued by {
            let a0 = if a < i { a } else { a + 1 };
            assert(m.slots[a0].epoch <= m.issued);
        }
    }
}

/// A report that a room is empty leaves the manager well formed.
pub proof fn lemma_handle_unreg_wf(m: ManagerView, id: u128, signal: DeathSignal, now: u128)
    requires
        m.wf(),
    ensures
        m.handle_unreg(id, signal, now).wf(),
{
    if m.scheduling(id, signal, now) is Scheduled {
        let i = find_id(m.slots, id)->0;
        assert(has_id_at(m.slots, id, i));
        assert(m.slots[i].epoch <= m.issued);
    }
}

/// A sweep leaves the manager well formed.
pub proof fn lemma_swept_wf(m: ManagerView, now: u128, fired: Seq<Expired>)
    requires
        m.wf(),
    ensures
        m.swept(now, fired).wf(),
{
    let after = m.swept(now, fired);
    lemma_settle_all(m.slots, fired);
    assert(after.timeouts.dom() =~= m.timeouts.dom().difference(Set::new(|k: u128| k <= now)));
    assert forall|k: u128| #[trigger] after.timeouts.contains_key(k) implies after.timeouts[k].signal.epoch
        <= after.issued by {
        assert(m.timeouts.contains_key(k));
    }
    assert forall|a: int| 0 <= a < after.slots.len() implies (#[trigger] after.slots[a]).epoch
        <= after.issued by {
        let s = after.slots[a];
        assert(settle_all(m.slots, fired).contains(s));
        assert(m.slots.contains(s));
        let a0 = choose|a0: int| 0 <= a0 < m.slots.len() && m.slots[a0] == s;
        assert(m.slots[a0].epoch <= m.issued);
    }
}

/// A request for a registered name is routed to the room that has the name.
/// No room is made, the registry keeps its size, and every name leads where
/// it led before.
pub proof fn lemma_join_finds_the_room(
    m: ManagerView,
    name: Seq<char>,
    member: u128,
    fresh: u128,
    other: Seq<char>,
)
    requires
        m.wf(),
        m.issued < u64::MAX,
        m.lookup(name) is Some,
    ensures
        m.join_route(name, member, fresh) == Ok::<JoinRoute, ManagerError>(
            JoinRoute {
                room: m.lookup(name)->0,
                member,
                epoch: (m.issued + 1) as u64,
                created: false,
            },
        ),
        m.join_or_make(name, fresh).slots.len() == m.slots.len(),
        m.join_or_make(name, fresh).lookup(other) == m.lookup(other),
        find_id(m.join_or_make(name, fresh).slots, m.lookup(name)->0.id) is Some,
        m.join_or_make(name, fresh).timeouts == m.timeouts,
{
    let after = m.join_or_make(name, fresh);
    let i = find_name(m.slots, name)->0;
    assert(has_name_at(m.slots, name, i));
    lemma_join_or_make_wf(m, name, fresh);
    assert(has_id_at(after.slots, m.slots[i].id, i));
    if find_name(m.slots, other) is Some {
        let j = find_name(m.slots, other)->0;
        assert(has_name_at(m.slots, other, j));
        assert(has_name_at(after.slots, other, j));
        lemma_find_name(after.slots, other, j);
    } else if find_name(after.slots, other) is Some {
        let j = find_name(after.slots, other)->0;
        assert(has_name_at(after.slots, other, j));
        assert(has_name_at(m.slots, other, j));
    }
}

/// A request for a name that is not registered makes one room, under the
/// identifier drawn for it. The room is found by its name and by its
/// identifier, and every other name leads where it led before.
pub proof fn lemma_join_makes_the_room(
    m: ManagerView,
    name: Seq<char>,
    member: u128,
    fresh: u128,
    other: Seq<char>,
)
    requires
        m.wf(),
        m.issued < u64::MAX,
        m.lookup(name) is None,
        find_id(m.slots, fresh) is None,
    ensures
        m.join_route(name, member, fresh) == Ok::<JoinRoute, ManagerError>(
            JoinRoute {
                room: RoomHandle { id: fresh },
                member,
                epoch: (m.issued + 1) as u64,
                created: true,
            },
        ),
        m.join_or_make(name, fresh).slots.len() == m.slots.len() + 1,
        m.join_or_make(name, fresh).lookup(name) == Some(RoomHandle { id: fresh }),
        find_id(m.join_or_make(name, fresh).slots, fresh) is Some,
        other != name ==> m.join_or_make(name, fresh).lookup(other) == m.lookup(other),
        m.join_or_make(name, fresh).timeouts == m.timeouts,
{
    let after = m.join_or_make(name, fresh);
    let last = m.slots.len() as int;
    lemma_join_or_make_wf(m, name, fresh);
    assert(has_name_at(after.slots, name, last));
    assert(has_id_at(after.slots, fresh, last));
    lemma_find_name(after.slots, name, last);
    lemma_find_id(after.slots, fresh, last);
    if other != name {
        if find_name(m.slots, other) is Some {
            let j = find_name(m.slots, other)->0;
            assert(has_name_at(m.slots, other, j));
            assert(has_name_at(after.slots, other, j));
            lemma_find_name(after.slots, other, j);
        } else if find_name(after.slots, other) is Some {
            let j = find_name(after.slots, other)->0;
            assert(has_name_at(after.slots, other, j));
            assert(has_name_at(m.slots, other, j));
        }
    }
}

/// A report that is entered in the queue adds one entry and touches no
/// other: the queue is one longer, every entry that was pending is still
/// pending under its own instant, and the new one stands at the first free
/// instant from the end of the grace period on.
pub proof fn lemma_scheduling_adds_one_entry(
    m: ManagerView,
    id: u128,
    signal: DeathSignal,
    now: u128,
)
    requires
        m.wf(),
        m.scheduling(id, signal, now) is Scheduled,
    ensures
        ({
            let expiry = m.scheduling(id, signal, now)->expiry;
            let after = m.handle_unreg(id, signal, now);
            &&& is_first_free(m.timeouts, now + GRACE_PERIOD_NANOS, expiry)
            &&& after.timeouts.dom().len() == m.timeouts.dom().len() + 1
            &&& after.timeouts[expiry] == (TimeoutHandle { signal, room: RoomHandle { id } })
            &&& forall|k: u128| #[trigger]
                m.timeouts.contains_key(k) ==> after.timeouts.contains_key(k)
                    && after.timeouts[k] == m.timeouts[k]
            &&& after.slots == m.slots
        }),
{
}

/// A join request cancels every destruction that is pending for its room:
/// whatever fires afterwards, and whenever, the room stays registered under
/// its name and its identifier. A signal that the room minted before the
/// request is void from then on.
pub proof fn lemma_join_cancels_destruction(
    m: ManagerView,
    name: Seq<char>,
    fresh: u128,
    now: u128,
    fired: Seq<Expired>,
    late: DeathSignal,
    at: u128,
)
    requires
        m.wf(),
        m.lookup(name) is Some,
        m.issued < u64::MAX,
        m.join_or_make(name, fresh).fires(now, fired),
        late.epoch <= m.issued,
    ensures
        m.join_or_make(name, fresh).swept(now, fired).lookup(name) == m.lookup(name),
        find_id(m.join_or_make(name, fresh).swept(now, fired).slots, m.lookup(name)->0.id) is Some,
        m.join_or_make(name, fresh).scheduling(m.lookup(name)->0.id, late, at)
            == Scheduling::Ignored,
{
    let joined = m.join_or_make(name, fresh);
    let i = find_name(m.slots, name)->0;
    assert(has_name_at(m.slots, name, i));
    let slot = joined.slots[i];
    lemma_join_or_make_wf(m, name, fresh);
    assert(has_id_at(joined.slots, slot.id, i));
    lemma_find_id(joined.slots, slot.id, i);
    assert(joined.slots.contains(slot));
    lemma_settle_all(joined.slots, fired);
    if doomed(fired, slot) {
        let k = choose|k: int|
            0 <= k < fired.len() && (#[trigger] fired[k]).handle.room.id == slot.id
                && fired[k].handle.signal.epoch == slot.epoch;
        assert(joined.timeouts.contains_key(fired[k].expiry));
        assert(m.timeouts.contains_key(fired[k].expiry));
    }
    lemma_registered(settle_all(joined.slots, fired), slot);
}

/// A room that has reported itself empty, and that nobody asks to join, is
/// retired by the first sweep after the grace period: it is registered
/// neither under its name nor under its identifier any more, and the next
/// request for the name makes a new room under the identifier drawn for it.
pub proof fn lemma_empty_room_is_retired(
    m: ManagerView,
    id: u128,
    signal: DeathSignal,
    reported: u128,
    now: u128,
    fired: Seq<Expired>,
    member: u128,
    fresh: u128,
)
    requires
        m.wf(),
        m.handle_unreg(id, signal, reported).fires(now, fired),
        m.scheduling(id, signal, reported) matches Scheduling::Scheduled { expiry } && expiry
            <= now,
    ensures
        m.scheduling(id, signal, reported)->expiry >= reported + GRACE_PERIOD_NANOS,
        find_id(m.slots, id) is Some,
        find_id(m.handle_unreg(id, signal, reported).swept(now, fired).slots, id) is None,
        m.handle_unreg(id, signal, reported).swept(now, fired).lookup(
            m.slots[find_id(m.slots, id)->0].name,
        ) is None,
        m.issued < u64::MAX && find_id(
            m.handle_unreg(id, signal, reported).swept(now, fired).slots,
            fresh,
        ) is None ==> m.handle_unreg(id, signal, reported).swept(now, fired).join_route(
            m.slots[find_id(m.slots, id)->0].name,
            member,
            fresh,
        ) == Ok::<JoinRoute, ManagerError>(
            JoinRoute {
                room: RoomHandle { id: fresh },
                member,
                epoch: (m.issued + 1) as u64,
                created: true,
            },
        ),
{
    let entry = TimeoutHandle { signal, room: RoomHandle { id } };
    let expiry = m.scheduling(id, signal, reported)->expiry;
    let waiting = m.handle_unreg(id, signal, reported);
    let after = waiting.swept(now, fired);
    let i = find_id(m.slots, id)->0;
    assert(has_id_at(m.slots, id, i));
    let slot = m.slots[i];
    assert(is_first_free(m.timeouts, reported + GRACE_PERIOD_NANOS, expiry));
    assert(waiting.timeouts.contains_key(expiry));
    let k = choose|k: int| 0 <= k < fired.len() && (#[trigger] fired[k]).expiry == expiry;
    assert(fired[k].handle == entry);
    assert(doomed(fired, slot));
    lemma_settle_all(m.slots, fired);
    if find_id(after.slots, id) is Some {
        let j = find_id(after.slots, id)->0;
        assert(has_id_at(after.slots, id, j));
        let other = after.slots[j];
        assert(after.slots.contains(other));
        lemma_registered(m.slots, other);
    }
    if find_name(after.slots, slot.name) is Some {
        let j = find_name(after.slots, slot.name)->0;
        assert(has_name_at(after.slots, slot.name, j));
        let other = after.slots[j];
        assert(after.slots.contains(other));
        lemma_registered(m.slots, other);
        lemma_find_name(m.slots, slot.name, i);
    }
}

/// Two reports that ask for the same instant get two instants, the earlier
/// report the earlier one, and a sweep lets both entries fire, each once,
/// in that order.
pub proof fn lemma_same_instant_fires_in_order(
    m: ManagerView,
    first: (u128, DeathSignal),
    second: (u128, DeathSignal),
    reported: u128,
    now: u128,
    fired: Seq<Expired>,
)
    requires
        m.wf(),
        m.scheduling(first.0, first.1, reported) is Scheduled,
        m.handle_unreg(first.0, first.1, reported).scheduling(second.0, second.1, reported)
            is Scheduled,
        m.handle_unreg(first.0, first.1, reported).handle_unreg(
            second.0,
            second.1,
            reported,
        ).fires(now, fired),
        m.handle_unreg(first.0, first.1, reported).scheduling(
            second.0,
            second.1,
            reported,
        )->expiry <= now,
    ensures
        ({
            let e1 = m.scheduling(first.0, first.1, reported)->expiry;
            let m1 = m.handle_unreg(first.0, first.1, reported);
            let e2 = m1.scheduling(second.0, second.1, reported)->expiry;
            &&& reported + GRACE_PERIOD_NANOS <= e1 < e2
            &&& exists|i: int, j: int|
                {
                    &&& 0 <= i < j < fired.len()
                    &&& (#[trigger] fired[i]).expiry == e1
                    &&& fired[i].handle == (TimeoutHandle {
                        signal: first.1,
                        room: RoomHandle { id: first.0 },
                    })
                    &&& (#[trigger] fired[j]).expiry == e2
                    &&& fired[j].handle == (TimeoutHandle {
                        signal: second.1,
                        room: RoomHandle { id: second.0 },
                    })
                }
            &&& forall|i: int, j: int|
                0 <= i < fired.len() && 0 <= j < fired.len() && i != j ==> (
                #[trigger] fired[i]).expiry != (#[trigger] fired[j]).expiry
        }),
{
    let from = reported + GRACE_PERIOD_NANOS;
    let e1 = m.scheduling(first.0, first.1, reported)->expiry;
    let m1 = m.handle_unreg(first.0, first.1, reported);
    let e2 = m1.scheduling(second.0, second.1, reported)->expiry;
    let m2 = m1.handle_unreg(second.0, second.1, reported);
    assert(is_first_free(m.timeouts, from, e1));
    assert(is_first_free(m1.timeouts, from, e2));
    assert(m1.timeouts.contains_key(e1));
    if e2 < e1 {
        assert(m.timeouts.contains_key(e2));
    }
    assert(m2.timeouts.contains_key(e1) && m2.timeouts.contains_key(e2));
    let i = choose|i: int| 0 <= i < fired.len() && (#[trigger] fired[i]).expiry == e1;
    let j = choose|j: int| 0 <= j < fired.len() && (#[trigger] fired[j]).expiry == e2;
    if j <= i {
        if j < i {
            assert(fired[j].expiry < fired[i].expiry);
        }
    }
    assert forall|a: int, b: int|
        0 <= a < fired.len() && 0 <= b < fired.len() && a != b implies (#[trigger] fired[a]).expiry
        != (#[trigger] fired[b]).expiry by {
        if a < b {
            assert(fired[a].expiry < fired[b].expiry);
        } else {
            assert(fired[b].expiry < fired[a].expiry);
        }
    }
}

/// `log` lists exactly the keys in `keys`, each once, smallest first.
pub open spec fn lists(keys: Set<u128>, log: Seq<Expired>) -> bool {
    &&& forall|i: int| 0 <= i < log.len() ==> keys.contains((#[trigger] log[i]).expiry)
    &&& forall|i: int, j: int|
        0 <= i < j < log.len() ==> (#[trigger] log[i]).expiry < (#[trigger] log[j]).expiry
    &&& forall|k: u128|
        keys.contains(k) ==> exists|i: int| 0 <= i < log.len() && (#[trigger] log[i]).expiry == k
}

/// Two lists of the same keys, each smallest first, agree in length and key
/// by key.
pub proof fn lemma_lists_agree(keys: Set<u128>, a: Seq<Expired>, b: Seq<Expired>)
    requires
        lists(keys, a),
        lists(keys, b),
    ensures
        a.len() == b.len(),
        forall|i: int| 0 <= i < a.len() ==> (#[trigger] a[i]).expiry == b[i].expiry,
    decreases a.len(),
{
    if a.len() == 0 {
        if b.len() > 0 {
            assert(keys.contains(b[0].expiry));
        }
    } else {
        let ka = a.last().expiry;
        assert(keys.contains(a[a.len() - 1].expiry));
        let jb = choose|j: int| 0 <= j < b.len() && (#[trigger] b[j]).expiry == ka;
        let kb = b.last().expiry;
        assert(keys.contains(b[b.len() - 1].expiry));
        let ja = choose|j: int| 0 <= j < a.len() && (#[trigger] a[j]).expiry == kb;
        if jb < b.len() - 1 {
            assert(b[jb].expiry < b[b.len() - 1].expiry);
        }
        if ja < a.len() - 1 {
            assert(a[ja].expiry < a[a.len() - 1].expiry);
        }
        assert(ka == kb);
        let rest = keys.remove(ka);
        let a0 = a.drop_last();
        let b0 = b.drop_last();
        assert forall|k: u128| rest.contains(k) implies exists|i: int|
            0 <= i < a0.len() && (#[trigger] a0[i]).expiry == k by {
            let i = choose|i: int| 0 <= i < a.len() && (#[trigger] a[i]).expiry == k;
            assert(a0[i].expiry == k);
        }
        assert forall|k: u128| rest.contains(k) implies exists|i: int|
            0 <= i < b0.len() && (#[trigger] b0[i]).expiry == k by {
            let i = choose|i: int| 0 <= i < b.len() && (#[trigger] b[i]).expiry == k;
            assert(b0[i].expiry == k);
        }
        assert forall|i: int| 0 <= i < a0.len() implies rest.contains((#[trigger] a0[i]).expiry) by {
            assert(a[i].expiry < a[a.len() - 1].expiry);
        }
        assert forall|i: int| 0 <= i < b0.len() implies rest.contains((#[trigger] b0[i]).expiry) by {
            assert(b[i].expiry < b[b.len() - 1].expiry);
        }
        assert forall|i: int, j: int| 0 <= i < j < a0.len() implies (#[trigger] a0[i]).expiry < (
        #[trigger] a0[j]).expiry by {
            assert(a[i].expiry < a[j].expiry);
        }
        assert forall|i: int, j: int| 0 <= i < j < b0.len() implies (#[trigger] b0[i]).expiry < (
        #[trigger] b0[j]).expiry by {
            assert(b[i].expiry < b[j].expiry);
        }
        lemma_lists_agree(rest, a0, b0);
        assert forall|i: int| 0 <= i < a.len() implies (#[trigger] a[i]).expiry == b[i].expiry by {
            if i < a0.len() {
                assert(a0[i].expiry == b0[i].expiry);
            }
        }
    }
}

/// The first `n` entries of two accounts of the same sweep are the same.
proof fn lemma_accounts_agree_so_far(
    m: ManagerView,
    now: u128,
    a: Seq<Expired>,
    b: Seq<Expired>,
    n: int,
)
    requires
        m.fires(now, a),
        m.fires(now, b),
        a.len() == b.len(),
        forall|i: int| 0 <= i < a.len() ==> (#[trigger] a[i]).expiry == b[i].expiry,
        0 <= n <= a.len(),
    ensures
        a.take(n) == b.take(n),
    decreases n,
{
    if n > 0 {
        lemma_accounts_agree_so_far(m, now, a, b, n - 1);
        assert(a[n - 1].expiry == b[n - 1].expiry);
        assert(a[n - 1] == b[n - 1]);
        assert(a.take(n) =~= a.take(n - 1).push(a[n - 1]));
        assert(b.take(n) =~= b.take(n - 1).push(b[n - 1]));
    } else {
        assert(a.take(0) =~= b.take(0));
    }
}

/// A sweep has one account only: what fires, in which order, and what becomes
/// of each room is settled by the manager's state and the clock reading.
pub proof fn lemma_sweep_is_determined(m: ManagerView, now: u128, a: Seq<Expired>, b: Seq<Expired>)
    requires
        m.fires(now, a),
        m.fires(now, b),
    ensures
        a == b,
{
    let due = Set::new(|k: u128| m.timeouts.contains_key(k) && k <= now);
    assert(lists(due, a));
    assert(lists(due, b));
    lemma_lists_agree(due, a, b);
    lemma_accounts_agree_so_far(m, now, a, b, a.len() as int);
    assert(a.take(a.len() as int) =~= a);
    assert(b.take(b.len() as int) =~= b);
}

} // verus!
