use watch_party::room::timer::PlayerEvent;
use watch_party::room::{DeathSignal, Room, RoomHandle, RoomMessage, RoomReply, RoomUpdate};
use watch_party::room_mng::{
    Expired, JoinRoute, ManagerError, ManagerMessage, RoomManager, Scheduling, TimeoutHandle,
    GRACE_PERIOD_NANOS,
};

const SECOND: u128 = 1_000_000_000;

fn name(s: &str) -> String {
    s.to_string()
}

#[test]
fn grace_period_is_five_minutes() {
    assert_eq!(GRACE_PERIOD_NANOS, 300 * SECOND);
}

#[test]
fn a_new_manager_is_empty() {
    let m = RoomManager::new();
    assert_eq!(m.room_count(), 0);
    assert_eq!(m.pending(), 0);
    assert_eq!(m.issued(), 0);
    assert_eq!(m.lookup(&name("movie-night")), None);
    assert_eq!(m.until_wake_at(0), None);
    assert_eq!(m.until_wake(), None);
}

#[test]
fn the_first_request_makes_the_room() {
    let mut m = RoomManager::new();
    let route = m.join_or_make_with(name("movie-night"), 10, 500);
    assert_eq!(
        route,
        Ok(JoinRoute { room: RoomHandle { id: 500 }, member: 10, epoch: 1, created: true })
    );
    assert_eq!(m.room_count(), 1);
    assert_eq!(m.lookup(&name("movie-night")), Some(RoomHandle { id: 500 }));
    assert!(m.is_registered(500));
    assert!(!m.is_registered(501));
}

#[test]
fn the_second_request_finds_the_room() {
    let mut m = RoomManager::new();
    let _ = m.join_or_make_with(name("movie-night"), 10, 500);
    let route = m.join_or_make_with(name("movie-night"), 11, 501);
    assert_eq!(
        route,
        Ok(JoinRoute { room: RoomHandle { id: 500 }, member: 11, epoch: 2, created: false })
    );
    assert_eq!(m.room_count(), 1);
    assert!(!m.is_registered(501));
    assert_eq!(m.issued(), 2);
}

#[test]
fn names_are_told_apart() {
    let mut m = RoomManager::new();
    let _ = m.join_or_make_with(name("a"), 10, 500);
    let route = m.join_or_make_with(name("b"), 11, 501);
    assert_eq!(
        route,
        Ok(JoinRoute { room: RoomHandle { id: 501 }, member: 11, epoch: 2, created: true })
    );
    assert_eq!(m.room_count(), 2);
    assert_eq!(m.lookup(&name("a")), Some(RoomHandle { id: 500 }));
    assert_eq!(m.lookup(&name("b")), Some(RoomHandle { id: 501 }));
    assert_eq!(m.lookup(&name("")), None);
}

#[test]
fn a_taken_identifier_is_refused() {
    let mut m = RoomManager::new();
    let _ = m.join_or_make_with(name("a"), 10, 500);
    assert_eq!(m.join_or_make_with(name("b"), 11, 500), Err(ManagerError::RoomIdTaken));
    assert_eq!(m.room_count(), 1);
    assert_eq!(m.issued(), 1);
    assert_eq!(m.lookup(&name("b")), None);
}

#[test]
fn drawn_room_identifiers_are_random_uuids() {
    let mut m = RoomManager::new();
    let a = m.join_or_make(name("a"), 10).unwrap();
    let b = m.handle_msg(ManagerMessage::JoinOrMake { room: name("b"), id: 11 }).unwrap();
    let again = m.join_or_make(name("a"), 12).unwrap();
    assert!(a.created && b.created && !again.created);
    assert_eq!(again.room, a.room);
    assert_ne!(a.room, b.room);
    assert_eq!((a.room.id >> 76) & 0xf, 4);
    assert_eq!((a.room.id >> 62) & 0x3, 2);
    assert_eq!((a.member, b.member, again.member), (10, 11, 12));
    assert_eq!((a.epoch, b.epoch, again.epoch), (1, 2, 3));
}

#[test]
fn an_empty_room_is_scheduled_after_the_grace_period() {
    let mut m = RoomManager::new();
    let _ = m.join_or_make_with(name("a"), 10, 500);
    let r = m.handle_unreg_at((500, DeathSignal { epoch: 1 }), 7 * SECOND);
    assert_eq!(r, Scheduling::Scheduled { expiry: 307 * SECOND });
    assert_eq!(m.pending(), 1);
    assert_eq!(m.until_wake_at(7 * SECOND), Some(300 * SECOND));
    assert_eq!(m.until_wake_at(300 * SECOND), Some(7 * SECOND));
    assert_eq!(m.until_wake_at(400 * SECOND), Some(0));
}

#[test]
fn a_void_signal_is_ignored() {
    let mut m = RoomManager::new();
    let _ = m.join_or_make_with(name("a"), 10, 500);
    let _ = m.join_or_make_with(name("a"), 11, 501);
    // minted before the second join
    assert_eq!(m.handle_unreg_at((500, DeathSignal { epoch: 1 }), 0), Scheduling::Ignored);
    // a room nobody knows
    assert_eq!(m.handle_unreg_at((777, DeathSignal { epoch: 2 }), 0), Scheduling::Ignored);
    assert_eq!(m.pending(), 0);
}

#[test]
fn a_rejoin_within_the_grace_period_keeps_the_room() {
    let mut m = RoomManager::new();
    let mut room = Room::new(500);
    let first = m.join_or_make_with(name("movie-night"), 10, 500).unwrap();
    let _ = room.join_user(first.member, first.epoch);
    let reply = room.handle_msg(10, RoomMessage::Unsubscribe(10));
    let (id, signal) = match reply {
        RoomReply::Vacated { room, signal } => (room, signal),
        other => panic!("expected the room to report that it is empty, got {:?}", other),
    };
    assert_eq!(m.handle_unreg_at((id, signal), SECOND), Scheduling::Scheduled { expiry: 301 * SECOND });
    // the next member arrives before the grace period is over
    let second = m.join_or_make_with(name("movie-night"), 11, 900).unwrap();
    assert!(!second.created);
    assert_eq!(room.join_user(second.member, second.epoch), Ok(()));
    assert_eq!(room.pending_death(), None);
    let fired = m.sweep_at(1000 * SECOND);
    assert_eq!(
        fired,
        vec![Expired {
            expiry: 301 * SECOND,
            handle: TimeoutHandle { signal, room: RoomHandle { id: 500 } },
            retired: false
        }]
    );
    assert_eq!(m.lookup(&name("movie-night")), Some(RoomHandle { id: 500 }));
    assert!(m.is_registered(500));
    assert_eq!(m.pending(), 0);
}

#[test]
fn a_report_that_arrives_after_the_rejoin_is_void() {
    let mut m = RoomManager::new();
    let mut room = Room::new(500);
    let first = m.join_or_make_with(name("movie-night"), 10, 500).unwrap();
    let _ = room.join_user(first.member, first.epoch);
    let reply = room.handle_msg(10, RoomMessage::Unsubscribe(10));
    let second = m.join_or_make_with(name("movie-night"), 11, 900).unwrap();
    let _ = room.join_user(second.member, second.epoch);
    match reply {
        RoomReply::Vacated { room, signal } => {
            assert_eq!(m.handle_unreg_at((room, signal), SECOND), Scheduling::Ignored)
        }
        other => panic!("expected the room to report that it is empty, got {:?}", other),
    }
    assert_eq!(m.sweep_at(u128::MAX), vec![]);
    assert!(m.is_registered(500));
}

#[test]
fn an_empty_room_is_retired_after_the_grace_period() {
    let mut m = RoomManager::new();
    let _ = m.join_or_make_with(name("movie-night"), 10, 500);
    let signal = DeathSignal { epoch: 1 };
    let _ = m.handle_unreg_at((500, signal), SECOND);
    // one nanosecond early: nothing happens
    assert_eq!(m.sweep_at(301 * SECOND - 1), vec![]);
    assert!(m.is_registered(500));
    assert_eq!(m.pending(), 1);
    let fired = m.sweep_at(301 * SECOND);
    assert_eq!(
        fired,
        vec![Expired {
            expiry: 301 * SECOND,
            handle: TimeoutHandle { signal, room: RoomHandle { id: 500 } },
            retired: true
        }]
    );
    assert_eq!(m.lookup(&name("movie-night")), None);
    assert!(!m.is_registered(500));
    assert_eq!(m.room_count(), 0);
    assert_eq!(m.pending(), 0);
    // the name now makes a new room under a new identifier
    let route = m.join_or_make_with(name("movie-night"), 11, 501).unwrap();
    assert!(route.created);
    assert_eq!(route.room, RoomHandle { id: 501 });
    assert_eq!(m.lookup(&name("movie-night")), Some(RoomHandle { id: 501 }));
}

#[test]
fn a_retired_room_leaves_the_others_alone() {
    let mut m = RoomManager::new();
    let _ = m.join_or_make_with(name("a"), 10, 500);
    let _ = m.join_or_make_with(name("b"), 11, 501);
    let _ = m.join_or_make_with(name("c"), 12, 502);
    let _ = m.handle_unreg_at((501, DeathSignal { epoch: 2 }), 0);
    let fired = m.sweep_at(GRACE_PERIOD_NANOS);
    assert_eq!(fired.len(), 1);
    assert!(fired[0].retired);
    assert_eq!(m.room_count(), 2);
    assert_eq!(m.lookup(&name("a")), Some(RoomHandle { id: 500 }));
    assert_eq!(m.lookup(&name("b")), None);
    assert_eq!(m.lookup(&name("c")), Some(RoomHandle { id: 502 }));
    // a stamp of a room that stayed still counts
    assert_eq!(
        m.handle_unreg_at((502, DeathSignal { epoch: 3 }), 0),
        Scheduling::Scheduled { expiry: GRACE_PERIOD_NANOS }
    );
}

#[test]
fn entries_for_the_same_instant_fire_in_the_order_they_came() {
    let mut m = RoomManager::new();
    let _ = m.join_or_make_with(name("a"), 10, 500);
    let _ = m.join_or_make_with(name("b"), 11, 501);
    let _ = m.join_or_make_with(name("c"), 12, 502);
    let now = 5 * SECOND;
    let due = now + GRACE_PERIOD_NANOS;
    assert_eq!(
        m.handle_unreg_at((502, DeathSignal { epoch: 3 }), now),
        Scheduling::Scheduled { expiry: due }
    );
    assert_eq!(
        m.handle_unreg_at((500, DeathSignal { epoch: 1 }), now),
        Scheduling::Scheduled { expiry: due + 1 }
    );
    assert_eq!(
        m.handle_unreg_at((501, DeathSignal { epoch: 2 }), now),
        Scheduling::Scheduled { expiry: due + 2 }
    );
    // the same room reports once more: a fourth entry, not a replaced one
    assert_eq!(
        m.handle_unreg_at((502, DeathSignal { epoch: 3 }), now),
        Scheduling::Scheduled { expiry: due + 3 }
    );
    assert_eq!(m.pending(), 4);
    assert_eq!(m.until_wake_at(now), Some(GRACE_PERIOD_NANOS));
    let fired = m.sweep_at(due + 1);
    let ids: Vec<(u128, u128, bool)> =
        fired.iter().map(|e| (e.expiry, e.handle.room.id, e.retired)).collect();
    assert_eq!(ids, vec![(due, 502, true), (due + 1, 500, true)]);
    assert_eq!(m.until_wake_at(due + 1), Some(1));
    let fired = m.sweep_at(due + 10);
    let ids: Vec<(u128, u128, bool)> =
        fired.iter().map(|e| (e.expiry, e.handle.room.id, e.retired)).collect();
    assert_eq!(ids, vec![(due + 2, 501, true), (due + 3, 502, false)]);
    assert_eq!(m.pending(), 0);
    assert_eq!(m.room_count(), 0);
}

#[test]
fn a_gap_in_the_queue_is_filled_first() {
    let mut m = RoomManager::new();
    let _ = m.join_or_make_with(name("a"), 10, 500);
    let signal = DeathSignal { epoch: 1 };
    let g = GRACE_PERIOD_NANOS;
    assert_eq!(m.handle_unreg_at((500, signal), 2), Scheduling::Scheduled { expiry: g + 2 });
    assert_eq!(m.handle_unreg_at((500, signal), 0), Scheduling::Scheduled { expiry: g });
    assert_eq!(m.handle_unreg_at((500, signal), 0), Scheduling::Scheduled { expiry: g + 1 });
    assert_eq!(m.handle_unreg_at((500, signal), 0), Scheduling::Scheduled { expiry: g + 3 });
}

#[test]
fn a_queue_without_room_at_its_end_is_full() {
    let mut m = RoomManager::new();
    let _ = m.join_or_make_with(name("a"), 10, 500);
    let signal = DeathSignal { epoch: 1 };
    assert_eq!(m.handle_unreg_at((500, signal), u128::MAX), Scheduling::Full);
    let last = u128::MAX - GRACE_PERIOD_NANOS;
    assert_eq!(m.handle_unreg_at((500, signal), last), Scheduling::Scheduled { expiry: u128::MAX });
    assert_eq!(m.handle_unreg_at((500, signal), last), Scheduling::Full);
    assert_eq!(m.pending(), 1);
}

#[test]
fn the_real_clock_schedules_and_sweeps() {
    let mut m = RoomManager::new();
    let _ = m.join_or_make_with(name("a"), 10, 500);
    match m.handle_unreg((500, DeathSignal { epoch: 1 })) {
        Scheduling::Scheduled { expiry } => assert!(expiry >= GRACE_PERIOD_NANOS),
        other => panic!("expected an entry in the queue, got {:?}", other),
    }
    // the grace period has not passed
    assert_eq!(m.sweep(), vec![]);
    assert!(m.is_registered(500));
    match m.until_wake() {
        Some(left) => assert!(left <= GRACE_PERIOD_NANOS && left > 0),
        None => panic!("expected a pending destruction"),
    }
}

#[test]
fn movie_night_from_first_join_to_fresh_room() {
    let mut m = RoomManager::new();
    // A joins: the room is made
    let a = m.join_or_make_with(name("movie-night"), 1, 500).unwrap();
    assert!(a.created);
    let mut room = Room::new(a.room.id);
    assert_eq!(room.handle_msg(a.member, RoomMessage::Subscribe { epoch: a.epoch }), RoomReply::Subscribed);
    // B joins the same room
    let b = m.join_or_make_with(name("movie-night"), 2, 501).unwrap();
    assert_eq!((b.room, b.created), (a.room, false));
    assert_eq!(room.handle_msg(b.member, RoomMessage::Subscribe { epoch: b.epoch }), RoomReply::Subscribed);
    // idle: heartbeats at position zero
    assert_eq!(room.next_update_at(SECOND), None);
    assert_eq!(room.tick_at(SECOND), RoomUpdate::Player(PlayerEvent::Tick(0)));
    assert_eq!(room.tick_at(2 * SECOND), RoomUpdate::Player(PlayerEvent::Tick(0)));
    // A starts playback: the correction goes out before the next heartbeat
    room.controller_mut().play_at(2 * SECOND + 10);
    assert_eq!(
        room.next_update_at(2 * SECOND + 10),
        Some(RoomUpdate::Player(PlayerEvent::Fix { playing: true, position: 0 }))
    );
    assert_eq!(room.tick_at(3 * SECOND), RoomUpdate::Player(PlayerEvent::Tick(SECOND - 10)));
    // both leave
    assert_eq!(room.handle_msg(1, RoomMessage::Unsubscribe(1)), RoomReply::Left);
    let signal = match room.handle_msg(2, RoomMessage::Unsubscribe(2)) {
        RoomReply::Vacated { room, signal } => {
            assert_eq!(room, 500);
            signal
        }
        other => panic!("expected the room to report that it is empty, got {:?}", other),
    };
    let expiry = match m.handle_unreg_at((500, signal), 4 * SECOND) {
        Scheduling::Scheduled { expiry } => expiry,
        other => panic!("expected an entry in the queue, got {:?}", other),
    };
    assert_eq!(expiry, 304 * SECOND);
    // the grace period passes
    let fired = m.sweep_at(expiry);
    assert_eq!(fired.len(), 1);
    assert!(fired[0].retired);
    assert_eq!(m.lookup(&name("movie-night")), None);
    // C gets a new room that starts at position zero
    let c = m.join_or_make_with(name("movie-night"), 3, 502).unwrap();
    assert!(c.created);
    assert_ne!(c.room, a.room);
    let mut room = Room::new(c.room.id);
    assert_eq!(room.handle_msg(c.member, RoomMessage::Subscribe { epoch: c.epoch }), RoomReply::Subscribed);
    assert_eq!(room.controller().state_at(400 * SECOND), (0, false));
    assert_eq!(room.tick_at(400 * SECOND), RoomUpdate::Player(PlayerEvent::Tick(0)));
}
