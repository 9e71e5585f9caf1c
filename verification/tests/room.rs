use tokio::sync::broadcast;
use tokio::sync::broadcast::error::TryRecvError;
use watch_party::room::timer::PlayerEvent;
use watch_party::room::{
    ClientPerms, DeathSignal, DeathTicket, Room, RoomError, RoomHandle, RoomMessage, RoomReply,
    RoomUpdate, ADMIN, JMP_VIDEO, MOD_QUEUE, MOD_VIDEO, NONE, PAUSE_VIDEO, REQ_ENQUEUE,
};

const SECOND: u128 = 1_000_000_000;

#[test]
fn capability_bits_are_as_documented() {
    assert_eq!(NONE, 0b0000_0000);
    assert_eq!(REQ_ENQUEUE, 0b0000_0001);
    assert_eq!(MOD_QUEUE, 0b0000_0010);
    assert_eq!(PAUSE_VIDEO, 0b0000_0100);
    assert_eq!(JMP_VIDEO, 0b0000_1000);
    assert_eq!(MOD_VIDEO, 0b0000_1100);
    assert_eq!(ADMIN, 0b1111_1111);
}

#[test]
fn video_capability_is_pause_and_jump() {
    let both = ClientPerms::from_bits(PAUSE_VIDEO).union(ClientPerms::from_bits(JMP_VIDEO));
    assert_eq!(both, ClientPerms::from_bits(MOD_VIDEO));
    assert!(both.contains(ClientPerms::from_bits(PAUSE_VIDEO)));
    assert!(both.contains(ClientPerms::from_bits(JMP_VIDEO)));
    assert!(!ClientPerms::from_bits(PAUSE_VIDEO).contains(both));
    assert!(!both.contains(ClientPerms::from_bits(MOD_QUEUE)));
}

#[test]
fn admin_holds_everything_and_everyone_holds_nothing() {
    let admin = ClientPerms::from_bits(ADMIN);
    for bits in [0u8, REQ_ENQUEUE, MOD_QUEUE, MOD_VIDEO, 0b1010_0101, ADMIN] {
        assert!(admin.contains(ClientPerms::from_bits(bits)));
        assert!(ClientPerms::from_bits(bits).contains(ClientPerms::empty()));
    }
    assert!(ClientPerms::empty().is_empty());
    assert!(!admin.is_empty());
    assert_eq!(ClientPerms::empty().bits(), 0);
    assert_eq!(admin.bits(), 0xff);
}

#[test]
fn a_new_room_is_empty_and_silent() {
    let mut room = Room::new(7);
    assert_eq!(room.id(), 7);
    assert_eq!(room.len(), 0);
    assert_eq!(room.pending_death(), None);
    assert_eq!(room.next_update_at(0), None);
    assert_eq!(room.tick_at(5 * SECOND), RoomUpdate::Player(PlayerEvent::Tick(0)));
}

#[test]
fn member_count_follows_joins_and_leaves() {
    let mut room = Room::new(1);
    assert_eq!(room.join_user(10, 1), Ok(()));
    assert_eq!(room.join_user(11, 2), Ok(()));
    assert_eq!(room.join_user(12, 3), Ok(()));
    assert_eq!(room.len(), 3);
    assert_eq!(room.handle_msg(11, RoomMessage::Unsubscribe(11)), RoomReply::Left);
    assert_eq!(room.len(), 2);
    // a second leave of the same member takes nobody out
    assert_eq!(room.handle_msg(11, RoomMessage::Unsubscribe(11)), RoomReply::Left);
    assert_eq!(room.len(), 2);
    // a refused join takes nobody in
    assert_eq!(room.join_user(10, 4), Err(RoomError::DuplicateMember));
    assert_eq!(room.len(), 2);
    assert_eq!(room.handle_msg(10, RoomMessage::Unsubscribe(10)), RoomReply::Left);
    assert_eq!(room.len(), 1);
    assert!(room.is_member(12));
    assert!(!room.is_member(10));
    assert!(!room.is_member(11));
}

#[test]
fn a_duplicate_member_is_rejected() {
    let mut room = Room::new(1);
    assert_eq!(room.handle_msg(10, RoomMessage::Subscribe { epoch: 1 }), RoomReply::Subscribed);
    assert_eq!(
        room.handle_msg(10, RoomMessage::Subscribe { epoch: 2 }),
        RoomReply::Rejected(RoomError::DuplicateMember)
    );
    assert_eq!(room.len(), 1);
    assert!(room.is_member(10));
}

#[test]
fn the_last_leave_mints_a_ticket() {
    let mut room = Room::new(99);
    let _ = room.join_user(10, 4);
    let _ = room.join_user(11, 5);
    assert_eq!(room.handle_msg(10, RoomMessage::Unsubscribe(10)), RoomReply::Left);
    assert_eq!(room.pending_death(), None);
    assert_eq!(
        room.handle_msg(11, RoomMessage::Unsubscribe(11)),
        RoomReply::Vacated { room: 99, signal: DeathSignal { epoch: 5 } }
    );
    assert_eq!(room.pending_death(), Some(DeathSignal { epoch: 5 }));
    assert_eq!(room.len(), 0);
}

#[test]
fn leave_names_the_member_not_the_sender() {
    let mut room = Room::new(1);
    let _ = room.join_user(10, 1);
    let _ = room.join_user(11, 2);
    assert_eq!(room.handle_msg(10, RoomMessage::Unsubscribe(11)), RoomReply::Left);
    assert!(room.is_member(10));
    assert!(!room.is_member(11));
}

#[test]
fn a_stray_leave_in_a_new_room_changes_nothing() {
    let mut room = Room::new(3);
    assert_eq!(room.handle_msg(10, RoomMessage::Unsubscribe(10)), RoomReply::Left);
    assert_eq!(room.pending_death(), None);
    assert_eq!(room.len(), 0);
}

#[test]
fn a_repeated_leave_does_not_report_again() {
    let mut room = Room::new(3);
    let _ = room.join_user(10, 8);
    assert_eq!(
        room.handle_msg(10, RoomMessage::Unsubscribe(10)),
        RoomReply::Vacated { room: 3, signal: DeathSignal { epoch: 8 } }
    );
    assert_eq!(room.handle_msg(10, RoomMessage::Unsubscribe(10)), RoomReply::Left);
    assert_eq!(room.handle_msg(11, RoomMessage::Unsubscribe(12)), RoomReply::Left);
    // the ticket of the first leave is still the one that is held
    assert_eq!(room.pending_death(), Some(DeathSignal { epoch: 8 }));
    assert_eq!(room.len(), 0);
}

#[test]
fn a_join_drops_the_ticket() {
    let mut room = Room::new(3);
    let _ = room.join_user(10, 1);
    let _ = room.handle_msg(10, RoomMessage::Unsubscribe(10));
    assert_eq!(room.pending_death(), Some(DeathSignal { epoch: 1 }));
    assert_eq!(room.join_user(11, 2), Ok(()));
    assert_eq!(room.pending_death(), None);
    assert_eq!(room.len(), 1);
}

#[test]
fn a_ticket_hands_out_its_signal() {
    let ticket = DeathTicket { epoch: 12 };
    assert_eq!(ticket.signal(), DeathSignal { epoch: 12 });
}

#[test]
fn every_event_goes_out_also_while_the_room_waits_for_its_end() {
    let mut room = Room::new(3);
    let tick = PlayerEvent::Tick(5);
    // nobody has joined yet
    assert_eq!(room.broadcast_update(tick), RoomUpdate::Player(tick));
    let _ = room.join_user(10, 1);
    assert_eq!(room.broadcast_update(tick), RoomUpdate::Player(tick));
    let _ = room.handle_msg(10, RoomMessage::Unsubscribe(10));
    assert_eq!(room.pending_death(), Some(DeathSignal { epoch: 1 }));
    assert_eq!(room.broadcast_update(tick), RoomUpdate::Player(tick));
    assert_eq!(room.tick_at(SECOND), RoomUpdate::Player(PlayerEvent::Tick(0)));
    room.controller_mut().play_at(SECOND);
    assert_eq!(
        room.next_update_at(SECOND),
        Some(RoomUpdate::Player(PlayerEvent::Fix { playing: true, position: 0 }))
    );
    assert_eq!(room.tick_at(3 * SECOND), RoomUpdate::Player(PlayerEvent::Tick(2 * SECOND)));
    // the ticket is untouched by all of this
    assert_eq!(room.pending_death(), Some(DeathSignal { epoch: 1 }));
}

#[test]
fn a_receiver_that_outlives_the_members_still_gets_updates() {
    let (sender, _) = broadcast::channel::<RoomUpdate>(128);
    let mut room = Room::new(3);
    let _ = room.join_user(10, 1);
    let mut rx = sender.subscribe();
    let _ = room.handle_msg(10, RoomMessage::Unsubscribe(10));
    room.controller_mut().set(7 * SECOND);
    if let Some(update) = room.next_update_at(SECOND) {
        let _ = sender.send(update);
    }
    let _ = sender.send(room.tick_at(2 * SECOND));
    assert_eq!(
        rx.try_recv(),
        Ok(RoomUpdate::Player(PlayerEvent::Fix { playing: false, position: 7 * SECOND }))
    );
    assert_eq!(rx.try_recv(), Ok(RoomUpdate::Player(PlayerEvent::Tick(7 * SECOND))));
    assert_eq!(rx.try_recv(), Err(TryRecvError::Empty));
}

#[test]
fn a_member_sees_pause_and_resume_in_order() {
    let mut room = Room::new(3);
    let _ = room.join_user(10, 1);
    room.controller_mut().play_at(0);
    let _ = room.next_update_at(0);
    room.controller_mut().pause_at(4 * SECOND);
    let first = room.next_update_at(4 * SECOND);
    room.controller_mut().play_at(4 * SECOND);
    let second = room.next_update_at(4 * SECOND);
    assert_eq!(
        first,
        Some(RoomUpdate::Player(PlayerEvent::Fix { playing: false, position: 4 * SECOND }))
    );
    assert_eq!(
        second,
        Some(RoomUpdate::Player(PlayerEvent::Fix { playing: true, position: 4 * SECOND }))
    );
    assert_eq!(room.next_update_at(4 * SECOND), None);
}

#[test]
fn a_correction_comes_before_the_next_heartbeat() {
    let mut room = Room::new(3);
    let _ = room.join_user(10, 1);
    let _ = room.join_user(11, 2);
    assert_eq!(room.tick_at(SECOND), RoomUpdate::Player(PlayerEvent::Tick(0)));
    room.controller_mut().play_at(SECOND + 1);
    assert_eq!(
        room.next_update_at(SECOND + 2),
        Some(RoomUpdate::Player(PlayerEvent::Fix { playing: true, position: 1 }))
    );
    assert_eq!(room.tick_at(2 * SECOND), RoomUpdate::Player(PlayerEvent::Tick(SECOND - 1)));
    assert_eq!(room.controller().state_at(2 * SECOND), (SECOND - 1, true));
}

#[test]
fn the_real_clock_drives_a_room() {
    let mut room = Room::new(3);
    let _ = room.join_user(10, 1);
    assert_eq!(room.tick(), RoomUpdate::Player(PlayerEvent::Tick(0)));
    assert_eq!(room.next_update(), None);
    room.controller_mut().set(5 * SECOND);
    assert_eq!(
        room.next_update(),
        Some(RoomUpdate::Player(PlayerEvent::Fix { playing: false, position: 5 * SECOND }))
    );
}

#[test]
fn drawn_identifiers_are_random_uuids() {
    let a = RoomHandle::new();
    let b = RoomHandle::new();
    for handle in [a, b] {
        assert_eq!((handle.id() >> 76) & 0xf, 4);
        assert_eq!((handle.id() >> 62) & 0x3, 2);
    }
    assert_ne!(a.id(), b.id());
    assert_eq!(a, RoomHandle { id: a.id() });
}

#[test]
fn every_subscriber_gets_the_same_updates_in_order() {
    let (sender, _) = broadcast::channel::<RoomUpdate>(128);
    let mut room = Room::new(3);
    assert_eq!(room.handle_msg(10, RoomMessage::Subscribe { epoch: 1 }), RoomReply::Subscribed);
    let mut a = sender.subscribe();
    assert_eq!(room.handle_msg(11, RoomMessage::Subscribe { epoch: 2 }), RoomReply::Subscribed);
    let mut b = sender.subscribe();

    // idle: one heartbeat
    let _ = sender.send(room.tick_at(SECOND));
    // a pause without effect, then a start: one correction
    room.controller_mut().pause_at(SECOND + 5);
    if let Some(update) = room.next_update_at(SECOND + 5) {
        let _ = sender.send(update);
    }
    room.controller_mut().play_at(SECOND + 10);
    if let Some(update) = room.next_update_at(SECOND + 10) {
        let _ = sender.send(update);
    }
    // the next heartbeat
    let _ = sender.send(room.tick_at(2 * SECOND));

    let expected = [
        RoomUpdate::Player(PlayerEvent::Tick(0)),
        RoomUpdate::Player(PlayerEvent::Fix { playing: true, position: 0 }),
        RoomUpdate::Player(PlayerEvent::Tick(SECOND - 10)),
    ];
    for update in expected {
        assert_eq!(a.try_recv(), Ok(update));
        assert_eq!(b.try_recv(), Ok(update));
    }
    assert_eq!(a.try_recv(), Err(TryRecvError::Empty));
    assert_eq!(b.try_recv(), Err(TryRecvError::Empty));

    // somebody who joins later gets what is sent from then on
    assert_eq!(room.handle_msg(12, RoomMessage::Subscribe { epoch: 3 }), RoomReply::Subscribed);
    let mut c = sender.subscribe();
    let _ = sender.send(room.tick_at(3 * SECOND));
    let tick = RoomUpdate::Player(PlayerEvent::Tick(2 * SECOND - 10));
    assert_eq!(c.try_recv(), Ok(tick));
    assert_eq!(a.try_recv(), Ok(tick));
    assert_eq!(c.try_recv(), Err(TryRecvError::Empty));
}

#[test]
fn a_newcomer_is_called_user_and_may_do_nothing() {
    let mut room = Room::new(3);
    assert!(room.member(10).is_none());
    let _ = room.join_user(10, 1);
    match room.member(10) {
        Some(member) => {
            assert_eq!(member.id, 10);
            assert_eq!(member.name, "User");
            assert_eq!(member.perms, ClientPerms::empty());
            assert!(member.perms.is_empty());
        }
        None => panic!("expected the member to be there"),
    }
    let _ = room.handle_msg(10, RoomMessage::Unsubscribe(10));
    assert!(room.member(10).is_none());
}
