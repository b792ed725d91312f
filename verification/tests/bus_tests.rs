use chat_core::bus::{Channel, EventBus, RecvOutcome};
use chat_core::events::{EventMessage, Room};
use chat_core::session::{SessionState, StreamSession};

fn room_event(id: i64) -> EventMessage {
    EventMessage::Room(Room { id, name: String::from("r") })
}

#[test]
fn a_receiver_sees_events_in_publish_order() {
    let mut ch = Channel::new(16);
    let rid = ch.subscribe();
    assert!(ch.publish(room_event(1)));
    assert!(ch.publish(room_event(2)));
    assert_eq!(ch.recv(rid), RecvOutcome::Event(room_event(1)));
    assert_eq!(ch.recv(rid), RecvOutcome::Event(room_event(2)));
    assert_eq!(ch.recv(rid), RecvOutcome::Empty);
}

#[test]
fn publishing_without_a_listener_drops_the_event() {
    let mut ch = Channel::new(16);
    assert!(!ch.publish(room_event(1)));
    let rid = ch.subscribe();
    assert_eq!(ch.recv(rid), RecvOutcome::Empty);
}

#[test]
fn a_subscriber_starts_after_the_history() {
    let mut ch = Channel::new(16);
    let early = ch.subscribe();
    ch.publish(room_event(1));
    let late = ch.subscribe();
    ch.publish(room_event(2));
    assert_eq!(ch.recv(early), RecvOutcome::Event(room_event(1)));
    assert_eq!(ch.recv(late), RecvOutcome::Event(room_event(2)));
    assert_eq!(ch.recv(early), RecvOutcome::Event(room_event(2)));
    assert_eq!(ch.recv(late), RecvOutcome::Empty);
}

#[test]
fn a_lagged_receiver_skips_the_gap_and_survives() {
    let mut ch = Channel::new(2);
    let rid = ch.subscribe();
    for i in 1..=5 {
        ch.publish(room_event(i));
    }
    // Forced past the capacity of 2: one lag report, then the two most
    // recent events, never a terminated receiver.
    assert_eq!(ch.recv(rid), RecvOutcome::Lagged);
    assert_eq!(ch.recv(rid), RecvOutcome::Event(room_event(4)));
    assert_eq!(ch.recv(rid), RecvOutcome::Event(room_event(5)));
    assert_eq!(ch.recv(rid), RecvOutcome::Empty);
    // Events published after the overflow still arrive.
    ch.publish(room_event(6));
    assert_eq!(ch.recv(rid), RecvOutcome::Event(room_event(6)));
}

#[test]
fn the_registry_creates_channels_lazily_and_keeps_them_apart() {
    let mut bus = EventBus::new(8);
    assert!(!bus.publish(1, room_event(10)));
    let r1 = bus.subscribe(1);
    let r2 = bus.subscribe(2);
    assert!(bus.publish(1, room_event(11)));
    assert!(bus.publish(2, room_event(12)));
    assert_eq!(bus.recv(1, r1), RecvOutcome::Event(room_event(11)));
    assert_eq!(bus.recv(1, r1), RecvOutcome::Empty);
    assert_eq!(bus.recv(2, r2), RecvOutcome::Event(room_event(12)));
}

#[test]
fn two_tabs_of_one_user_read_independently() {
    let mut bus = EventBus::new(8);
    let tab1 = bus.subscribe(1);
    let tab2 = bus.subscribe(1);
    bus.publish(1, room_event(5));
    assert_eq!(bus.recv(1, tab1), RecvOutcome::Event(room_event(5)));
    assert_eq!(bus.recv(1, tab1), RecvOutcome::Empty);
    assert_eq!(bus.recv(1, tab2), RecvOutcome::Event(room_event(5)));
}

#[test]
fn a_live_session_swallows_lag_and_goes_on() {
    let mut bus = EventBus::new(2);
    let rid = bus.subscribe(7);
    let session = StreamSession { user_id: 7, receiver: rid, state: SessionState::Live };
    for i in 1..=5 {
        bus.publish(7, room_event(i));
    }
    // Forced past the capacity: the tail skips the gap silently and
    // resumes at the oldest retained event instead of ending.
    assert_eq!(session.next_live(&mut bus), Some(room_event(4)));
    assert_eq!(session.next_live(&mut bus), Some(room_event(5)));
    assert_eq!(session.next_live(&mut bus), None);
    bus.publish(7, room_event(6));
    assert_eq!(session.next_live(&mut bus), Some(room_event(6)));
}
