use chat_core::auth::AuthError;
use chat_core::bus::EventBus;
use chat_core::events::EventMessage;
use chat_core::handlers::{post_invite, post_message, post_room, post_user, ReponseJson};
use chat_core::session::StreamSession;
use chat_core::store::{Database, FormAddRoom, FormAddUser, FormAddUserRoom, FormMessage};

fn created_key(r: &ReponseJson) -> String {
    match r {
        ReponseJson::Created(body) => {
            let value = json::parse(body.as_str()).unwrap();
            value["api_key"].as_str().unwrap().to_string()
        },
        other => panic!("expected a created response, got {:?}", other),
    }
}

fn signup(db: &mut Database, name: &str, password: &str) -> (i64, String) {
    let r = post_user(
        db,
        FormAddUser { username: String::from(name), password: String::from(password) },
    );
    match r {
        ReponseJson::Created(body) => {
            let value = json::parse(body.as_str()).unwrap();
            (
                value["user_id"].as_i64().unwrap(),
                value["api_key"].as_str().unwrap().to_string(),
            )
        },
        other => panic!("expected a created response, got {:?}", other),
    }
}

fn login(db: &mut Database, name: &str, password: &str) -> (i64, String) {
    let r = chat_core::handlers::post_login(
        db,
        FormAddUser { username: String::from(name), password: String::from(password) },
    );
    match r {
        ReponseJson::Accepted(body) => {
            let value = json::parse(body.as_str()).unwrap();
            (
                value["user_id"].as_i64().unwrap(),
                value["api_key"].as_str().unwrap().to_string(),
            )
        },
        other => panic!("expected an accepted response, got {:?}", other),
    }
}

#[test]
fn the_full_chat_scenario_runs_end_to_end() {
    let mut db = Database::new();
    let mut bus = EventBus::new(1024);

    signup(&mut db, "A", "pa");
    signup(&mut db, "B", "pb");

    // A logs in and opens its stream.
    let (a, key_a) = login(&mut db, "A", "pa");
    let (mut session_a, backlog_a) = StreamSession::open(&db, &mut bus, a, key_a.as_str()).unwrap();
    assert!(backlog_a.is_empty());
    session_a.backlog_done();
    assert_eq!(session_a.next_live(&mut bus), None);

    // A creates "General" and hears RoomCreated{id: 1, name: "General"}.
    let r = post_room(
        &mut db,
        &mut bus,
        FormAddRoom { user_id: a, api_key: key_a, name: String::from("General") },
    );
    let key_a = created_key(&r);
    match session_a.next_live(&mut bus) {
        Some(EventMessage::Room(room)) => {
            assert_eq!(room.id, 1);
            assert_eq!(room.name.as_str(), "General");
        },
        other => panic!("expected the created room, got {:?}", other),
    }

    // A posts "hi" and hears it back.
    let r = post_message(
        &mut db,
        &mut bus,
        FormMessage { user_id: a, api_key: key_a, room_id: 1, text: String::from("hi") },
    );
    let key_a = created_key(&r);
    match session_a.next_live(&mut bus) {
        Some(EventMessage::Message(m)) => {
            assert_eq!(m.room_id, 1);
            assert_eq!(m.user_id, a);
            assert_eq!(m.text.as_str(), "hi");
        },
        other => panic!("expected the posted message, got {:?}", other),
    }

    // A invites B.
    let r = post_invite(
        &mut db,
        &mut bus,
        FormAddUserRoom {
            user_id: a,
            api_key: key_a,
            other_user_username: String::from("B"),
            room_id: 1,
        },
    );
    let key_a = created_key(&r);

    // B logs in and connects: the backlog replays the room, then its
    // history, before any live event.
    let (b, key_b) = login(&mut db, "B", "pb");
    let (mut session_b, backlog_b) = StreamSession::open(&db, &mut bus, b, key_b.as_str()).unwrap();
    assert_eq!(backlog_b.len(), 2);
    match &backlog_b[0] {
        EventMessage::Room(room) => {
            assert_eq!(room.id, 1);
            assert_eq!(room.name.as_str(), "General");
        },
        other => panic!("expected the room first, got {:?}", other),
    }
    match &backlog_b[1] {
        EventMessage::Message(m) => {
            assert_eq!(m.text.as_str(), "hi");
            assert_eq!(m.user_id, a);
        },
        other => panic!("expected the history next, got {:?}", other),
    }
    session_b.backlog_done();
    assert_eq!(session_b.next_live(&mut bus), None);

    // B posts "hello"; A's already-open stream receives it.
    let r = post_message(
        &mut db,
        &mut bus,
        FormMessage { user_id: b, api_key: key_b, room_id: 1, text: String::from("hello") },
    );
    let _key_b = created_key(&r);
    match session_a.next_live(&mut bus) {
        Some(EventMessage::Message(m)) => {
            assert_eq!(m.room_id, 1);
            assert_eq!(m.user_id, b);
            assert_eq!(m.text.as_str(), "hello");
        },
        other => panic!("expected the live message, got {:?}", other),
    }
    // B hears its own message too, exactly once.
    match session_b.next_live(&mut bus) {
        Some(EventMessage::Message(m)) => assert_eq!(m.text.as_str(), "hello"),
        other => panic!("expected the live message, got {:?}", other),
    }
    assert_eq!(session_b.next_live(&mut bus), None);

    // The stale key is rejected: tokens are single use.
    let r = post_message(
        &mut db,
        &mut bus,
        FormMessage { user_id: a, api_key: String::from("stale"), room_id: 1, text: String::from("x") },
    );
    assert!(matches!(r, ReponseJson::Unauthorized(_)));
    let _ = key_a;
}

#[test]
fn fanout_reaches_members_only_and_in_order() {
    let mut db = Database::new();
    let mut bus = EventBus::new(64);
    let (_, _) = signup(&mut db, "A", "pa");
    let (_, _) = signup(&mut db, "B", "pb");
    signup(&mut db, "C", "pc");

    let (a, key_a) = login(&mut db, "A", "pa");
    let (b, key_b) = login(&mut db, "B", "pb");
    let (c, key_c) = login(&mut db, "C", "pc");

    let (mut session_b, _) = StreamSession::open(&db, &mut bus, b, key_b.as_str()).unwrap();
    let (mut session_c, _) = StreamSession::open(&db, &mut bus, c, key_c.as_str()).unwrap();
    session_b.backlog_done();
    session_c.backlog_done();

    let r = post_room(
        &mut db,
        &mut bus,
        FormAddRoom { user_id: a, api_key: key_a, name: String::from("General") },
    );
    let key_a = created_key(&r);
    let r = post_invite(
        &mut db,
        &mut bus,
        FormAddUserRoom {
            user_id: a,
            api_key: key_a,
            other_user_username: String::from("B"),
            room_id: 1,
        },
    );
    let key_a = created_key(&r);

    // B's open stream caught up through the invite replay.
    match session_b.next_live(&mut bus) {
        Some(EventMessage::Room(room)) => assert_eq!(room.id, 1),
        other => panic!("expected the room replay, got {:?}", other),
    }

    // Two messages in order.
    let r = post_message(
        &mut db,
        &mut bus,
        FormMessage { user_id: a, api_key: key_a, room_id: 1, text: String::from("first") },
    );
    let key_a = created_key(&r);
    let r = post_message(
        &mut db,
        &mut bus,
        FormMessage { user_id: a, api_key: key_a, room_id: 1, text: String::from("second") },
    );
    let _ = created_key(&r);

    // Every member subscribed receives each message exactly once, in order.
    match session_b.next_live(&mut bus) {
        Some(EventMessage::Message(m)) => assert_eq!(m.text.as_str(), "first"),
        other => panic!("expected the first message, got {:?}", other),
    }
    match session_b.next_live(&mut bus) {
        Some(EventMessage::Message(m)) => assert_eq!(m.text.as_str(), "second"),
        other => panic!("expected the second message, got {:?}", other),
    }
    assert_eq!(session_b.next_live(&mut bus), None);

    // C is not a member and receives nothing.
    assert_eq!(session_c.next_live(&mut bus), None);
}

#[test]
fn a_stream_rejects_bad_credentials_before_subscribing() {
    let mut db = Database::new();
    let mut bus = EventBus::new(8);
    signup(&mut db, "A", "pa");
    let (a, key_a) = login(&mut db, "A", "pa");

    assert_eq!(StreamSession::open(&db, &mut bus, 99, "k").unwrap_err(), AuthError::NotFound);
    assert_eq!(
        StreamSession::open(&db, &mut bus, a, "wrong").unwrap_err(),
        AuthError::Mismatch
    );
    db.logout(a);
    assert_eq!(
        StreamSession::open(&db, &mut bus, a, key_a.as_str()).unwrap_err(),
        AuthError::EmptyToken
    );
}

#[test]
fn stream_authentication_does_not_rotate_the_token() {
    let mut db = Database::new();
    let mut bus = EventBus::new(8);
    signup(&mut db, "A", "pa");
    let (a, key_a) = login(&mut db, "A", "pa");
    let _ = StreamSession::open(&db, &mut bus, a, key_a.as_str()).unwrap();
    // The same token still opens another stream: read-only check.
    let _ = StreamSession::open(&db, &mut bus, a, key_a.as_str()).unwrap();
    assert_eq!(db.stream_authenticate(a, key_a.as_str()), Ok(()));
}
