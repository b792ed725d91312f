use chat_core::client::{
    Account, AccountManager, MyEventSource, OpRoomId, RoomData, Rooms, SourceState, User,
};
use chat_core::events::{Message, Room};
use chat_core::session::{LiveAction, LiveInput, SessionState, StreamSession};
use chat_core::store::Database;

fn alice() -> User {
    User { id: 1, username: String::from("alice"), api_key: String::from("k1") }
}

#[test]
fn logging_in_opens_one_stream_with_the_current_token() {
    let mut manager = AccountManager::new();
    assert!(manager.utilisateur_actuelle().is_none());
    assert!(manager.event_source().is_none());

    manager.modifier_utilisateur_actuelle(Some(alice()));
    assert_eq!(manager.utilisateur_actuelle().unwrap().username.as_str(), "alice");
    let source = manager.event_source().unwrap();
    assert_eq!(source.user_id, 1);
    assert_eq!(source.api_key.as_str(), "k1");

    manager.modifier_utilisateur_actuelle(None);
    assert!(manager.utilisateur_actuelle().is_none());
    assert!(manager.event_source().is_none());
}

#[test]
fn retries_are_bounded_and_abandon_to_logged_out() {
    let mut manager = AccountManager::new();
    manager.modifier_utilisateur_actuelle(Some(alice()));
    // Baseline attempt 1; three failures exhaust the limit of 3.
    manager.on_source_state(SourceState::Error);
    assert!(manager.utilisateur_actuelle().is_some());
    manager.on_source_state(SourceState::Error);
    assert!(manager.utilisateur_actuelle().is_some());
    manager.on_source_state(SourceState::Error);
    assert!(manager.utilisateur_actuelle().is_none());
    assert!(manager.event_source().is_none());
}

#[test]
fn a_connection_resets_the_attempt_baseline() {
    let mut manager = AccountManager::new();
    manager.modifier_utilisateur_actuelle(Some(alice()));
    manager.on_source_state(SourceState::Error);
    manager.on_source_state(SourceState::Error);
    manager.on_source_state(SourceState::Connected);
    // The counter is back at the baseline: three more failures fit again.
    manager.on_source_state(SourceState::Error);
    manager.on_source_state(SourceState::Error);
    assert!(manager.utilisateur_actuelle().is_some());
    manager.on_source_state(SourceState::Error);
    assert!(manager.utilisateur_actuelle().is_none());
}

#[test]
fn a_rotated_token_is_used_for_the_next_reconnect() {
    let mut manager = AccountManager::new();
    manager.modifier_utilisateur_actuelle(Some(alice()));
    manager.modifier_api_key(String::from("k2"));
    // The stream already open still presents the token it connected with.
    assert_eq!(manager.event_source().unwrap().api_key.as_str(), "k1");
    // The next reconnect picks the fresh token up.
    manager.on_source_state(SourceState::Error);
    assert_eq!(manager.event_source().unwrap().api_key.as_str(), "k2");
}

#[test]
fn mutation_responses_adopt_the_key_and_keep_refusals() {
    let mut manager = AccountManager::new();
    manager.modifier_utilisateur_actuelle(Some(alice()));
    let err = manager.on_mutation_response(true, Some(String::from("k2")), None);
    assert!(err.is_none());
    assert_eq!(manager.utilisateur_actuelle().unwrap().api_key.as_str(), "k2");

    let err = manager.on_mutation_response(
        false,
        Some(String::from("k3")),
        Some(String::from("nope")),
    );
    assert_eq!(err, Some(String::from("nope")));
    assert_eq!(manager.utilisateur_actuelle().unwrap().api_key.as_str(), "k3");
}

#[test]
fn the_live_state_machine_decides_each_input() {
    let mut db = Database::new();
    let mut session = StreamSession { user_id: 1, receiver: 0, state: SessionState::Live };
    let event = chat_core::events::EventMessage::Room(Room { id: 1, name: String::from("r") });
    assert_eq!(
        session.live_step(LiveInput::Envelope(event.clone())),
        LiveAction::Forward(event)
    );
    assert_eq!(session.state, SessionState::Live);
    assert_eq!(session.live_step(LiveInput::Lagged), LiveAction::Continue);
    assert_eq!(session.state, SessionState::Live);
    assert_eq!(session.live_step(LiveInput::Shutdown), LiveAction::CloseQuietly);
    assert_eq!(session.state, SessionState::Closed);

    // A closed bus channel revokes the session.
    db.ajout_user(chat_core::store::FormAddUser {
        username: String::from("alice"),
        password: String::from("pa"),
    })
    .unwrap();
    db.user_update_api_key("k", 1);
    let mut session = StreamSession { user_id: 1, receiver: 0, state: SessionState::Live };
    assert_eq!(session.handle_bus_closed(&mut db), LiveAction::RevokeAndClose);
    assert_eq!(session.state, SessionState::Closed);
    assert_eq!(db.user_select_id(1).unwrap().api_key.as_str(), "");
}

#[test]
fn the_room_cache_tracks_announcements_and_messages() {
    let mut rooms = Rooms::new();
    rooms.on_room(Room { id: 1, name: String::from("General") });
    rooms.on_message(Message { date: 5, room_id: 1, user_id: 2, text: String::from("hi") });
    rooms.on_message(Message { date: 6, room_id: 1, user_id: 3, text: String::from("yo") });
    let data = rooms.get(1).unwrap();
    assert_eq!(data.name.as_str(), "General");
    assert_eq!(data.messages.len(), 2);
    assert_eq!(data.messages[0].text.as_str(), "hi");
    assert_eq!(data.messages[1].text.as_str(), "yo");
    assert!(rooms.get(2).is_none());

    // A room announced again starts over, as the cache replaces it.
    rooms.on_room(Room { id: 1, name: String::from("General") });
    assert_eq!(rooms.get(1).unwrap().messages.len(), 0);
}

#[test]
fn route_queries_round_trip_through_their_text() {
    assert_eq!(OpRoomId::new_empty().room_id, None);
    assert_eq!(OpRoomId::from_query("").room_id, None);
    assert_eq!(OpRoomId::from_query("Error").room_id, Some(None));
    assert_eq!(OpRoomId::from_query("17").room_id, Some(Some(17)));
    assert_eq!(OpRoomId::from_query("-3").room_id, Some(Some(-3)));
    assert_eq!(OpRoomId::from_query("nope").room_id, Some(None));

    let id = OpRoomId { room_id: Some(Some(17)) };
    assert_eq!(id.query_string().as_str(), "17");
    assert_eq!(OpRoomId::from_query(id.query_string().as_str()), id);
    assert_eq!(OpRoomId { room_id: Some(None) }.query_string().as_str(), "Error");
    assert_eq!(OpRoomId { room_id: None }.query_string().as_str(), "");
}

#[test]
fn accounts_wrap_their_user() {
    let account = Account::new(alice());
    assert_eq!(account.user.id, 1);
    let source = MyEventSource::new(4, "key");
    assert_eq!(source.user_id, 4);
    assert_eq!(source.api_key.as_str(), "key");
}

#[test]
fn room_responses_interpret_reason_and_key() {
    let rooms = vec![Room { id: 1, name: String::from("g") }];
    let (list, key) = Account::interpret_rooms_response(
        Some(String::from("k2")),
        None,
        rooms.clone(),
    );
    assert_eq!(list, Ok(rooms));
    assert_eq!(key, Some(String::from("k2")));

    let (list, key) = Account::interpret_rooms_response(
        None,
        Some(String::from("denied")),
        Vec::new(),
    );
    assert_eq!(list, Err(String::from("denied")));
    assert_eq!(key, None);
}

#[test]
fn room_data_exposes_its_fields() {
    let data = RoomData { name: String::from("g"), messages: Vec::new() };
    assert_eq!(data.name.as_str(), "g");
    assert!(data.messages.is_empty());
}
