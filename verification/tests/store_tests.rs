use chat_core::datetime::DateTimeSql;
use chat_core::store::{
    Database, DomainError, FormAddRoom, FormAddUser, FormAddUserRoom, FormMessage,
};

fn seeded() -> (Database, i64, i64) {
    let mut db = Database::new();
    let a = db
        .ajout_user(FormAddUser { username: String::from("alice"), password: String::from("pa") })
        .unwrap();
    let b = db
        .ajout_user(FormAddUser { username: String::from("bob"), password: String::from("pb") })
        .unwrap();
    (db, a.user_id, b.user_id)
}

fn room_form(user_id: i64, name: &str) -> FormAddRoom {
    FormAddRoom { user_id, api_key: String::new(), name: String::from(name) }
}

fn invite_form(user_id: i64, other: &str, room_id: i64) -> FormAddUserRoom {
    FormAddUserRoom {
        user_id,
        api_key: String::new(),
        other_user_username: String::from(other),
        room_id,
    }
}

fn message_form(user_id: i64, room_id: i64, text: &str) -> FormMessage {
    FormMessage { user_id, api_key: String::new(), room_id, text: String::from(text) }
}

#[test]
fn rooms_get_identifiers_in_order_and_auto_member_their_creator() {
    let (mut db, a, _) = seeded();
    let general = db.ajout_room(room_form(a, "General"));
    let random = db.ajout_room(room_form(a, "Random"));
    assert_eq!(general.id, 1);
    assert_eq!(general.name.as_str(), "General");
    assert_eq!(random.id, 2);
    assert_eq!(db.select_users_room(1), vec![a]);
    let rooms = db.recupere_rooms(a);
    assert_eq!(rooms.len(), 2);
    assert_eq!(rooms[0].name.as_str(), "General");
    assert_eq!(rooms[1].name.as_str(), "Random");
}

#[test]
fn lookups_report_what_is_missing() {
    let (db, a, _) = seeded();
    assert_eq!(db.user_select_id(a).unwrap().username.as_str(), "alice");
    assert_eq!(db.user_select_id(42).unwrap_err().as_str(), "no user with the id 42");
    assert_eq!(db.user_select_username("bob").unwrap().id, 2);
    assert_eq!(
        db.user_select_username("carol").unwrap_err().as_str(),
        "Pas d'utilisateur avec ce nom carol"
    );
    assert_eq!(db.room_select_id(7).unwrap_err().as_str(), "no room with the id 7");
}

#[test]
fn inviting_twice_fails_the_second_time_only() {
    let (mut db, a, b) = seeded();
    let room = db.ajout_room(room_form(a, "General"));

    let first = db.ajout_user_room(invite_form(a, "bob", room.id)).unwrap();
    assert_eq!(first.0.id, room.id);
    assert_eq!(first.1, b);

    let second = db.ajout_user_room(invite_form(a, "bob", room.id));
    assert_eq!(second, Err(DomainError::AlreadyMember));

    // No duplicate membership row: bob appears once.
    assert_eq!(db.select_users_room(room.id), vec![a, b]);
}

#[test]
fn invites_check_their_preconditions_in_order() {
    let (mut db, a, b) = seeded();
    let room = db.ajout_room(room_form(a, "General"));
    assert_eq!(
        db.ajout_user_room(invite_form(a, "bob", 99)),
        Err(DomainError::RoomNotFound)
    );
    assert_eq!(
        db.ajout_user_room(invite_form(a, "carol", room.id)),
        Err(DomainError::UserNotFound)
    );
    // bob is not a member, so bob cannot invite.
    assert_eq!(
        db.ajout_user_room(invite_form(b, "alice", room.id)),
        Err(DomainError::NotAMember)
    );
}

#[test]
fn domain_errors_carry_their_reasons() {
    assert_eq!(DomainError::RoomNotFound.message().as_str(), "Ce salon n'exists pas");
    assert_eq!(DomainError::UserNotFound.message().as_str(), "Pas d'utilisateur avec ce nom");
    assert_eq!(
        DomainError::NotAMember.message().as_str(),
        "Tu ne peux pas invite quelqu'un dans un salon que tu n'y est pas."
    );
    assert_eq!(
        DomainError::AlreadyMember.message().as_str(),
        "Cet utilisateur est deja dans ce salon."
    );
}

#[test]
fn messages_come_back_chronologically_and_by_visibility() {
    let (mut db, a, b) = seeded();
    let general = db.ajout_room(room_form(a, "General"));
    let private = db.ajout_room(room_form(b, "Private"));

    let m1 = db
        .add_message_at(message_form(a, general.id, "one"), DateTimeSql::new(100).unwrap())
        .unwrap();
    let m2 = db
        .add_message_at(message_form(b, private.id, "secret"), DateTimeSql::new(150).unwrap())
        .unwrap();
    let m3 = db
        .add_message_at(message_form(a, general.id, "two"), DateTimeSql::new(200).unwrap())
        .unwrap();
    assert_eq!(m1.date, 100);
    assert_eq!(m2.user_id, b);
    assert_eq!(m3.text.as_str(), "two");

    let visible_a = db.recupere_messages(a);
    assert_eq!(visible_a.len(), 2);
    assert_eq!(visible_a[0].text.as_str(), "one");
    assert_eq!(visible_a[1].text.as_str(), "two");

    let in_general = db.messages_of_room(general.id);
    assert_eq!(in_general.len(), 2);

    assert_eq!(
        db.add_message_at(message_form(a, 42, "nowhere"), DateTimeSql::new(1).unwrap()),
        Err(DomainError::RoomNotFound)
    );
}

#[test]
fn clock_stamped_messages_carry_a_valid_date() {
    let (mut db, a, _) = seeded();
    let room = db.ajout_room(room_form(a, "General"));
    let message = db.ajout_message(message_form(a, room.id, "hi")).unwrap();
    assert!(DateTimeSql::new(message.date).is_some());
    assert_eq!(
        db.ajout_message(message_form(a, 42, "hi")),
        Err(DomainError::RoomNotFound)
    );
}

#[test]
fn token_updates_report_rows_changed() {
    let (mut db, a, _) = seeded();
    assert_eq!(db.user_update_api_key("k", a), 1);
    assert_eq!(db.user_select_id(a).unwrap().api_key.as_str(), "k");
    assert_eq!(db.user_update_api_key("k", 42), 0);
}

#[test]
fn out_of_order_dates_come_back_sorted_and_stable() {
    let (mut db, a, _) = seeded();
    let room = db.ajout_room(room_form(a, "General"));
    db.add_message_at(message_form(a, room.id, "late"), DateTimeSql::new(5).unwrap()).unwrap();
    db.add_message_at(message_form(a, room.id, "early"), DateTimeSql::new(3).unwrap()).unwrap();
    db.add_message_at(message_form(a, room.id, "tie-1"), DateTimeSql::new(5).unwrap()).unwrap();
    db.add_message_at(message_form(a, room.id, "tie-2"), DateTimeSql::new(5).unwrap()).unwrap();

    // Sorted by date; equal dates keep their stored order.
    let ordered = db.recupere_messages(a);
    assert_eq!(ordered.len(), 4);
    assert_eq!(ordered[0].text.as_str(), "early");
    assert_eq!(ordered[1].text.as_str(), "late");
    assert_eq!(ordered[2].text.as_str(), "tie-1");
    assert_eq!(ordered[3].text.as_str(), "tie-2");
    assert_eq!(ordered[0].date, 3);

    let in_room = db.messages_of_room(room.id);
    assert_eq!(in_room[0].text.as_str(), "early");
    assert_eq!(in_room[3].text.as_str(), "tie-2");
}
