use chat_core::bus::EventBus;
use chat_core::handlers::{
    get_user, post_invite, post_login, post_message, post_room, post_user, ReponseJson,
};
use chat_core::store::{Database, FormAddRoom, FormAddUser, FormAddUserRoom, FormMessage};

fn form(username: &str, password: &str) -> FormAddUser {
    FormAddUser { username: String::from(username), password: String::from(password) }
}

fn key_of(r: &ReponseJson) -> String {
    let body = match r {
        ReponseJson::Created(body) => body,
        ReponseJson::Accepted(body) => body,
        other => panic!("expected a success response, got {:?}", other),
    };
    json::parse(body.as_str()).unwrap()["api_key"].as_str().unwrap().to_string()
}

#[test]
fn signup_reports_a_taken_name_as_unauthorized() {
    let mut db = Database::new();
    assert!(matches!(post_user(&mut db, form("alice", "pa")), ReponseJson::Created(_)));
    match post_user(&mut db, form("alice", "pb")) {
        ReponseJson::Unauthorized(body) => {
            assert_eq!(body.as_str(), "{ \"reason\": \"Identifiant deja pris\" }");
        },
        other => panic!("expected unauthorized, got {:?}", other),
    }
}

#[test]
fn user_lookup_reports_name_or_bad_id() {
    let mut db = Database::new();
    post_user(&mut db, form("alice", "pa"));
    match get_user(&db, 1) {
        ReponseJson::PlainOk(body) => {
            assert_eq!(body.as_str(), "{ \"user_id\": 1, \"username\": \"alice\" }");
        },
        other => panic!("expected ok, got {:?}", other),
    }
    match get_user(&db, 9) {
        ReponseJson::BadRequest(body) => {
            assert_eq!(body.as_str(), "{ \"reason\": \"Mauvais id\" }");
        },
        other => panic!("expected bad request, got {:?}", other),
    }
}

#[test]
fn login_rejects_bad_credentials_with_the_service_reason() {
    let mut db = Database::new();
    post_user(&mut db, form("alice", "pa"));
    assert!(matches!(post_login(&mut db, form("alice", "pa")), ReponseJson::Accepted(_)));
    match post_login(&mut db, form("alice", "wrong")) {
        ReponseJson::Unauthorized(body) => {
            assert_eq!(body.as_str(), "{ \"reason\": \"Mauvais identifiant ou mot de passe\" }");
        },
        other => panic!("expected unauthorized, got {:?}", other),
    }
}

#[test]
fn mutations_refuse_a_wrong_token_without_side_effects() {
    let mut db = Database::new();
    let mut bus = EventBus::new(8);
    post_user(&mut db, form("alice", "pa"));
    let login = post_login(&mut db, form("alice", "pa"));
    let key = key_of(&login);

    let r = post_room(
        &mut db,
        &mut bus,
        FormAddRoom { user_id: 1, api_key: String::from("bad"), name: String::from("General") },
    );
    match r {
        ReponseJson::Unauthorized(body) => {
            assert_eq!(body.as_str(), "{ \"reason\": \"Mauvais id ou api key\" }");
        },
        other => panic!("expected unauthorized, got {:?}", other),
    }
    // The refused call consumed nothing: the real key still works.
    let r = post_room(
        &mut db,
        &mut bus,
        FormAddRoom { user_id: 1, api_key: key, name: String::from("General") },
    );
    assert!(matches!(r, ReponseJson::Created(_)));
}

#[test]
fn posting_into_a_missing_room_is_a_bad_request() {
    let mut db = Database::new();
    let mut bus = EventBus::new(8);
    post_user(&mut db, form("alice", "pa"));
    let key = key_of(&post_login(&mut db, form("alice", "pa")));
    let r = post_message(
        &mut db,
        &mut bus,
        FormMessage { user_id: 1, api_key: key, room_id: 5, text: String::from("hi") },
    );
    match r {
        ReponseJson::BadRequest(body) => {
            assert_eq!(body.as_str(), "{ \"reason\": \"Ce salon n'exists pas\" }");
        },
        other => panic!("expected bad request, got {:?}", other),
    }
}

#[test]
fn a_refused_invite_still_hands_the_rotated_key_back() {
    let mut db = Database::new();
    let mut bus = EventBus::new(8);
    post_user(&mut db, form("alice", "pa"));
    post_user(&mut db, form("bob", "pb"));
    let key = key_of(&post_login(&mut db, form("alice", "pa")));
    let key = key_of(&post_room(
        &mut db,
        &mut bus,
        FormAddRoom { user_id: 1, api_key: key, name: String::from("General") },
    ));
    let key = key_of(&post_invite(
        &mut db,
        &mut bus,
        FormAddUserRoom {
            user_id: 1,
            api_key: key,
            other_user_username: String::from("bob"),
            room_id: 1,
        },
    ));
    match post_invite(
        &mut db,
        &mut bus,
        FormAddUserRoom {
            user_id: 1,
            api_key: key,
            other_user_username: String::from("bob"),
            room_id: 1,
        },
    ) {
        ReponseJson::BadRequest(body) => {
            let value = json::parse(body.as_str()).unwrap();
            assert_eq!(value["reason"].as_str().unwrap(), "Cet utilisateur est deja dans ce salon.");
            let rotated = value["api_key"].as_str().unwrap();
            assert!(!rotated.is_empty());
            // The rotated key from the refusal is the one that works next.
            let r = post_room(
                &mut db,
                &mut bus,
                FormAddRoom {
                    user_id: 1,
                    api_key: rotated.to_string(),
                    name: String::from("Second"),
                },
            );
            assert!(matches!(r, ReponseJson::Created(_)));
        },
        other => panic!("expected bad request, got {:?}", other),
    }
}
