use chat_core::auth::{ApiError, AuthError};
use chat_core::store::{Database, FormAddUser};

fn form(username: &str, password: &str) -> FormAddUser {
    FormAddUser { username: String::from(username), password: String::from(password) }
}

#[test]
fn signup_issues_identifiers_in_order() {
    let mut db = Database::new();
    let a = db.ajout_user(form("alice", "pa")).unwrap();
    let b = db.ajout_user(form("bob", "pb")).unwrap();
    assert_eq!(a.user_id, 1);
    assert_eq!(b.user_id, 2);
    assert!(!a.api_key.is_empty());
    assert!(!b.api_key.is_empty());
}

#[test]
fn signup_refuses_a_taken_username() {
    let mut db = Database::new();
    db.ajout_user(form("alice", "pa")).unwrap();
    assert_eq!(db.ajout_user(form("alice", "other")), Err(ApiError::UsernameTaken));
}

#[test]
fn login_checks_the_password_against_the_stored_hash() {
    let mut db = Database::new();
    db.ajout_user(form("alice", "secret")).unwrap();
    let auth = db.connecter_utilisateur("alice", "secret").unwrap();
    assert_eq!(auth.user_id, 1);
    assert!(!auth.api_key.is_empty());
    assert_eq!(
        db.connecter_utilisateur("alice", "wrong"),
        Err(ApiError::Auth(AuthError::BadCredentials))
    );
    assert_eq!(
        db.connecter_utilisateur("nobody", "secret"),
        Err(ApiError::Auth(AuthError::NotFound))
    );
}

#[test]
fn a_rotated_token_is_single_use() {
    let mut db = Database::new();
    db.ajout_user(form("alice", "pa")).unwrap();
    let auth = db.connecter_utilisateur("alice", "pa").unwrap();
    let old_key = auth.api_key.clone();

    let new_key = db.verification_api_key_de_utilisateur(auth.user_id, old_key.as_str()).unwrap();
    assert_ne!(new_key, old_key);

    // The consumed token is rejected by every subsequent authenticated call.
    assert_eq!(
        db.verification_api_key_de_utilisateur(auth.user_id, old_key.as_str()),
        Err(ApiError::Auth(AuthError::Mismatch))
    );
    assert_eq!(db.stream_authenticate(auth.user_id, old_key.as_str()), Err(AuthError::Mismatch));

    // The fresh token works exactly once in turn.
    let newer = db.verification_api_key_de_utilisateur(auth.user_id, new_key.as_str()).unwrap();
    assert_ne!(newer, new_key);
}

#[test]
fn login_invalidates_the_previous_token() {
    let mut db = Database::new();
    db.ajout_user(form("alice", "pa")).unwrap();
    let first = db.connecter_utilisateur("alice", "pa").unwrap();
    let second = db.connecter_utilisateur("alice", "pa").unwrap();
    assert_ne!(first.api_key, second.api_key);
    assert_eq!(
        db.verification_api_key_de_utilisateur(first.user_id, first.api_key.as_str()),
        Err(ApiError::Auth(AuthError::Mismatch))
    );
}

#[test]
fn deterministic_rotation_follows_the_model() {
    let mut db = Database::new();
    db.ajout_user(form("alice", "pa")).unwrap();
    let auth = db.connecter_utilisateur("alice", "pa").unwrap();
    let got = db
        .rotate_api_key_with(auth.user_id, auth.api_key.as_str(), String::from("tok-2"))
        .unwrap();
    assert_eq!(got.as_str(), "tok-2");
    let again = db.rotate_api_key_with(auth.user_id, "tok-2", String::from("tok-3"));
    assert_eq!(again, Ok(String::from("tok-3")));
    assert_eq!(
        db.rotate_api_key_with(auth.user_id, "tok-2", String::from("tok-4")),
        Err(AuthError::Mismatch)
    );
}

#[test]
fn logout_empties_the_token_and_blocks_validation() {
    let mut db = Database::new();
    db.ajout_user(form("alice", "pa")).unwrap();
    let auth = db.connecter_utilisateur("alice", "pa").unwrap();
    assert_eq!(db.logout(auth.user_id), 1);
    assert_eq!(
        db.verification_api_key_de_utilisateur(auth.user_id, auth.api_key.as_str()),
        Err(ApiError::Auth(AuthError::EmptyToken))
    );
    assert_eq!(db.stream_authenticate(auth.user_id, auth.api_key.as_str()), Err(AuthError::EmptyToken));
}

#[test]
fn validation_reports_an_unknown_user() {
    let mut db = Database::new();
    assert_eq!(
        db.verification_api_key_de_utilisateur(9, "k"),
        Err(ApiError::Auth(AuthError::NotFound))
    );
    assert_eq!(db.logout(9), 0);
}

#[test]
fn generated_keys_are_not_empty() {
    let k = chat_core::auth::new_api_key().unwrap();
    assert!(!k.is_empty());
    let k2 = chat_core::auth::new_api_key_2(k.as_str()).unwrap();
    assert!(!k2.is_empty());
    assert_ne!(k, k2);
}
