//! The decision half of the service's endpoints: each handler validates
//! the caller, performs the domain action, fans the event out, and
//! builds the response body. Reading the request and sending the
//! response stay outside.
//!
//! Every mutating handler first validates and rotates the caller's
//! token; its success responses carry the fresh token the client must
//! adopt for its next request.

use vstd::prelude::*;
use crate::auth::ApiError;
use crate::bus::ChannelView;
use crate::bus::EventBus;
use crate::datetime::timestamp_in_range;
use crate::events::EventView;
use crate::fanout::on_invite_accepted;
use crate::fanout::on_message_created;
use crate::fanout::on_room_created;
use crate::fanout::spec_invite_replay;
use crate::numfmt::i64_to_string;
use crate::numfmt::int_str;
use crate::store::Database;
use crate::store::DatabaseView;
use crate::store::FormAddRoom;
use crate::store::FormAddUser;
use crate::store::FormAddUserRoom;
use crate::store::FormMessage;
use crate::store::lemma_find_room_by_id_some;
use crate::store::lemma_find_set_api_key;
use crate::store::lemma_find_user_by_id_some;
use crate::store::spec_find_user_by_id;
use crate::store::spec_members_of;
use crate::store::spec_room_messages;
use crate::store::spec_sort_by_date;
use crate::events::RoomView;

verus! {

/// A response body with the outcome class the route reports.
#[derive(Debug, Clone, PartialEq, Eq)]
pub enum ReponseJson {
    /// Plain success.
    PlainOk(String),
    /// A resource was created.
    Created(String),
    /// The request was accepted.
    Accepted(String),
    /// A domain rule refused the request.
    BadRequest(String),
    /// Authentication failed.
    Unauthorized(String),
    /// Token or hash generation failed; nothing was applied.
    InternalError(String),
}

/// The body carrying a user identifier and a session token.
pub open spec fn spec_auth_body(user_id: int, api_key: Seq<char>) -> Seq<char> {
    "{ \"user_id\": "@ + int_str(user_id) + ", \"api_key\": \""@ + api_key + "\" }"@
}

/// The body carrying a rotated session token alone.
pub open spec fn spec_key_body(api_key: Seq<char>) -> Seq<char> {
    "{ \"api_key\": \""@ + api_key + "\" }"@
}

/// The body carrying a refusal reason alone.
pub open spec fn spec_reason_body(reason: Seq<char>) -> Seq<char> {
    "{ \"reason\": \""@ + reason + "\" }"@
}

/// The body carrying a rotated session token and a refusal reason.
pub open spec fn spec_key_reason_body(api_key: Seq<char>, reason: Seq<char>) -> Seq<char> {
    "{ \"api_key\": \""@ + api_key + "\", \"reason\": \""@ + reason + "\" }"@
}

/// The body carrying a user identifier and its name.
pub open spec fn spec_user_body(user_id: int, username: Seq<char>) -> Seq<char> {
    "{ \"user_id\": "@ + int_str(user_id) + ", \"username\": \""@ + username + "\" }"@
}

fn auth_body(user_id: i64, api_key: &str) -> (r: String)
    ensures
        r@ == spec_auth_body(user_id as int, api_key@),
{
    let mut out = String::from_str("{ \"user_id\": ");
    let id = i64_to_string(user_id);
    out.append(id.as_str());
    out.append(", \"api_key\": \"");
    out.append(api_key);
    out.append("\" }");
    proof {
        assert(out@ =~= spec_auth_body(user_id as int, api_key@));
    }
    out
}

fn key_body(api_key: &str) -> (r: String)
    ensures
        r@ == spec_key_body(api_key@),
{
    let mut out = String::from_str("{ \"api_key\": \"");
    out.append(api_key);
    out.append("\" }");
    proof {
        assert(out@ =~= spec_key_body(api_key@));
    }
    out
}

fn reason_body(reason: &str) -> (r: String)
    ensures
        r@ == spec_reason_body(reason@),
{
    let mut out = String::from_str("{ \"reason\": \"");
    out.append(reason);
    out.append("\" }");
    proof {
        assert(out@ =~= spec_reason_body(reason@));
    }
    out
}

fn key_reason_body(api_key: &str, reason: &str) -> (r: String)
    ensures
        r@ == spec_key_reason_body(api_key@, reason@),
{
    let mut out = String::from_str("{ \"api_key\": \"");
    out.append(api_key);
    out.append("\", \"reason\": \"");
    out.append(reason);
    out.append("\" }");
    proof {
        assert(out@ =~= spec_key_reason_body(api_key@, reason@));
    }
    out
}

fn user_body(user_id: i64, username: &str) -> (r: String)
    ensures
        r@ == spec_user_body(user_id as int, username@),
{
    let mut out = String::from_str("{ \"user_id\": ");
    let id = i64_to_string(user_id);
    out.append(id.as_str());
    out.append(", \"username\": \"");
    out.append(username);
    out.append("\" }");
    proof {
        assert(out@ =~= spec_user_body(user_id as int, username@));
    }
    out
}

/// Creates a user: on success the new identifier and its first token,
/// created; a taken username is refused as unauthorized, as the service
/// reports it.
pub fn post_user(db: &mut Database, form: FormAddUser) -> (r: ReponseJson)
    requires
        old(db)@.wf(),
        old(db)@.next_user_id < i64::MAX,
    ensures
        final(db)@.wf(),
        match r {
            ReponseJson::Created(body) => !old(db)@.has_username(form.username@) && final(db)@.next_user_id == old(db)@.next_user_id + 1 && exists|key: Seq<char>|
                key.len() > 0 && #[trigger] body@ == spec_auth_body(old(db)@.next_user_id, key),
            ReponseJson::Unauthorized(body) => final(db)@ == old(db)@ && old(db)@.has_username(
                form.username@,
            ) && body@ == spec_reason_body("Identifiant deja pris"@),
            ReponseJson::InternalError(_) => final(db)@ == old(db)@,
            _ => false,
        },
{
    match db.ajout_user(form) {
        Ok(auth) => ReponseJson::Created(auth_body(auth.user_id, auth.api_key.as_str())),
        Err(ApiError::UsernameTaken) => ReponseJson::Unauthorized(
            reason_body("Identifiant deja pris"),
        ),
        Err(_) => ReponseJson::InternalError(reason_body("internal error")),
    }
}

/// Reads a user's public name by identifier; an unknown identifier is a
/// bad request.
pub fn get_user(db: &Database, user_id: i64) -> (r: ReponseJson)
    ensures
        match spec_find_user_by_id(db@.users, user_id as int) {
            Some(u) => r matches ReponseJson::PlainOk(body) && body@ == spec_user_body(
                user_id as int,
                u.username,
            ),
            None => r matches ReponseJson::BadRequest(body) && body@ == spec_reason_body(
                "Mauvais id"@,
            ),
        },
{
    match db.user_select_id(user_id) {
        Ok(user) => {
            proof {
                lemma_find_user_by_id_some(db@.users, user_id as int);
            }
            ReponseJson::PlainOk(user_body(user_id, user.username.as_str()))
        },
        Err(_) => ReponseJson::BadRequest(reason_body("Mauvais id")),
    }
}

/// Logs a user in: the password is checked against the stored hash and
/// a fresh token is issued, accepted; bad credentials are refused as
/// unauthorized.
pub fn post_login(db: &mut Database, form: FormAddUser) -> (r: ReponseJson)
    requires
        old(db)@.wf(),
    ensures
        final(db)@.wf(),
        match r {
            ReponseJson::Accepted(body) => exists|fresh: Seq<char>|
                fresh.len() > 0 && ({
                    let (outcome, post) = #[trigger] old(db)@.login(
                        form.username@,
                        form.password@,
                        fresh,
                    );
                    &&& outcome is Ok
                    &&& final(db)@ == post
                    &&& body@ == spec_auth_body(outcome->Ok_0, fresh)
                }),
            ReponseJson::Unauthorized(body) => final(db)@ == old(db)@ && old(db)@.login(
                form.username@,
                form.password@,
                Seq::<char>::empty(),
            ).0 is Err && body@ == spec_reason_body("Mauvais identifiant ou mot de passe"@),
            ReponseJson::InternalError(_) => final(db)@ == old(db)@,
            _ => false,
        },
{
    match db.connecter_utilisateur(form.username.as_str(), form.password.as_str()) {
        Ok(auth) => ReponseJson::Accepted(auth_body(auth.user_id, auth.api_key.as_str())),
        Err(ApiError::Auth(_)) => ReponseJson::Unauthorized(
            reason_body("Mauvais identifiant ou mot de passe"),
        ),
        Err(_) => ReponseJson::InternalError(reason_body("internal error")),
    }
}

/// Creates a room after validating and rotating the caller's token: the
/// creator becomes the first member, its own channel hears the room, and
/// the response carries the fresh token.
pub fn post_room(db: &mut Database, bus: &mut EventBus, form: FormAddRoom) -> (r: ReponseJson)
    requires
        old(db)@.wf(),
        old(bus)@.wf(),
        old(db)@.next_room_id < i64::MAX,
    ensures
        final(db)@.wf(),
        final(bus)@.wf(),
        final(bus)@.capacity == old(bus)@.capacity,
        match r {
            ReponseJson::Unauthorized(body) => final(db)@ == old(db)@ && final(bus)@ == old(bus)@
                && old(db)@.check_api_key(form.user_id as int, form.api_key@) is Err && body@
                == spec_reason_body("Mauvais id ou api key"@),
            ReponseJson::InternalError(_) => final(db)@ == old(db)@ && final(bus)@ == old(bus)@,
            ReponseJson::Created(body) => exists|fresh: Seq<char>|
                fresh.len() > 0 && (#[trigger] old(db)@.rotate_api_key(
                    form.user_id as int,
                    form.api_key@,
                    fresh,
                )).0 is Ok && ({
                    let db1 = old(db)@.rotate_api_key(
                        form.user_id as int,
                        form.api_key@,
                        fresh,
                    ).1;
                    let room = RoomView { id: db1.next_room_id, name: form.name@ };
                    &&& final(db)@ == (DatabaseView {
                        rooms: db1.rooms.push(room),
                        memberships: db1.memberships.push((form.user_id as int, room.id)),
                        next_room_id: db1.next_room_id + 1,
                        ..db1
                    })
                    &&& body@ == spec_key_body(fresh)
                    &&& final(bus)@.channel(form.user_id as int) == (match old(bus)@.channel(
                        form.user_id as int,
                    ) {
                        Some(ch) => Some(ch.publish(EventView::Room(room))),
                        None => None::<ChannelView>,
                    })
                    &&& forall|v: int|
                        v != form.user_id as int ==> #[trigger] final(bus)@.channel(v) == old(bus)@.channel(v)
                }),
            _ => false,
        },
{
    let user_id = form.user_id;
    let key = match db.verification_api_key_de_utilisateur(user_id, form.api_key.as_str()) {
        Ok(key) => key,
        Err(ApiError::Auth(_)) => {
            return ReponseJson::Unauthorized(reason_body("Mauvais id ou api key"));
        },
        Err(_) => {
            return ReponseJson::InternalError(reason_body("internal error"));
        },
    };
    let ghost fresh = choose|fresh: Seq<char>|
        fresh.len() > 0 && key@ == fresh && #[trigger] old(db)@.rotate_api_key(
            user_id as int,
            form.api_key@,
            fresh,
        ) == (Ok::<(), crate::auth::AuthError>(()), db@);
    proof {
        lemma_find_set_api_key(old(db)@.users, user_id as int, fresh, user_id as int);
    }
    let room = db.ajout_room(form);
    let _ = on_room_created(bus, &room, user_id);
    ReponseJson::Created(key_body(key.as_str()))
}

/// Posts a message after validating and rotating the caller's token: the
/// message is stamped with the clock, persisted, fanned out to every
/// member of its room exactly once, and the response carries the fresh
/// token. An unknown room is a bad request.
pub fn post_message(db: &mut Database, bus: &mut EventBus, form: FormMessage) -> (r: ReponseJson)
    requires
        old(db)@.wf(),
        old(bus)@.wf(),
    ensures
        final(db)@.wf(),
        final(bus)@.wf(),
        final(bus)@.capacity == old(bus)@.capacity,
        match r {
            ReponseJson::Unauthorized(body) => final(db)@ == old(db)@ && final(bus)@ == old(bus)@
                && old(db)@.check_api_key(form.user_id as int, form.api_key@) is Err && body@
                == spec_reason_body("Mauvais id ou api key"@),
            ReponseJson::InternalError(_) => final(db)@ == old(db)@ && final(bus)@ == old(bus)@,
            ReponseJson::BadRequest(body) => !old(db)@.has_room(form.room_id as int) && final(bus)@ == old(bus)@ && body@ == spec_reason_body("Ce salon n'exists pas"@) && exists|
                fresh: Seq<char>,
            |
                fresh.len() > 0 && #[trigger] old(db)@.rotate_api_key(
                    form.user_id as int,
                    form.api_key@,
                    fresh,
                ) == (Ok::<(), crate::auth::AuthError>(()), final(db)@),
            ReponseJson::Created(body) => old(db)@.has_room(form.room_id as int) && exists|
                fresh: Seq<char>,
            |
                fresh.len() > 0 && (#[trigger] old(db)@.rotate_api_key(
                    form.user_id as int,
                    form.api_key@,
                    fresh,
                )).0 is Ok && ({
                    let db1 = old(db)@.rotate_api_key(
                        form.user_id as int,
                        form.api_key@,
                        fresh,
                    ).1;
                    let m = final(db)@.messages.last();
                    &&& body@ == spec_key_body(fresh)
                    &&& m.room_id == form.room_id as int
                    &&& m.user_id == form.user_id as int
                    &&& m.text == form.text@
                    &&& timestamp_in_range(m.date)
                    &&& final(db)@ == (DatabaseView { messages: db1.messages.push(m), ..db1 })
                    &&& forall|u: int|
                        spec_members_of(old(db)@.memberships, form.room_id as int).contains(u)
                            ==> #[trigger] final(bus)@.channel(u) == (match old(bus)@.channel(u) {
                            Some(ch) => Some(ch.publish(EventView::Message(m))),
                            None => None::<ChannelView>,
                        })
                    &&& forall|u: int|
                        !spec_members_of(old(db)@.memberships, form.room_id as int).contains(u)
                            ==> #[trigger] final(bus)@.channel(u) == old(bus)@.channel(u)
                }),
            _ => false,
        },
{
    let user_id = form.user_id;
    let room_id = form.room_id;
    let key = match db.verification_api_key_de_utilisateur(user_id, form.api_key.as_str()) {
        Ok(key) => key,
        Err(ApiError::Auth(_)) => {
            return ReponseJson::Unauthorized(reason_body("Mauvais id ou api key"));
        },
        Err(_) => {
            return ReponseJson::InternalError(reason_body("internal error"));
        },
    };
    let message = match db.ajout_message(form) {
        Ok(message) => message,
        Err(_) => {
            return ReponseJson::BadRequest(reason_body("Ce salon n'exists pas"));
        },
    };
    on_message_created(db, bus, &message);
    proof {
        assert(db@.messages.last() == message@);
    }
    ReponseJson::Created(key_body(key.as_str()))
}

/// Invites a user into a room after validating and rotating the caller's
/// token: the membership is created once, the invitee's channel replays
/// the room and its history, and the response carries the fresh token.
/// A refused invite reports its reason beside the fresh token.
pub fn post_invite(db: &mut Database, bus: &mut EventBus, form: FormAddUserRoom) -> (r:
    ReponseJson)
    requires
        old(db)@.wf(),
        old(bus)@.wf(),
    ensures
        final(db)@.wf(),
        final(bus)@.wf(),
        final(bus)@.capacity == old(bus)@.capacity,
        match r {
            ReponseJson::Unauthorized(body) => final(db)@ == old(db)@ && final(bus)@ == old(bus)@
                && old(db)@.check_api_key(form.user_id as int, form.api_key@) is Err && body@
                == spec_reason_body("Mauvais id ou api key"@),
            ReponseJson::InternalError(_) => final(db)@ == old(db)@ && final(bus)@ == old(bus)@,
            ReponseJson::BadRequest(body) => final(bus)@ == old(bus)@ && exists|fresh: Seq<char>|
                fresh.len() > 0 && (#[trigger] old(db)@.rotate_api_key(
                    form.user_id as int,
                    form.api_key@,
                    fresh,
                )).0 is Ok && ({
                    let db1 = old(db)@.rotate_api_key(
                        form.user_id as int,
                        form.api_key@,
                        fresh,
                    ).1;
                    let (outcome, post) = db1.invite(
                        form.user_id as int,
                        form.other_user_username@,
                        form.room_id as int,
                    );
                    &&& outcome matches Err(e) && body@ == spec_key_reason_body(
                        fresh,
                        e.message_spec(),
                    )
                    &&& final(db)@ == post
                }),
            ReponseJson::Created(body) => exists|fresh: Seq<char>|
                fresh.len() > 0 && (#[trigger] old(db)@.rotate_api_key(
                    form.user_id as int,
                    form.api_key@,
                    fresh,
                )).0 is Ok && ({
                    let db1 = old(db)@.rotate_api_key(
                        form.user_id as int,
                        form.api_key@,
                        fresh,
                    ).1;
                    let (outcome, post) = db1.invite(
                        form.user_id as int,
                        form.other_user_username@,
                        form.room_id as int,
                    );
                    &&& outcome matches Ok(ok) && ({
                        let invitee = ok.1;
                        &&& final(db)@ == post
                        &&& body@ == spec_key_body(fresh)
                        &&& final(bus)@.channel(invitee) == (match old(bus)@.channel(invitee) {
                            Some(ch) => Some(
                                if ch.live() {
                                    ChannelView {
                                        history: ch.history + spec_invite_replay(
                                            ok.0,
                                            spec_sort_by_date(
                                                spec_room_messages(
                                                    old(db)@.messages,
                                                    form.room_id as int,
                                                ),
                                            ),
                                        ),
                                        ..ch
                                    }
                                } else {
                                    ch
                                },
                            ),
                            None => None::<ChannelView>,
                        })
                        &&& forall|v: int|
                            v != invitee ==> #[trigger] final(bus)@.channel(v) == old(bus)@.channel(v)
                    })
                }),
            _ => false,
        },
{
    let user_id = form.user_id;
    let room_id = form.room_id;
    let key = match db.verification_api_key_de_utilisateur(user_id, form.api_key.as_str()) {
        Ok(key) => key,
        Err(ApiError::Auth(_)) => {
            return ReponseJson::Unauthorized(reason_body("Mauvais id ou api key"));
        },
        Err(_) => {
            return ReponseJson::InternalError(reason_body("internal error"));
        },
    };
    match db.ajout_user_room(form) {
        Err(e) => {
            let reason = e.message();
            ReponseJson::BadRequest(key_reason_body(key.as_str(), reason.as_str()))
        },
        Ok((room, invitee)) => {
            proof {
                lemma_find_room_by_id_some(db@.rooms, room_id as int);
            }
            on_invite_accepted(db, bus, &room, invitee);
            ReponseJson::Created(key_body(key.as_str()))
        },
    }
}

} // verus!
