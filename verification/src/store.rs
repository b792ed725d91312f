//! The domain store: users, rooms, memberships and the message log, with
//! the uniqueness and referential invariants the service relies on.
//!
//! Messages are kept in persistence order, which is the order live
//! fan-out follows; the history queries hand them back sorted by date,
//! stably, as the original storage layer's date-ordered query did.

use vstd::prelude::*;
use crate::auth::printable_ascii;
use crate::datetime::DateTimeSql;
use crate::datetime::now_timestamp;
use crate::datetime::timestamp_in_range;
use crate::events::Message;
use crate::events::MessageView;
use crate::events::Room;
use crate::events::RoomView;
use crate::numfmt::i64_to_string;
use crate::numfmt::int_str;

verus! {

/// A user's public identity.
#[derive(Debug, Clone, PartialEq, Eq)]
pub struct User {
    pub id: i64,
    pub username: String,
}

/// A user's full record: identity, password hash, and the current
/// session token (`api_key`; the empty string means logged out).
#[derive(Debug, Clone, PartialEq, Eq)]
pub struct UserPass {
    pub id: i64,
    pub username: String,
    pub pass: String,
    pub api_key: String,
}

/// Mathematical model of a [`UserPass`].
pub struct UserPassView {
    pub id: int,
    pub username: Seq<char>,
    pub pass: Seq<char>,
    pub api_key: Seq<char>,
}

impl View for UserPass {
    type V = UserPassView;

    open spec fn view(&self) -> UserPassView {
        UserPassView {
            id: self.id as int,
            username: self.username@,
            pass: self.pass@,
            api_key: self.api_key@,
        }
    }
}

impl UserPassView {
    /// The identifier fits the machine type that carries it, and the
    /// stored password hash has the shape the hashing library emits, so
    /// that checking a password against it cannot abort.
    pub open spec fn wf(self) -> bool {
        &&& i64::MIN <= self.id <= i64::MAX
        &&& printable_ascii(self.pass)
    }
}

/// A fresh credential handed back by a successful login or signup.
#[derive(Debug, Clone, PartialEq, Eq)]
pub struct AuthKey {
    pub user_id: i64,
    pub api_key: String,
}

/// A user identifier with the password it claims.
#[derive(Debug, Clone, PartialEq, Eq)]
pub struct AuthPass {
    pub user_id: i64,
    pub password: String,
}

/// The fields of a signup or login request.
#[derive(Debug, Clone, PartialEq, Eq)]
pub struct FormAddUser {
    pub username: String,
    pub password: String,
}

/// The fields of a room-creation request.
#[derive(Debug, Clone, PartialEq, Eq)]
pub struct FormAddRoom {
    pub user_id: i64,
    pub api_key: String,
    pub name: String,
}

/// The fields of an invite request.
#[derive(Debug, Clone, PartialEq, Eq)]
pub struct FormAddUserRoom {
    pub user_id: i64,
    pub api_key: String,
    pub other_user_username: String,
    pub room_id: i64,
}

/// The fields of a message-creation request.
#[derive(Debug, Clone, PartialEq, Eq)]
pub struct FormMessage {
    pub user_id: i64,
    pub api_key: String,
    pub room_id: i64,
    pub text: String,
}

/// A domain-rule violation: the request was understood and refused.
#[derive(Debug, Clone, Copy, PartialEq, Eq)]
pub enum DomainError {
    RoomNotFound,
    UserNotFound,
    NotAMember,
    AlreadyMember,
}

impl DomainError {
    /// The reason string reported to the client for each violation.
    pub fn message(&self) -> (r: String)
        ensures
            r@ == self.message_spec(),
    {
        match self {
            DomainError::RoomNotFound => String::from_str("Ce salon n'exists pas"),
            DomainError::UserNotFound => String::from_str("Pas d'utilisateur avec ce nom"),
            DomainError::NotAMember => String::from_str(
                "Tu ne peux pas invite quelqu'un dans un salon que tu n'y est pas.",
            ),
            DomainError::AlreadyMember => String::from_str(
                "Cet utilisateur est deja dans ce salon.",
            ),
        }
    }

    /// The reason string for each violation.
    pub open spec fn message_spec(self) -> Seq<char> {
        match self {
            DomainError::RoomNotFound => "Ce salon n'exists pas"@,
            DomainError::UserNotFound => "Pas d'utilisateur avec ce nom"@,
            DomainError::NotAMember => "Tu ne peux pas invite quelqu'un dans un salon que tu n'y est pas."@,
            DomainError::AlreadyMember => "Cet utilisateur est deja dans ce salon."@,
        }
    }
}

/// Mathematical model of the whole store.
pub struct DatabaseView {
    pub users: Seq<UserPassView>,
    pub rooms: Seq<RoomView>,
    pub memberships: Seq<(int, int)>,
    pub messages: Seq<MessageView>,
    pub next_user_id: int,
    pub next_room_id: int,
}

/// The first user carrying `id`, scanning from the front.
pub open spec fn spec_find_user_by_id(users: Seq<UserPassView>, id: int) -> Option<UserPassView>
    decreases users.len(),
{
    if users.len() == 0 {
        None
    } else if users[0].id == id {
        Some(users[0])
    } else {
        spec_find_user_by_id(users.skip(1), id)
    }
}

/// The first user carrying `username`, scanning from the front.
pub open spec fn spec_find_user_by_name(users: Seq<UserPassView>, username: Seq<char>) -> Option<
    UserPassView,
>
    decreases users.len(),
{
    if users.len() == 0 {
        None
    } else if users[0].username == username {
        Some(users[0])
    } else {
        spec_find_user_by_name(users.skip(1), username)
    }
}

/// The first room carrying `id`, scanning from the front.
pub open spec fn spec_find_room_by_id(rooms: Seq<RoomView>, id: int) -> Option<RoomView>
    decreases rooms.len(),
{
    if rooms.len() == 0 {
        None
    } else if rooms[0].id == id {
        Some(rooms[0])
    } else {
        spec_find_room_by_id(rooms.skip(1), id)
    }
}

/// The members of `room`, in the order their memberships were created.
pub open spec fn spec_members_of(memberships: Seq<(int, int)>, room: int) -> Seq<int>
    decreases memberships.len(),
{
    if memberships.len() == 0 {
        Seq::empty()
    } else {
        spec_members_of(memberships.drop_last(), room) + if memberships.last().1 == room {
            seq![memberships.last().0]
        } else {
            Seq::empty()
        }
    }
}

/// The rooms `user` can see, in the order the memberships were created,
/// resolved against the room list.
pub open spec fn spec_rooms_of(
    memberships: Seq<(int, int)>,
    rooms: Seq<RoomView>,
    user: int,
) -> Seq<RoomView>
    decreases memberships.len(),
{
    if memberships.len() == 0 {
        Seq::empty()
    } else {
        spec_rooms_of(memberships.drop_last(), rooms, user) + if memberships.last().0 == user
            && spec_find_room_by_id(rooms, memberships.last().1) is Some {
            seq![spec_find_room_by_id(rooms, memberships.last().1)->Some_0]
        } else {
            Seq::empty()
        }
    }
}

/// The messages of one room, in persistence order.
pub open spec fn spec_room_messages(messages: Seq<MessageView>, room: int) -> Seq<MessageView>
    decreases messages.len(),
{
    if messages.len() == 0 {
        Seq::empty()
    } else {
        spec_room_messages(messages.drop_last(), room) + if messages.last().room_id == room {
            seq![messages.last()]
        } else {
            Seq::empty()
        }
    }
}

/// The messages visible to `user` through its memberships, in
/// persistence order.
pub open spec fn spec_visible_messages(
    messages: Seq<MessageView>,
    memberships: Seq<(int, int)>,
    user: int,
) -> Seq<MessageView>
    decreases messages.len(),
{
    if messages.len() == 0 {
        Seq::empty()
    } else {
        spec_visible_messages(messages.drop_last(), memberships, user) + if memberships.contains(
            (user, messages.last().room_id),
        ) {
            seq![messages.last()]
        } else {
            Seq::empty()
        }
    }
}

impl DatabaseView {
    /// There is a user with this identifier.
    pub open spec fn has_user(self, id: int) -> bool {
        spec_find_user_by_id(self.users, id) is Some
    }

    /// The user with this identifier.
    pub open spec fn user(self, id: int) -> UserPassView {
        spec_find_user_by_id(self.users, id)->Some_0
    }

    /// There is a user with this name.
    pub open spec fn has_username(self, username: Seq<char>) -> bool {
        spec_find_user_by_name(self.users, username) is Some
    }

    /// There is a room with this identifier.
    pub open spec fn has_room(self, id: int) -> bool {
        spec_find_room_by_id(self.rooms, id) is Some
    }

    /// The room with this identifier.
    pub open spec fn room(self, id: int) -> RoomView {
        spec_find_room_by_id(self.rooms, id)->Some_0
    }

    /// `user` can see `room`.
    pub open spec fn is_member(self, user: int, room: int) -> bool {
        self.memberships.contains((user, room))
    }

    /// Identifiers and usernames are unique, identifiers stay below the
    /// counters, memberships are unique pairs between existing rows, and
    /// every message sits in an existing room with a representable date.
    pub open spec fn wf(self) -> bool {
        &&& 1 <= self.next_user_id <= i64::MAX
        &&& 1 <= self.next_room_id <= i64::MAX
        &&& forall|i: int|
            0 <= i < self.users.len() ==> (#[trigger] self.users[i]).wf() && 1 <= self.users[i].id
                < self.next_user_id
        &&& forall|i: int, j: int|
            #![trigger self.users[i].id, self.users[j].id]
            0 <= i < self.users.len() && 0 <= j < self.users.len() && i != j ==> self.users[i].id
                != self.users[j].id
        &&& forall|i: int, j: int|
            #![trigger self.users[i].username, self.users[j].username]
            0 <= i < self.users.len() && 0 <= j < self.users.len() && i != j
                ==> self.users[i].username != self.users[j].username
        &&& forall|i: int|
            0 <= i < self.rooms.len() ==> (#[trigger] self.rooms[i]).wf() && 1 <= self.rooms[i].id
                < self.next_room_id
        &&& forall|i: int, j: int|
            #![trigger self.rooms[i].id, self.rooms[j].id]
            0 <= i < self.rooms.len() && 0 <= j < self.rooms.len() && i != j ==> self.rooms[i].id
                != self.rooms[j].id
        &&& forall|i: int, j: int|
            #![trigger self.memberships[i], self.memberships[j]]
            0 <= i < self.memberships.len() && 0 <= j < self.memberships.len() && i != j
                ==> self.memberships[i] != self.memberships[j]
        &&& forall|i: int|
            0 <= i < self.memberships.len() ==> self.has_user(
                (#[trigger] self.memberships[i]).0,
            ) && self.has_room(self.memberships[i].1)
        &&& forall|i: int|
            0 <= i < self.messages.len() ==> (#[trigger] self.messages[i]).wf() && self.has_room(
                self.messages[i].room_id,
            )
    }
}

/// The domain store, held in memory: the relational collaborator of the
/// core, modelled as verified data.
pub struct Database {
    users: Vec<UserPass>,
    rooms: Vec<Room>,
    memberships: Vec<(i64, i64)>,
    messages: Vec<Message>,
    next_user_id: i64,
    next_room_id: i64,
}

impl View for Database {
    type V = DatabaseView;

    closed spec fn view(&self) -> DatabaseView {
        DatabaseView {
            users: self.users@.map_values(|u: UserPass| u@),
            rooms: self.rooms@.map_values(|r: Room| r@),
            memberships: self.memberships@.map_values(|m: (i64, i64)| (m.0 as int, m.1 as int)),
            messages: self.messages@.map_values(|m: Message| m@),
            next_user_id: self.next_user_id as int,
            next_room_id: self.next_room_id as int,
        }
    }
}

impl Database {
    /// An empty store; identifiers are assigned from 1 upward.
    pub fn new() -> (db: Database)
        ensures
            db@.wf(),
            db@.users == Seq::<UserPassView>::empty(),
            db@.rooms == Seq::<RoomView>::empty(),
            db@.memberships == Seq::<(int, int)>::empty(),
            db@.messages == Seq::<MessageView>::empty(),
            db@.next_user_id == 1,
            db@.next_room_id == 1,
    {
        let db = Database {
            users: Vec::new(),
            rooms: Vec::new(),
            memberships: Vec::new(),
            messages: Vec::new(),
            next_user_id: 1,
            next_room_id: 1,
        };
        proof {
            assert(db@.users =~= Seq::<UserPassView>::empty());
            assert(db@.rooms =~= Seq::<RoomView>::empty());
            assert(db@.memberships =~= Seq::<(int, int)>::empty());
            assert(db@.messages =~= Seq::<MessageView>::empty());
        }
        db
    }
}

/// Relies on str's PartialEq: equality of the character sequences.
#[verifier::external_body]
pub(crate) fn str_eq(a: &str, b: &str) -> (r: bool)
    ensures
        r == (a@ == b@),
{
    a == b
}

proof fn lemma_find_user_by_id_prefix(users: Seq<UserPassView>, id: int, i: int)
    requires
        0 <= i <= users.len(),
        forall|j: int| 0 <= j < i ==> (#[trigger] users[j]).id != id,
    ensures
        spec_find_user_by_id(users, id) == spec_find_user_by_id(users.skip(i), id),
    decreases i,
{
    if i == 0 {
        assert(users.skip(0) =~= users);
    } else {
        lemma_find_user_by_id_prefix(users, id, i - 1);
        assert(users.skip(i - 1).len() > 0);
        assert(users.skip(i - 1)[0] == users[i - 1]);
        assert(users.skip(i - 1)[0].id != id);
        assert(spec_find_user_by_id(users.skip(i - 1), id) == spec_find_user_by_id(users.skip(i - 1).skip(1), id));
        assert(users.skip(i - 1).skip(1) =~= users.skip(i));
    }
}

proof fn lemma_find_user_by_name_prefix(users: Seq<UserPassView>, username: Seq<char>, i: int)
    requires
        0 <= i <= users.len(),
        forall|j: int| 0 <= j < i ==> (#[trigger] users[j]).username != username,
    ensures
        spec_find_user_by_name(users, username) == spec_find_user_by_name(
            users.skip(i),
            username,
        ),
    decreases i,
{
    if i == 0 {
        assert(users.skip(0) =~= users);
    } else {
        lemma_find_user_by_name_prefix(users, username, i - 1);
        assert(users.skip(i - 1).len() > 0);
        assert(users.skip(i - 1)[0] == users[i - 1]);
        assert(users.skip(i - 1)[0].username != username);
        assert(spec_find_user_by_name(users.skip(i - 1), username) == spec_find_user_by_name(users.skip(i - 1).skip(1), username));
        assert(users.skip(i - 1).skip(1) =~= users.skip(i));
    }
}

proof fn lemma_find_room_by_id_prefix(rooms: Seq<RoomView>, id: int, i: int)
    requires
        0 <= i <= rooms.len(),
        forall|j: int| 0 <= j < i ==> (#[trigger] rooms[j]).id != id,
    ensures
        spec_find_room_by_id(rooms, id) == spec_find_room_by_id(rooms.skip(i), id),
    decreases i,
{
    if i == 0 {
        assert(rooms.skip(0) =~= rooms);
    } else {
        lemma_find_room_by_id_prefix(rooms, id, i - 1);
        assert(rooms.skip(i - 1).len() > 0);
        assert(rooms.skip(i - 1)[0] == rooms[i - 1]);
        assert(rooms.skip(i - 1)[0].id != id);
        assert(spec_find_room_by_id(rooms.skip(i - 1), id) == spec_find_room_by_id(rooms.skip(i - 1).skip(1), id));
        assert(rooms.skip(i - 1).skip(1) =~= rooms.skip(i));
    }
}

impl UserPass {
    /// A field-for-field copy of the record.
    fn duplicate(&self) -> (r: UserPass)
        ensures
            r@ == self@,
    {
        UserPass {
            id: self.id,
            username: self.username.clone(),
            pass: self.pass.clone(),
            api_key: self.api_key.clone(),
        }
    }
}


impl Database {
    /// Looks a user up by identifier; the error reports the identifier
    /// that matched no row.
    pub fn user_select_id(&self, user_id: i64) -> (r: Result<UserPass, String>)
        ensures
            match spec_find_user_by_id(self@.users, user_id as int) {
                Some(u) => r matches Ok(found) && found@ == u,
                None => r matches Err(e) && e@ == "no user with the id "@ + int_str(
                    user_id as int,
                ),
            },
    {
        let mut i: usize = 0;
        while i < self.users.len()
            invariant
                0 <= i <= self.users.len(),
                self@.users.len() == self.users.len(),
                forall|j: int| 0 <= j < i ==> (#[trigger] self@.users[j]).id != user_id as int,
            decreases self.users.len() - i,
        {
            proof {
                assert(self@.users[i as int] == self.users@[i as int]@);
            }
            if self.users[i].id == user_id {
                proof {
                    lemma_find_user_by_id_prefix(self@.users, user_id as int, i as int);
                    assert(self@.users.skip(i as int)[0] == self@.users[i as int]);
                }
                return Ok(self.users[i].duplicate());
            }
            i = i + 1;
        }
        proof {
            lemma_find_user_by_id_prefix(self@.users, user_id as int, self@.users.len() as int);
            assert(self@.users.skip(self@.users.len() as int).len() == 0);
        }
        let mut msg = String::from_str("no user with the id ");
        let id_str = i64_to_string(user_id);
        msg.append(id_str.as_str());
        Err(msg)
    }

    /// Looks a user up by name; the error reports the name that matched
    /// no row.
    pub fn user_select_username(&self, username: &str) -> (r: Result<UserPass, String>)
        ensures
            match spec_find_user_by_name(self@.users, username@) {
                Some(u) => r matches Ok(found) && found@ == u,
                None => r matches Err(e) && e@ == "Pas d'utilisateur avec ce nom "@ + username@,
            },
    {
        let mut i: usize = 0;
        while i < self.users.len()
            invariant
                0 <= i <= self.users.len(),
                self@.users.len() == self.users.len(),
                forall|j: int| 0 <= j < i ==> (#[trigger] self@.users[j]).username != username@,
            decreases self.users.len() - i,
        {
            proof {
                assert(self@.users[i as int] == self.users@[i as int]@);
            }
            if str_eq(self.users[i].username.as_str(), username) {
                proof {
                    lemma_find_user_by_name_prefix(self@.users, username@, i as int);
                    assert(self@.users.skip(i as int)[0] == self@.users[i as int]);
                }
                return Ok(self.users[i].duplicate());
            }
            i = i + 1;
        }
        proof {
            lemma_find_user_by_name_prefix(self@.users, username@, self@.users.len() as int);
            assert(self@.users.skip(self@.users.len() as int).len() == 0);
        }
        let mut msg = String::from_str("Pas d'utilisateur avec ce nom ");
        msg.append(username);
        Err(msg)
    }

    /// Looks a room up by identifier; the error reports the identifier
    /// that matched no row.
    pub fn room_select_id(&self, room_id: i64) -> (r: Result<Room, String>)
        ensures
            match spec_find_room_by_id(self@.rooms, room_id as int) {
                Some(room) => r matches Ok(found) && found@ == room,
                None => r matches Err(e) && e@ == "no room with the id "@ + int_str(
                    room_id as int,
                ),
            },
    {
        let mut i: usize = 0;
        while i < self.rooms.len()
            invariant
                0 <= i <= self.rooms.len(),
                self@.rooms.len() == self.rooms.len(),
                forall|j: int| 0 <= j < i ==> (#[trigger] self@.rooms[j]).id != room_id as int,
            decreases self.rooms.len() - i,
        {
            proof {
                assert(self@.rooms[i as int] == self.rooms@[i as int]@);
            }
            if self.rooms[i].id == room_id {
                proof {
                    lemma_find_room_by_id_prefix(self@.rooms, room_id as int, i as int);
                    assert(self@.rooms.skip(i as int)[0] == self@.rooms[i as int]);
                }
                return Ok(self.rooms[i].duplicate());
            }
            i = i + 1;
        }
        proof {
            lemma_find_room_by_id_prefix(self@.rooms, room_id as int, self@.rooms.len() as int);
            assert(self@.rooms.skip(self@.rooms.len() as int).len() == 0);
        }
        let mut msg = String::from_str("no room with the id ");
        let id_str = i64_to_string(room_id);
        msg.append(id_str.as_str());
        Err(msg)
    }
}

/// The user list with the api key of the user carrying `id` replaced by
/// `key`; no other field and no other user changes.
pub open spec fn spec_set_api_key(users: Seq<UserPassView>, id: int, key: Seq<char>) -> Seq<
    UserPassView,
>
    decreases users.len(),
{
    if users.len() == 0 {
        Seq::empty()
    } else if users[0].id == id {
        seq![
            UserPassView {
                id: users[0].id,
                username: users[0].username,
                pass: users[0].pass,
                api_key: key,
            },
        ] + users.skip(1)
    } else {
        seq![users[0]] + spec_set_api_key(users.skip(1), id, key)
    }
}

proof fn lemma_set_api_key_hit(users: Seq<UserPassView>, id: int, key: Seq<char>, i: int)
    requires
        0 <= i < users.len(),
        users[i].id == id,
        forall|j: int| 0 <= j < i ==> (#[trigger] users[j]).id != id,
    ensures
        spec_set_api_key(users, id, key) =~= users.update(
            i,
            UserPassView {
                id: users[i].id,
                username: users[i].username,
                pass: users[i].pass,
                api_key: key,
            },
        ),
    decreases i,
{
    if i == 0 {
    } else {
        lemma_set_api_key_hit(users.skip(1), id, key, i - 1);
        assert(forall|j: int|
            0 <= j < i - 1 ==> (#[trigger] users.skip(1)[j]).id == users[j + 1].id);
        assert(users.skip(1)[i - 1] == users[i]);
        assert(spec_set_api_key(users, id, key) == seq![users[0]] + spec_set_api_key(
            users.skip(1),
            id,
            key,
        ));
    }
}

proof fn lemma_set_api_key_miss(users: Seq<UserPassView>, id: int, key: Seq<char>)
    requires
        forall|j: int| 0 <= j < users.len() ==> (#[trigger] users[j]).id != id,
    ensures
        spec_set_api_key(users, id, key) =~= users,
    decreases users.len(),
{
    if users.len() > 0 {
        lemma_set_api_key_miss(users.skip(1), id, key);
        assert(forall|j: int|
            0 <= j < users.skip(1).len() ==> (#[trigger] users.skip(1)[j]).id == users[j
                + 1].id);
    }
}

impl Database {
    /// Replaces the session token stored for `user_id`; hands back the
    /// number of records changed, as the storage layer reports it.
    pub fn user_update_api_key(&mut self, api_key: &str, user_id: i64) -> (r: usize)
        ensures
            final(self)@.users == spec_set_api_key(old(self)@.users, user_id as int, api_key@),
            final(self)@.rooms == old(self)@.rooms,
            final(self)@.memberships == old(self)@.memberships,
            final(self)@.messages == old(self)@.messages,
            final(self)@.next_user_id == old(self)@.next_user_id,
            final(self)@.next_room_id == old(self)@.next_room_id,
            r == (if old(self)@.has_user(user_id as int) {
                1usize
            } else {
                0usize
            }),
            old(self)@.wf() ==> final(self)@.wf(),
    {
        let ghost prior = self@;
        let mut i: usize = 0;
        while i < self.users.len()
            invariant
                0 <= i <= self.users.len(),
                self@ == prior,
                prior == old(self)@,
                self@.users.len() == self.users.len(),
                forall|j: int| 0 <= j < i ==> (#[trigger] self@.users[j]).id != user_id as int,
            decreases self.users.len() - i,
        {
            proof {
                assert(self@.users[i as int] == self.users@[i as int]@);
            }
            if self.users[i].id == user_id {
                let user_ref = &mut self.users[i];
                user_ref.api_key = String::from_str(api_key);
                proof {
                    assert(self.users@.map_values(|u: UserPass| u@) =~= prior.users.update(
                        i as int,
                        UserPassView {
                            id: prior.users[i as int].id,
                            username: prior.users[i as int].username,
                            pass: prior.users[i as int].pass,
                            api_key: api_key@,
                        },
                    ));
                    lemma_set_api_key_hit(prior.users, user_id as int, api_key@, i as int);
                    lemma_find_user_by_id_prefix(prior.users, user_id as int, i as int);
                    assert(prior.users.skip(i as int)[0] == prior.users[i as int]);
                    assert(prior.has_user(user_id as int));
                    assert(self@.users =~= spec_set_api_key(
                        prior.users,
                        user_id as int,
                        api_key@,
                    ));
                    assert(self@.memberships =~= prior.memberships);
                    assert(self@.rooms =~= prior.rooms);
                    assert(self@.messages =~= prior.messages);
                    if prior.wf() {
                        lemma_wf_after_set_api_key(prior, self@, user_id as int, api_key@);
                    }
                }
                return 1;
            }
            i = i + 1;
        }
        proof {
            lemma_set_api_key_miss(prior.users, user_id as int, api_key@);
            lemma_find_user_by_id_prefix(prior.users, user_id as int, prior.users.len() as int);
            assert(prior.users.skip(prior.users.len() as int).len() == 0);
            assert(self@.users =~= spec_set_api_key(prior.users, user_id as int, api_key@));
            if prior.wf() {
                lemma_wf_after_set_api_key(prior, self@, user_id as int, api_key@);
            }
        }
        0
    }

    /// Clears the session token stored for `user_id`, logging the user
    /// out; every later token check for the user fails until re-login.
    pub fn logout(&mut self, user_id: i64) -> (r: usize)
        ensures
            final(self)@.users == spec_set_api_key(
                old(self)@.users,
                user_id as int,
                Seq::<char>::empty(),
            ),
            final(self)@.rooms == old(self)@.rooms,
            final(self)@.memberships == old(self)@.memberships,
            final(self)@.messages == old(self)@.messages,
            final(self)@.next_user_id == old(self)@.next_user_id,
            final(self)@.next_room_id == old(self)@.next_room_id,
            r == (if old(self)@.has_user(user_id as int) {
                1usize
            } else {
                0usize
            }),
            old(self)@.wf() ==> final(self)@.wf(),
    {
        proof {
            reveal_strlit("");
            assert(""@ =~= Seq::<char>::empty());
        }
        self.user_update_api_key("", user_id)
    }
}

/// Two user lists carrying the same identifiers in the same places find
/// the same identifiers.
proof fn lemma_find_user_by_id_same_ids(
    users1: Seq<UserPassView>,
    users2: Seq<UserPassView>,
    id: int,
)
    requires
        users1.len() == users2.len(),
        forall|k: int| 0 <= k < users1.len() ==> (#[trigger] users1[k]).id == users2[k].id,
    ensures
        spec_find_user_by_id(users1, id) is Some <==> spec_find_user_by_id(users2, id) is Some,
    decreases users1.len(),
{
    if users1.len() > 0 && users1[0].id != id {
        assert(forall|k: int|
            0 <= k < users1.skip(1).len() ==> (#[trigger] users1.skip(1)[k]).id == users1[k
                + 1].id);
        assert(forall|k: int|
            0 <= k < users2.skip(1).len() ==> (#[trigger] users2.skip(1)[k]).id == users2[k
                + 1].id);
        lemma_find_user_by_id_same_ids(users1.skip(1), users2.skip(1), id);
    }
}

/// Replacing one api key changes no identifier, name or hash, and no
/// list length.
proof fn lemma_set_api_key_shape(users: Seq<UserPassView>, id: int, key: Seq<char>)
    ensures
        spec_set_api_key(users, id, key).len() == users.len(),
        forall|k: int|
            0 <= k < users.len() ==> {
                let updated = #[trigger] spec_set_api_key(users, id, key)[k];
                updated.id == users[k].id && updated.username == users[k].username
                    && updated.pass == users[k].pass
            },
    decreases users.len(),
{
    if users.len() > 0 && users[0].id != id {
        lemma_set_api_key_shape(users.skip(1), id, key);
        assert(forall|k: int|
            1 <= k < users.len() ==> spec_set_api_key(users, id, key)[k]
                == spec_set_api_key(users.skip(1), id, key)[k - 1]);
        assert(forall|k: int|
            0 <= k < users.skip(1).len() ==> (#[trigger] users.skip(1)[k]) == users[k + 1]);
    }
}

/// Replacing one api key preserves the store invariant.
proof fn lemma_wf_after_set_api_key(
    pre: DatabaseView,
    post: DatabaseView,
    id: int,
    key: Seq<char>,
)
    requires
        pre.wf(),
        post.users == spec_set_api_key(pre.users, id, key),
        post.rooms == pre.rooms,
        post.memberships == pre.memberships,
        post.messages == pre.messages,
        post.next_user_id == pre.next_user_id,
        post.next_room_id == pre.next_room_id,
    ensures
        post.wf(),
{
    lemma_set_api_key_shape(pre.users, id, key);
    assert(forall|k: int|
        0 <= k < post.users.len() ==> (#[trigger] post.users[k]).id == pre.users[k].id
            && post.users[k].username == pre.users[k].username && post.users[k].pass
            == pre.users[k].pass);
    assert forall|k: int|
        0 <= k < post.memberships.len() implies post.has_user(
        (#[trigger] post.memberships[k]).0,
    ) && post.has_room(post.memberships[k].1) by {
        assert(pre.has_user(pre.memberships[k].0));
        lemma_find_user_by_id_same_ids(pre.users, post.users, post.memberships[k].0);
    }
}

proof fn lemma_find_user_by_name_none(users: Seq<UserPassView>, username: Seq<char>)
    requires
        spec_find_user_by_name(users, username) is None,
    ensures
        forall|k: int| 0 <= k < users.len() ==> (#[trigger] users[k]).username != username,
    decreases users.len(),
{
    if users.len() > 0 {
        lemma_find_user_by_name_none(users.skip(1), username);
        assert forall|k: int| 0 <= k < users.len() implies (#[trigger] users[k]).username != username by {
            if k > 0 {
                assert(users.skip(1)[k - 1] == users[k]);
            }
        }
    }
}

pub(crate) proof fn lemma_find_user_by_id_some(users: Seq<UserPassView>, id: int)
    requires
        spec_find_user_by_id(users, id) is Some,
    ensures
        users.contains(spec_find_user_by_id(users, id)->Some_0),
        spec_find_user_by_id(users, id)->Some_0.id == id,
    decreases users.len(),
{
    if users.len() > 0 && users[0].id != id {
        lemma_find_user_by_id_some(users.skip(1), id);
        assert(users.skip(1).contains(spec_find_user_by_id(users, id)->Some_0));
        let k = choose|k: int|
            0 <= k < users.skip(1).len() && users.skip(1)[k] == spec_find_user_by_id(
                users,
                id,
            )->Some_0;
        assert(users[k + 1] == spec_find_user_by_id(users, id)->Some_0);
    }
}

pub(crate) proof fn lemma_find_user_by_name_some(users: Seq<UserPassView>, username: Seq<char>)
    requires
        spec_find_user_by_name(users, username) is Some,
    ensures
        users.contains(spec_find_user_by_name(users, username)->Some_0),
        spec_find_user_by_name(users, username)->Some_0.username == username,
    decreases users.len(),
{
    if users.len() > 0 && users[0].username != username {
        lemma_find_user_by_name_some(users.skip(1), username);
        assert(users.skip(1).contains(spec_find_user_by_name(users, username)->Some_0));
        let k = choose|k: int|
            0 <= k < users.skip(1).len() && users.skip(1)[k] == spec_find_user_by_name(
                users,
                username,
            )->Some_0;
        assert(users[k + 1] == spec_find_user_by_name(users, username)->Some_0);
    }
}

pub(crate) proof fn lemma_find_room_by_id_some(rooms: Seq<RoomView>, id: int)
    requires
        spec_find_room_by_id(rooms, id) is Some,
    ensures
        rooms.contains(spec_find_room_by_id(rooms, id)->Some_0),
        spec_find_room_by_id(rooms, id)->Some_0.id == id,
    decreases rooms.len(),
{
    if rooms.len() > 0 && rooms[0].id != id {
        lemma_find_room_by_id_some(rooms.skip(1), id);
        assert(rooms.skip(1).contains(spec_find_room_by_id(rooms, id)->Some_0));
        let k = choose|k: int|
            0 <= k < rooms.skip(1).len() && rooms.skip(1)[k] == spec_find_room_by_id(
                rooms,
                id,
            )->Some_0;
        assert(rooms[k + 1] == spec_find_room_by_id(rooms, id)->Some_0);
    }
}

pub(crate) proof fn lemma_find_user_by_id_contains(users: Seq<UserPassView>, u: UserPassView)
    requires
        users.contains(u),
    ensures
        spec_find_user_by_id(users, u.id) is Some,
    decreases users.len(),
{
    if users.len() > 0 && users[0].id != u.id {
        let k = choose|k: int| 0 <= k < users.len() && users[k] == u;
        assert(users.skip(1)[k - 1] == u);
        assert(users.skip(1).contains(u));
        lemma_find_user_by_id_contains(users.skip(1), u);
    }
}

proof fn lemma_find_user_by_id_push(users: Seq<UserPassView>, x: UserPassView, id: int)
    ensures
        spec_find_user_by_id(users.push(x), id) == (match spec_find_user_by_id(users, id) {
            Some(u) => Some(u),
            None => if x.id == id {
                Some(x)
            } else {
                None
            },
        }),
    decreases users.len(),
{
    reveal_with_fuel(spec_find_user_by_id, 2);
    if users.len() == 0 {
        assert(users.push(x)[0] == x);
        assert(users.push(x).skip(1) =~= Seq::<UserPassView>::empty());
        assert(users.push(x).skip(1).len() == 0);
    } else {
        lemma_find_user_by_id_push(users.skip(1), x, id);
        assert(users.push(x)[0] == users[0]);
        assert(users.push(x).skip(1) =~= users.skip(1).push(x));
    }
}

proof fn lemma_find_room_by_id_push(rooms: Seq<RoomView>, x: RoomView, id: int)
    ensures
        spec_find_room_by_id(rooms.push(x), id) == (match spec_find_room_by_id(rooms, id) {
            Some(room) => Some(room),
            None => if x.id == id {
                Some(x)
            } else {
                None
            },
        }),
    decreases rooms.len(),
{
    reveal_with_fuel(spec_find_room_by_id, 2);
    if rooms.len() == 0 {
        assert(rooms.push(x)[0] == x);
        assert(rooms.push(x).skip(1) =~= Seq::<RoomView>::empty());
        assert(rooms.push(x).skip(1).len() == 0);
    } else {
        lemma_find_room_by_id_push(rooms.skip(1), x, id);
        assert(rooms.push(x)[0] == rooms[0]);
        assert(rooms.push(x).skip(1) =~= rooms.skip(1).push(x));
    }
}

/// In a well-formed store, every membership's room identifier stays
/// below the room counter, and every membership's user identifier stays
/// below the user counter.
proof fn lemma_membership_id_bounds(db: DatabaseView)
    requires
        db.wf(),
    ensures
        forall|k: int|
            0 <= k < db.memberships.len() ==> (#[trigger] db.memberships[k]).1
                < db.next_room_id && db.memberships[k].0 < db.next_user_id,
{
    assert forall|k: int|
        0 <= k < db.memberships.len() implies (#[trigger] db.memberships[k]).1 < db.next_room_id
        && db.memberships[k].0 < db.next_user_id by {
        lemma_find_room_by_id_some(db.rooms, db.memberships[k].1);
        let room = spec_find_room_by_id(db.rooms, db.memberships[k].1)->Some_0;
        let i = choose|i: int| 0 <= i < db.rooms.len() && db.rooms[i] == room;
        assert(db.rooms[i].id < db.next_room_id);
        lemma_find_user_by_id_some(db.users, db.memberships[k].0);
        let u = spec_find_user_by_id(db.users, db.memberships[k].0)->Some_0;
        let j = choose|j: int| 0 <= j < db.users.len() && db.users[j] == u;
        assert(db.users[j].id < db.next_user_id);
    }
}

impl Database {
    /// True when `user_id` currently sees `room_id`.
    pub fn membership_contains(&self, user_id: i64, room_id: i64) -> (r: bool)
        ensures
            r == self@.is_member(user_id as int, room_id as int),
    {
        let ghost pair = (user_id as int, room_id as int);
        let mut i: usize = 0;
        while i < self.memberships.len()
            invariant
                0 <= i <= self.memberships.len(),
                self@.memberships.len() == self.memberships.len(),
                pair == (user_id as int, room_id as int),
                forall|j: int| 0 <= j < i ==> (#[trigger] self@.memberships[j]) != pair,
            decreases self.memberships.len() - i,
        {
            proof {
                assert(self@.memberships[i as int] == (
                    self.memberships@[i as int].0 as int,
                    self.memberships@[i as int].1 as int,
                ));
            }
            if self.memberships[i].0 == user_id && self.memberships[i].1 == room_id {
                proof {
                    assert(self@.memberships[i as int] == pair);
                }
                return true;
            }
            i = i + 1;
        }
        proof {
            assert(!self@.memberships.contains(pair));
        }
        false
    }

    /// Inserts a user record with a hash and a first session token;
    /// refused when the username is already taken. Hands back the new
    /// identifier. The hash must have the shape the hashing library
    /// emits, as the store invariant keeps it.
    pub fn insert_user(
        &mut self,
        username: String,
        pass_hash: String,
        api_key: String,
    ) -> (r: Option<i64>)
        requires
            old(self)@.wf(),
            old(self)@.next_user_id < i64::MAX,
            printable_ascii(pass_hash@),
        ensures
            final(self)@.wf(),
            ({
                let post = final(self)@;
                match spec_find_user_by_name(old(self)@.users, username@) {
                    Some(_) => r is None && post == old(self)@,
                    None => r matches Some(id) && id as int == old(self)@.next_user_id && post
                        == (DatabaseView {
                        users: old(self)@.users.push(
                            UserPassView {
                                id: id as int,
                                username: username@,
                                pass: pass_hash@,
                                api_key: api_key@,
                            },
                        ),
                        next_user_id: old(self)@.next_user_id + 1,
                        ..old(self)@
                    }),
                }
            }),
    {
        let ghost prior = self@;
        match self.user_select_username(username.as_str()) {
            Ok(_) => None,
            Err(_) => {
                let id = self.next_user_id;
                self.users.push(UserPass { id, username, pass: pass_hash, api_key });
                self.next_user_id = self.next_user_id + 1;
                proof {
                    let added = self@.users[prior.users.len() as int];
                    assert(self@.users =~= prior.users.push(added));
                    lemma_find_user_by_name_none(prior.users, added.username);
                    lemma_membership_id_bounds(prior);
                    assert forall|k: int|
                        0 <= k < self@.memberships.len() implies self@.has_user(
                        (#[trigger] self@.memberships[k]).0,
                    ) && self@.has_room(self@.memberships[k].1) by {
                        lemma_find_user_by_id_push(
                            prior.users,
                            added,
                            self@.memberships[k].0,
                        );
                    }
                }
                Some(id)
            },
        }
    }
}

impl Database {
    /// Creates a room and makes its creator the first member; identifiers
    /// are assigned in order.
    pub fn ajout_room(&mut self, form: FormAddRoom) -> (r: Room)
        requires
            old(self)@.wf(),
            old(self)@.has_user(form.user_id as int),
            old(self)@.next_room_id < i64::MAX,
        ensures
            final(self)@.wf(),
            r@ == (RoomView { id: old(self)@.next_room_id, name: form.name@ }),
            final(self)@ == (DatabaseView {
                rooms: old(self)@.rooms.push(r@),
                memberships: old(self)@.memberships.push((form.user_id as int, r@.id)),
                next_room_id: old(self)@.next_room_id + 1,
                ..old(self)@
            }),
    {
        let ghost prior = self@;
        let room = Room { id: self.next_room_id, name: form.name };
        let r = room.duplicate();
        self.rooms.push(room);
        self.memberships.push((form.user_id, r.id));
        self.next_room_id = self.next_room_id + 1;
        proof {
            assert(self@.rooms =~= prior.rooms.push(r@));
            assert(self@.memberships =~= prior.memberships.push((form.user_id as int, r@.id)));
            assert(self@ == (DatabaseView {
                rooms: prior.rooms.push(r@),
                memberships: prior.memberships.push((form.user_id as int, r@.id)),
                next_room_id: prior.next_room_id + 1,
                ..prior
            }));
            lemma_membership_id_bounds(prior);
            lemma_find_room_by_id_contains_new(prior.rooms, r@);
            assert forall|k: int|
                0 <= k < self@.memberships.len() implies self@.has_user(
                (#[trigger] self@.memberships[k]).0,
            ) && self@.has_room(self@.memberships[k].1) by {
                if k < prior.memberships.len() {
                    assert(self@.memberships[k] == prior.memberships[k]);
                    lemma_find_room_by_id_push(prior.rooms, r@, prior.memberships[k].1);
                } else {
                    assert(self@.memberships[k] == (form.user_id as int, r@.id));
                    lemma_find_room_by_id_push(prior.rooms, r@, r@.id);
                    lemma_find_room_by_id_none_of_fresh(prior.rooms, r@.id, prior.next_room_id);
                }
            }
            assert forall|k: int|
                0 <= k < self@.messages.len() implies (#[trigger] self@.messages[k]).wf()
                && self@.has_room(self@.messages[k].room_id) by {
                lemma_find_room_by_id_push(prior.rooms, r@, self@.messages[k].room_id);
            }
        }
        r
    }

    /// Invites a user into a room: the room must exist, the invitee must
    /// be known, the inviter must already be a member, and the invitee
    /// must not be. Hands back the room and the invitee's identifier.
    pub fn ajout_user_room(&mut self, form: FormAddUserRoom) -> (r: Result<
        (Room, i64),
        DomainError,
    >)
        requires
            old(self)@.wf(),
        ensures
            final(self)@.wf(),
            ({
                let (outcome, post) = old(self)@.invite(
                    form.user_id as int,
                    form.other_user_username@,
                    form.room_id as int,
                );
                final(self)@ == post && (match outcome {
                    Ok(ok) => r matches Ok(got) && got.0@ == ok.0 && got.1 as int == ok.1,
                    Err(e) => r matches Err(e2) && e2 == e,
                })
            }),
    {
        let ghost prior = self@;
        let room = match self.room_select_id(form.room_id) {
            Ok(room) => room,
            Err(_) => {
                return Err(DomainError::RoomNotFound);
            },
        };
        let other = match self.user_select_username(form.other_user_username.as_str()) {
            Ok(other) => other,
            Err(_) => {
                return Err(DomainError::UserNotFound);
            },
        };
        if !self.membership_contains(form.user_id, form.room_id) {
            return Err(DomainError::NotAMember);
        }
        if self.membership_contains(other.id, form.room_id) {
            return Err(DomainError::AlreadyMember);
        }
        self.memberships.push((other.id, form.room_id));
        proof {
            assert(self@.memberships =~= prior.memberships.push(
                (other@.id, form.room_id as int),
            ));
            assert(self@ == (DatabaseView {
                memberships: prior.memberships.push((other@.id, form.room_id as int)),
                ..prior
            }));
            lemma_find_user_by_name_some(prior.users, form.other_user_username@);
            lemma_find_user_by_id_contains(prior.users, other@);
            assert forall|k: int|
                0 <= k < self@.memberships.len() implies self@.has_user(
                (#[trigger] self@.memberships[k]).0,
            ) && self@.has_room(self@.memberships[k].1) by {
                if k < prior.memberships.len() {
                    assert(self@.memberships[k] == prior.memberships[k]);
                }
            }
        }
        Ok((room, other.id))
    }

    /// Appends a message carrying an accepted date to the log of an
    /// existing room.
    pub fn add_message_at(&mut self, form: FormMessage, date: DateTimeSql) -> (r: Result<
        Message,
        DomainError,
    >)
        requires
            old(self)@.wf(),
            date.wf(),
        ensures
            final(self)@.wf(),
            ({
                let db = old(self)@;
                let post = final(self)@;
                if db.has_room(form.room_id as int) {
                    r matches Ok(m) && m@ == (MessageView {
                        date: date.0 as int,
                        room_id: form.room_id as int,
                        user_id: form.user_id as int,
                        text: form.text@,
                    }) && post == (DatabaseView { messages: db.messages.push(m@), ..db })
                } else {
                    r matches Err(e) && e == DomainError::RoomNotFound && post == db
                }
            }),
    {
        let ghost prior = self@;
        match self.room_select_id(form.room_id) {
            Ok(_) => {},
            Err(_) => {
                return Err(DomainError::RoomNotFound);
            },
        }
        let message = Message {
            date: date.0,
            room_id: form.room_id,
            user_id: form.user_id,
            text: form.text,
        };
        let r = Message {
            date: message.date,
            room_id: message.room_id,
            user_id: message.user_id,
            text: message.text.clone(),
        };
        self.messages.push(message);
        proof {
            assert(self@.messages =~= prior.messages.push(r@));
            assert(self@ == (DatabaseView { messages: prior.messages.push(r@), ..prior }));
        }
        Ok(r)
    }

    /// Appends a message stamped with the clock's current reading.
    pub fn ajout_message(&mut self, form: FormMessage) -> (r: Result<Message, DomainError>)
        requires
            old(self)@.wf(),
        ensures
            final(self)@.wf(),
            ({
                let db = old(self)@;
                let post = final(self)@;
                if db.has_room(form.room_id as int) {
                    r matches Ok(m) && m@.room_id == form.room_id as int && m@.user_id
                        == form.user_id as int && m@.text == form.text@ && timestamp_in_range(
                        m@.date,
                    ) && post == (DatabaseView { messages: db.messages.push(m@), ..db })
                } else {
                    r matches Err(e) && e == DomainError::RoomNotFound && post == db
                }
            }),
    {
        let now = now_timestamp();
        let date = match DateTimeSql::new(now) {
            Some(date) => date,
            None => {
                proof {
                    assert(false);
                }
                return Err(DomainError::RoomNotFound);
            },
        };
        self.add_message_at(form, date)
    }
}

/// A room identifier at or above the counter of a well-formed room list
/// is fresh.
proof fn lemma_find_room_by_id_none_of_fresh(rooms: Seq<RoomView>, id: int, bound: int)
    requires
        forall|k: int| 0 <= k < rooms.len() ==> (#[trigger] rooms[k]).id < bound,
        id >= bound,
    ensures
        spec_find_room_by_id(rooms, id) is None,
    decreases rooms.len(),
{
    if rooms.len() > 0 {
        assert forall|k: int|
            0 <= k < rooms.skip(1).len() implies (#[trigger] rooms.skip(1)[k]).id < bound by {
            assert(rooms.skip(1)[k] == rooms[k + 1]);
        }
        lemma_find_room_by_id_none_of_fresh(rooms.skip(1), id, bound);
    }
}

/// A freshly numbered room is found in the pushed list.
proof fn lemma_find_room_by_id_contains_new(rooms: Seq<RoomView>, x: RoomView)
    ensures
        spec_find_room_by_id(rooms.push(x), x.id) is Some,
{
    lemma_find_room_by_id_push(rooms, x, x.id);
}


impl Database {
    /// Every member of a room, in the order the memberships were created.
    pub fn select_users_room(&self, room_id: i64) -> (r: Vec<i64>)
        ensures
            r@.map_values(|x: i64| x as int) == spec_members_of(
                self@.memberships,
                room_id as int,
            ),
    {
        let mut out: Vec<i64> = Vec::new();
        let mut i: usize = 0;
        while i < self.memberships.len()
            invariant
                0 <= i <= self.memberships.len(),
                self@.memberships.len() == self.memberships.len(),
                out@.map_values(|x: i64| x as int) =~= spec_members_of(
                    self@.memberships.take(i as int),
                    room_id as int,
                ),
            decreases self.memberships.len() - i,
        {
            let ghost pre = out@.map_values(|x: i64| x as int);
            proof {
                assert(self@.memberships[i as int] == (
                    self.memberships@[i as int].0 as int,
                    self.memberships@[i as int].1 as int,
                ));
                assert(self@.memberships.take(i as int + 1).drop_last() =~= self@.memberships.take(
                    i as int,
                ));
                assert(self@.memberships.take(i as int + 1).last() == self@.memberships[i as int]);
            }
            if self.memberships[i].1 == room_id {
                out.push(self.memberships[i].0);
                proof {
                    assert(out@.map_values(|x: i64| x as int) =~= pre.push(
                        self@.memberships[i as int].0,
                    ));
                }
            }
            i = i + 1;
        }
        proof {
            assert(self@.memberships.take(self@.memberships.len() as int) =~= self@.memberships);
        }
        out
    }

    /// Every room the user can see, in the order the memberships were
    /// created.
    pub fn recupere_rooms(&self, user_id: i64) -> (r: Vec<Room>)
        ensures
            r@.map_values(|room: Room| room@) == spec_rooms_of(
                self@.memberships,
                self@.rooms,
                user_id as int,
            ),
    {
        let mut out: Vec<Room> = Vec::new();
        let mut i: usize = 0;
        while i < self.memberships.len()
            invariant
                0 <= i <= self.memberships.len(),
                self@.memberships.len() == self.memberships.len(),
                out@.map_values(|room: Room| room@) =~= spec_rooms_of(
                    self@.memberships.take(i as int),
                    self@.rooms,
                    user_id as int,
                ),
            decreases self.memberships.len() - i,
        {
            let ghost pre = out@.map_values(|room: Room| room@);
            proof {
                assert(self@.memberships[i as int] == (
                    self.memberships@[i as int].0 as int,
                    self.memberships@[i as int].1 as int,
                ));
                assert(self@.memberships.take(i as int + 1).drop_last() =~= self@.memberships.take(
                    i as int,
                ));
                assert(self@.memberships.take(i as int + 1).last() == self@.memberships[i as int]);
            }
            if self.memberships[i].0 == user_id {
                match self.room_select_id(self.memberships[i].1) {
                    Ok(room) => {
                        out.push(room);
                        proof {
                            assert(out@.map_values(|room: Room| room@) =~= pre.push(
                                spec_find_room_by_id(
                                    self@.rooms,
                                    self@.memberships[i as int].1,
                                )->Some_0,
                            ));
                        }
                    },
                    Err(_) => {},
                }
            }
            i = i + 1;
        }
        proof {
            assert(self@.memberships.take(self@.memberships.len() as int) =~= self@.memberships);
        }
        out
    }

    /// Every message the user can see through its memberships, sorted
    /// by date, messages with equal dates in their stored order.
    pub fn recupere_messages(&self, user_id: i64) -> (r: Vec<Message>)
        ensures
            r@.map_values(|m: Message| m@) == spec_sort_by_date(
                spec_visible_messages(self@.messages, self@.memberships, user_id as int),
            ),
    {
        let mut out: Vec<Message> = Vec::new();
        let mut i: usize = 0;
        while i < self.messages.len()
            invariant
                0 <= i <= self.messages.len(),
                self@.messages.len() == self.messages.len(),
                out@.map_values(|m: Message| m@) =~= spec_visible_messages(
                    self@.messages.take(i as int),
                    self@.memberships,
                    user_id as int,
                ),
            decreases self.messages.len() - i,
        {
            let ghost pre = out@.map_values(|m: Message| m@);
            proof {
                assert(self@.messages[i as int] == self.messages@[i as int]@);
                assert(self@.messages.take(i as int + 1).drop_last() =~= self@.messages.take(
                    i as int,
                ));
                assert(self@.messages.take(i as int + 1).last() == self@.messages[i as int]);
            }
            if self.membership_contains(user_id, self.messages[i].room_id) {
                let m = self.messages[i].duplicate();
                out.push(m);
                proof {
                    assert(out@.map_values(|m: Message| m@) =~= pre.push(
                        self@.messages[i as int],
                    ));
                }
            }
            i = i + 1;
        }
        proof {
            assert(self@.messages.take(self@.messages.len() as int) =~= self@.messages);
        }
        Self::sort_messages_by_date(out)
    }
}

/// How a token replacement shows up in lookups: the key of the first
/// user carrying `id` changes, every other lookup is untouched.
pub proof fn lemma_find_set_api_key(
    users: Seq<UserPassView>,
    id: int,
    key: Seq<char>,
    id2: int,
)
    ensures
        id2 != id ==> spec_find_user_by_id(spec_set_api_key(users, id, key), id2)
            == spec_find_user_by_id(users, id2),
        id2 == id ==> spec_find_user_by_id(spec_set_api_key(users, id, key), id2) == (
        match spec_find_user_by_id(users, id) {
            None => None,
            Some(u) => Some(
                UserPassView {
                    id: u.id,
                    username: u.username,
                    pass: u.pass,
                    api_key: key,
                },
            ),
        }),
    decreases users.len(),
{
    reveal_with_fuel(spec_find_user_by_id, 2);
    reveal_with_fuel(spec_set_api_key, 2);
    if users.len() > 0 {
        let updated = spec_set_api_key(users, id, key);
        if users[0].id == id {
            assert(updated == seq![
                UserPassView {
                    id: users[0].id,
                    username: users[0].username,
                    pass: users[0].pass,
                    api_key: key,
                },
            ] + users.skip(1));
            assert(updated[0].id == users[0].id);
            assert(updated.skip(1) =~= users.skip(1));
        } else {
            lemma_find_set_api_key(users.skip(1), id, key, id2);
            assert(updated == seq![users[0]] + spec_set_api_key(users.skip(1), id, key));
            assert(updated[0] == users[0]);
            assert(updated.skip(1) =~= spec_set_api_key(users.skip(1), id, key));
        }
    }
}

impl Database {
    /// Every message of one room, sorted by date, messages with equal
    /// dates in their stored order.
    pub fn messages_of_room(&self, room_id: i64) -> (r: Vec<Message>)
        ensures
            r@.map_values(|m: Message| m@) == spec_sort_by_date(
                spec_room_messages(self@.messages, room_id as int),
            ),
    {
        let mut out: Vec<Message> = Vec::new();
        let mut i: usize = 0;
        while i < self.messages.len()
            invariant
                0 <= i <= self.messages.len(),
                self@.messages.len() == self.messages.len(),
                out@.map_values(|m: Message| m@) =~= spec_room_messages(
                    self@.messages.take(i as int),
                    room_id as int,
                ),
            decreases self.messages.len() - i,
        {
            let ghost pre = out@.map_values(|m: Message| m@);
            proof {
                assert(self@.messages[i as int] == self.messages@[i as int]@);
                assert(self@.messages.take(i as int + 1).drop_last() =~= self@.messages.take(
                    i as int,
                ));
                assert(self@.messages.take(i as int + 1).last() == self@.messages[i as int]);
            }
            if self.messages[i].room_id == room_id {
                let m = self.messages[i].duplicate();
                out.push(m);
                proof {
                    assert(out@.map_values(|m: Message| m@) =~= pre.push(
                        self@.messages[i as int],
                    ));
                }
            }
            i = i + 1;
        }
        proof {
            assert(self@.messages.take(self@.messages.len() as int) =~= self@.messages);
        }
        Self::sort_messages_by_date(out)
    }
}

/// How often one membership pair occurs in the list.
pub open spec fn spec_count_pair(ms: Seq<(int, int)>, p: (int, int)) -> nat
    decreases ms.len(),
{
    if ms.len() == 0 {
        0
    } else {
        spec_count_pair(ms.drop_last(), p) + (if ms.last() == p {
            1nat
        } else {
            0nat
        })
    }
}

/// A pair absent from the list occurs zero times.
pub proof fn lemma_count_pair_zero(ms: Seq<(int, int)>, p: (int, int))
    requires
        !ms.contains(p),
    ensures
        spec_count_pair(ms, p) == 0,
    decreases ms.len(),
{
    if ms.len() > 0 {
        assert(!ms.drop_last().contains(p)) by {
            if ms.drop_last().contains(p) {
                let j = choose|j: int| 0 <= j < ms.drop_last().len() && ms.drop_last()[j] == p;
                assert(ms[j] == p);
            }
        }
        lemma_count_pair_zero(ms.drop_last(), p);
        assert(ms.last() != p) by {
            if ms.last() == p {
                assert(ms[ms.len() - 1] == p);
            }
        }
    }
}

impl DatabaseView {
    /// What an invite does: the outcome and the store afterward. The
    /// checks run in order: the room must exist, the invitee must be
    /// known, the inviter must already be a member, the invitee must not
    /// be; then exactly one membership row appears.
    pub open spec fn invite(self, inviter: int, other_name: Seq<char>, room_id: int) -> (
        Result<(RoomView, int), DomainError>,
        DatabaseView,
    ) {
        match spec_find_room_by_id(self.rooms, room_id) {
            None => (Err(DomainError::RoomNotFound), self),
            Some(room) => match spec_find_user_by_name(self.users, other_name) {
                None => (Err(DomainError::UserNotFound), self),
                Some(other) => if !self.is_member(inviter, room_id) {
                    (Err(DomainError::NotAMember), self)
                } else if self.is_member(other.id, room_id) {
                    (Err(DomainError::AlreadyMember), self)
                } else {
                    (
                        Ok((room, other.id)),
                        DatabaseView {
                            memberships: self.memberships.push((other.id, room_id)),
                            ..self
                        },
                    )
                },
            },
        }
    }
}

/// Idempotent invite rejection: inviting the same user into the same
/// room twice succeeds the first time and fails with AlreadyMember the
/// second time, changes nothing the second time, and leaves exactly one
/// membership row for the pair.
pub proof fn lemma_invite_idempotent(
    db: DatabaseView,
    inviter: int,
    other_name: Seq<char>,
    room_id: int,
)
    requires
        db.wf(),
        db.invite(inviter, other_name, room_id).0 is Ok,
    ensures
        ({
            let (outcome, post) = db.invite(inviter, other_name, room_id);
            let again = post.invite(inviter, other_name, room_id);
            let invitee = outcome->Ok_0.1;
            &&& again.0 == Err::<(RoomView, int), DomainError>(DomainError::AlreadyMember)
            &&& again.1 == post
            &&& spec_count_pair(post.memberships, (invitee, room_id)) == 1
        }),
{
    let (outcome, post) = db.invite(inviter, other_name, room_id);
    let other = spec_find_user_by_name(db.users, other_name)->Some_0;
    let pair = (other.id, room_id);
    assert(post.memberships == db.memberships.push(pair));
    assert(post.memberships.last() == pair);
    assert(post.memberships.drop_last() =~= db.memberships);
    lemma_count_pair_zero(db.memberships, pair);
    assert(post.is_member(other.id, room_id)) by {
        assert(post.memberships[post.memberships.len() - 1] == pair);
    }
    assert(post.is_member(inviter, room_id)) by {
        let j = choose|j: int|
            0 <= j < db.memberships.len() && db.memberships[j] == (inviter, room_id);
        assert(post.memberships[j] == (inviter, room_id));
    }
}

/// Where a message joins a date-sorted list: after every message dated
/// at or before it, before every strictly later one, so messages with
/// equal dates keep their existing order.
pub open spec fn spec_insert_by_date(sorted: Seq<MessageView>, m: MessageView) -> Seq<
    MessageView,
>
    decreases sorted.len(),
{
    if sorted.len() == 0 {
        seq![m]
    } else if sorted.last().date <= m.date {
        sorted.push(m)
    } else {
        spec_insert_by_date(sorted.drop_last(), m).push(sorted.last())
    }
}

/// The stable date sort of a message list: the order the original
/// storage layer's date-ordered query hands back, with equal dates kept
/// in their stored order.
pub open spec fn spec_sort_by_date(messages: Seq<MessageView>) -> Seq<MessageView>
    decreases messages.len(),
{
    if messages.len() == 0 {
        Seq::empty()
    } else {
        spec_insert_by_date(spec_sort_by_date(messages.drop_last()), messages.last())
    }
}

/// Dates never decrease along the list.
pub open spec fn spec_sorted_by_date(messages: Seq<MessageView>) -> bool {
    forall|k: int, l: int|
        #![trigger messages[k], messages[l]]
        0 <= k < l < messages.len() ==> messages[k].date <= messages[l].date
}

/// How often one message value occurs in the list.
pub open spec fn spec_count_message(messages: Seq<MessageView>, m: MessageView) -> nat
    decreases messages.len(),
{
    if messages.len() == 0 {
        0
    } else {
        spec_count_message(messages.drop_last(), m) + (if messages.last() == m {
            1nat
        } else {
            0nat
        })
    }
}

/// Inserting into the sorted list places the message at the boundary
/// between the dates at or before its own and the strictly later ones.
proof fn lemma_insert_by_date_at(sorted: Seq<MessageView>, m: MessageView, i: int)
    requires
        0 <= i <= sorted.len(),
        forall|k: int| i <= k < sorted.len() ==> (#[trigger] sorted[k]).date > m.date,
        i > 0 ==> sorted[i - 1].date <= m.date,
    ensures
        spec_insert_by_date(sorted, m) =~= sorted.take(i) + seq![m] + sorted.skip(i),
    decreases sorted.len(),
{
    if sorted.len() == 0 {
    } else if sorted.last().date <= m.date {
        assert(i == sorted.len());
        assert(sorted.take(i) =~= sorted);
        assert(sorted.skip(i) =~= Seq::<MessageView>::empty());
    } else {
        assert(i < sorted.len());
        let prefix = sorted.drop_last();
        assert(forall|k: int| 0 <= k < prefix.len() ==> (#[trigger] prefix[k]) == sorted[k]);
        lemma_insert_by_date_at(prefix, m, i);
        assert(prefix.take(i) =~= sorted.take(i));
        assert(spec_insert_by_date(sorted, m) == spec_insert_by_date(prefix, m).push(
            sorted.last(),
        ));
        assert((prefix.take(i) + seq![m] + prefix.skip(i)).push(sorted.last()) =~= sorted.take(i)
            + seq![m] + sorted.skip(i));
    }
}

/// Insertion adds one occurrence of the inserted message and keeps every
/// other count.
proof fn lemma_insert_by_date_count(sorted: Seq<MessageView>, x: MessageView, m: MessageView)
    ensures
        spec_count_message(spec_insert_by_date(sorted, x), m) == spec_count_message(sorted, m)
            + (if x == m {
            1nat
        } else {
            0nat
        }),
    decreases sorted.len(),
{
    reveal_with_fuel(spec_count_message, 2);
    if sorted.len() == 0 {
        assert(spec_count_message(seq![m], m) == 1) by {
            assert(seq![m].drop_last() =~= Seq::<MessageView>::empty());
        }
        if x != m {
            assert(seq![x].drop_last() =~= Seq::<MessageView>::empty());
        }
    } else if sorted.last().date <= x.date {
        assert(sorted.push(x).drop_last() =~= sorted);
    } else {
        lemma_insert_by_date_count(sorted.drop_last(), x, m);
        let inner = spec_insert_by_date(sorted.drop_last(), x);
        assert(inner.push(sorted.last()).drop_last() =~= inner);
    }
}

/// Insertion keeps every date bound the list and the message satisfy.
proof fn lemma_insert_by_date_bound(sorted: Seq<MessageView>, x: MessageView, d: int)
    requires
        forall|k: int| 0 <= k < sorted.len() ==> (#[trigger] sorted[k]).date <= d,
        x.date <= d,
    ensures
        forall|k: int|
            0 <= k < spec_insert_by_date(sorted, x).len() ==> (#[trigger] spec_insert_by_date(
                sorted,
                x,
            )[k]).date <= d,
    decreases sorted.len(),
{
    let result = spec_insert_by_date(sorted, x);
    if sorted.len() == 0 {
        assert forall|k: int| 0 <= k < result.len() implies (#[trigger] result[k]).date <= d by {
            assert(result == seq![x]);
            assert(result[0] == x);
        }
    } else if sorted.last().date <= x.date {
        assert forall|k: int| 0 <= k < result.len() implies (#[trigger] result[k]).date <= d by {
            assert(result == sorted.push(x));
            if k < sorted.len() {
                assert(result[k] == sorted[k]);
            } else {
                assert(result[k] == x);
            }
        }
    } else {
        let prefix = sorted.drop_last();
        assert(forall|k: int| 0 <= k < prefix.len() ==> (#[trigger] prefix[k]) == sorted[k]);
        lemma_insert_by_date_bound(prefix, x, d);
        let inner = spec_insert_by_date(prefix, x);
        assert forall|k: int| 0 <= k < result.len() implies (#[trigger] result[k]).date <= d by {
            assert(result == inner.push(sorted.last()));
            if k < inner.len() {
                assert(result[k] == inner[k]);
                assert(inner[k].date <= d);
            } else {
                assert(result[k] == sorted.last());
                assert(sorted[sorted.len() - 1].date <= d);
            }
        }
    }
}

/// Insertion keeps the list sorted.
proof fn lemma_insert_by_date_sorted(sorted: Seq<MessageView>, x: MessageView)
    requires
        spec_sorted_by_date(sorted),
    ensures
        spec_sorted_by_date(spec_insert_by_date(sorted, x)),
    decreases sorted.len(),
{
    if sorted.len() == 0 {
    } else if sorted.last().date <= x.date {
        assert forall|k: int, l: int|
            0 <= k < l < sorted.push(x).len() implies (#[trigger] sorted.push(x)[k]).date
            <= (#[trigger] sorted.push(x)[l]).date by {
            if l < sorted.len() {
            } else {
                if k < sorted.len() - 1 {
                    assert(sorted[k].date <= sorted[sorted.len() - 1].date);
                }
            }
        }
    } else {
        let prefix = sorted.drop_last();
        assert(forall|k: int| 0 <= k < prefix.len() ==> (#[trigger] prefix[k]) == sorted[k]);
        lemma_insert_by_date_sorted(prefix, x);
        lemma_insert_by_date_bound(prefix, x, sorted.last().date);
        let inner = spec_insert_by_date(prefix, x);
        assert forall|k: int, l: int|
            0 <= k < l < inner.push(sorted.last()).len() implies (#[trigger] inner.push(
            sorted.last(),
        )[k]).date <= (#[trigger] inner.push(sorted.last())[l]).date by {
            if l < inner.len() {
                assert(inner[k].date <= inner[l].date);
            } else {
                assert(inner[k].date <= sorted.last().date);
            }
        }
    }
}

/// The sort is a permutation: every message keeps its count.
pub proof fn lemma_sort_by_date_count(messages: Seq<MessageView>, m: MessageView)
    ensures
        spec_count_message(spec_sort_by_date(messages), m) == spec_count_message(messages, m),
    decreases messages.len(),
{
    if messages.len() > 0 {
        lemma_sort_by_date_count(messages.drop_last(), m);
        lemma_insert_by_date_count(spec_sort_by_date(messages.drop_last()), messages.last(), m);
    }
}

/// The sort sorts: dates never decrease along the result.
pub proof fn lemma_sort_by_date_sorted(messages: Seq<MessageView>)
    ensures
        spec_sorted_by_date(spec_sort_by_date(messages)),
    decreases messages.len(),
{
    if messages.len() > 0 {
        lemma_sort_by_date_sorted(messages.drop_last());
        lemma_insert_by_date_sorted(spec_sort_by_date(messages.drop_last()), messages.last());
    }
}

/// A message occurs in the list exactly when its count is positive.
pub proof fn lemma_count_message_contains(messages: Seq<MessageView>, m: MessageView)
    ensures
        spec_count_message(messages, m) > 0 <==> messages.contains(m),
    decreases messages.len(),
{
    if messages.len() > 0 {
        let prefix = messages.drop_last();
        lemma_count_message_contains(prefix, m);
        assert(messages.contains(m) ==> spec_count_message(messages, m) > 0) by {
            if messages.contains(m) && messages.last() != m {
                let j = choose|j: int| 0 <= j < messages.len() && messages[j] == m;
                assert(prefix[j] == m);
                assert(prefix.contains(m));
            }
        }
        assert(spec_count_message(messages, m) > 0 ==> messages.contains(m)) by {
            if spec_count_message(messages, m) > 0 {
                if messages.last() == m {
                    assert(messages[messages.len() - 1] == m);
                } else {
                    let j = choose|j: int| 0 <= j < prefix.len() && prefix[j] == m;
                    assert(messages[j] == m);
                }
            }
        }
    }
}

impl Database {
    /// Sorts messages by date, stably: the order the storage layer's
    /// date-ordered query returns.
    fn sort_messages_by_date(messages: Vec<Message>) -> (r: Vec<Message>)
        ensures
            r@.map_values(|m: Message| m@) == spec_sort_by_date(
                messages@.map_values(|m: Message| m@),
            ),
    {
        let ghost input = messages@.map_values(|m: Message| m@);
        let mut sorted: Vec<Message> = Vec::new();
        let mut i: usize = 0;
        proof {
            assert(sorted@.map_values(|m: Message| m@) =~= spec_sort_by_date(
                input.take(0),
            )) by {
                assert(input.take(0) =~= Seq::<MessageView>::empty());
                assert(sorted@.map_values(|m: Message| m@) =~= Seq::<MessageView>::empty());
            }
        }
        while i < messages.len()
            invariant
                0 <= i <= messages.len(),
                input == messages@.map_values(|m: Message| m@),
                input.len() == messages.len(),
                sorted@.map_values(|m: Message| m@) =~= spec_sort_by_date(input.take(i as int)),
            decreases messages.len() - i,
        {
            let ghost cur = sorted@.map_values(|m: Message| m@);
            let m = messages[i].duplicate();
            proof {
                assert(m@ == input[i as int]);
                assert(input.take(i as int + 1).drop_last() =~= input.take(i as int));
                assert(input.take(i as int + 1).last() == input[i as int]);
            }
            let mut j: usize = sorted.len();
            while j > 0 && sorted[j - 1].date > m.date
                invariant
                    0 <= j <= sorted.len(),
                    cur == sorted@.map_values(|m: Message| m@),
                    cur.len() == sorted.len(),
                    m@ == input[i as int],
                    input == messages@.map_values(|m: Message| m@),
                    forall|k: int| j <= k < cur.len() ==> (#[trigger] cur[k]).date > m@.date,
                decreases j,
            {
                proof {
                    assert(cur[j - 1] == sorted@[j - 1]@);
                }
                j = j - 1;
            }
            proof {
                if j > 0 {
                    assert(cur[j - 1] == sorted@[j - 1]@);
                    assert(cur[j - 1].date <= m@.date);
                }
            }
            sorted.insert(j, m);
            proof {
                assert(sorted@.map_values(|m: Message| m@) =~= cur.take(j as int) + seq![
                    input[i as int],
                ] + cur.skip(j as int)) by {
                    assert(sorted@ =~= sorted@.subrange(0, j as int).push(m) + sorted@.subrange(
                        j as int + 1,
                        sorted@.len() as int,
                    ));
                }
                lemma_insert_by_date_at(cur, input[i as int], j as int);
            }
            i = i + 1;
        }
        proof {
            assert(input.take(input.len() as int) =~= input);
        }
        sorted
    }
}

} // verus!
