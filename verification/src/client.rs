//! The client side: the account manager that owns at most one live
//! stream per logged-in user, rebuilds it after failures with a bounded
//! number of attempts, and adopts each rotated token for the next
//! request and the next reconnect.

use vstd::prelude::*;
use crate::events::Message;
use crate::events::MessageView;
use crate::events::Room;
use crate::numfmt::int_str;
use crate::numfmt::i64_to_string;
use crate::numfmt::parse_i64;
use crate::numfmt::spec_parse_i64;
use crate::store::str_eq;

verus! {

/// The connection state the client shows for its stream.
#[derive(Debug, Clone, Copy, PartialEq, Eq)]
pub enum SourceState {
    Error,
    ReConnecting,
    Connected,
}

/// The client's record of its logged-in user.
#[derive(Debug, Clone, PartialEq, Eq)]
pub struct User {
    pub id: i64,
    pub username: String,
    pub api_key: String,
}

/// Mathematical model of a client [`User`].
pub struct ClientUserView {
    pub id: int,
    pub username: Seq<char>,
    pub api_key: Seq<char>,
}

impl View for User {
    type V = ClientUserView;

    open spec fn view(&self) -> ClientUserView {
        ClientUserView { id: self.id as int, username: self.username@, api_key: self.api_key@ }
    }
}

/// What the client opened its live stream with: the user and the token
/// presented at connect time. Stands for the one open stream connection.
#[derive(Debug, Clone, PartialEq, Eq)]
pub struct MyEventSource {
    pub user_id: i64,
    pub api_key: String,
}

/// Mathematical model of a [`MyEventSource`].
pub struct EventSourceView {
    pub user_id: int,
    pub api_key: Seq<char>,
}

impl View for MyEventSource {
    type V = EventSourceView;

    open spec fn view(&self) -> EventSourceView {
        EventSourceView { user_id: self.user_id as int, api_key: self.api_key@ }
    }
}

impl MyEventSource {
    /// Records the credentials a fresh stream connection presents.
    pub fn new(user_id: i64, api_key: &str) -> (r: MyEventSource)
        ensures
            r@.user_id == user_id as int,
            r@.api_key == api_key@,
    {
        MyEventSource { user_id, api_key: String::from_str(api_key) }
    }
}

/// Mathematical model of the [`AccountManager`].
pub struct AccountManagerView {
    pub user: Option<ClientUserView>,
    pub attempts: int,
    pub source: Option<EventSourceView>,
}

/// The client-side controller: the current user, the reconnect attempt
/// counter, and the one stream connection it manages.
pub struct AccountManager {
    utilisateur_actuelle: Option<User>,
    nombre_tentatives: i64,
    event_source: Option<MyEventSource>,
}

impl View for AccountManager {
    type V = AccountManagerView;

    closed spec fn view(&self) -> AccountManagerView {
        AccountManagerView {
            user: match self.utilisateur_actuelle {
                Some(ref user) => Some(user@),
                None => None,
            },
            attempts: self.nombre_tentatives as int,
            source: match self.event_source {
                Some(ref source) => Some(source@),
                None => None,
            },
        }
    }
}

impl AccountManagerView {
    /// A stream is open exactly while a user is logged in, for that
    /// user; the attempt counter stays within its bound, and is at most
    /// the retry limit while a user is logged in.
    pub open spec fn wf(self) -> bool {
        &&& 0 <= self.attempts <= 4
        &&& (self.user is Some <==> self.source is Some)
        &&& (self.user is Some ==> self.attempts <= 3)
        &&& match (self.user, self.source) {
            (Some(user), Some(source)) => source.user_id == user.id,
            _ => true,
        }
    }
}

impl AccountManager {
    /// A logged-out controller with no open stream.
    pub fn new() -> (r: AccountManager)
        ensures
            r@.wf(),
            r@.user is None,
            r@.attempts == 0,
            r@.source is None,
    {
        AccountManager {
            utilisateur_actuelle: None,
            nombre_tentatives: 0,
            event_source: None,
        }
    }

    /// The logged-in user, if any.
    pub fn utilisateur_actuelle(&self) -> (r: Option<&User>)
        ensures
            match r {
                Some(user) => self@.user == Some(user@),
                None => self@.user is None,
            },
    {
        self.utilisateur_actuelle.as_ref()
    }

    /// The stream connection currently open, if any.
    pub fn event_source(&self) -> (r: Option<&MyEventSource>)
        ensures
            match r {
                Some(source) => self@.source == Some(source@),
                None => self@.source is None,
            },
    {
        self.event_source.as_ref()
    }

    /// Replaces the logged-in user. Any open stream closes; a new user
    /// brings the attempt counter to its connected baseline of one and
    /// opens a stream with the user's current token; logging out clears
    /// the counter.
    pub fn modifier_utilisateur_actuelle(&mut self, user: Option<User>)
        ensures
            final(self)@.wf(),
            match user {
                Some(u) => final(self)@ == (AccountManagerView {
                    user: Some(u@),
                    attempts: 1,
                    source: Some(EventSourceView { user_id: u@.id, api_key: u@.api_key }),
                }),
                None => final(self)@ == (AccountManagerView {
                    user: None,
                    attempts: 0,
                    source: None,
                }),
            },
    {
        self.event_source = None;
        match user {
            Some(u) => {
                let source = MyEventSource::new(u.id, u.api_key.as_str());
                self.nombre_tentatives = 1;
                self.event_source = Some(source);
                self.utilisateur_actuelle = Some(u);
            },
            None => {
                self.nombre_tentatives = 0;
                self.utilisateur_actuelle = None;
            },
        }
    }

    /// One more connection attempt after a stream failure: past the
    /// limit of three the account is forced to logged out and retrying
    /// stops; otherwise the stream reopens with the token the client
    /// knows now.
    pub fn nouvelle_tentative_de_connection(&mut self)
        requires
            old(self)@.wf(),
            old(self)@.user is Some,
        ensures
            final(self)@.wf(),
            ({
                let user = old(self)@.user->Some_0;
                if old(self)@.attempts + 1 > 3 {
                    final(self)@ == (AccountManagerView {
                        user: None,
                        attempts: old(self)@.attempts + 1,
                        source: None,
                    })
                } else {
                    final(self)@ == (AccountManagerView {
                        user: old(self)@.user,
                        attempts: old(self)@.attempts + 1,
                        source: Some(
                            EventSourceView { user_id: user.id, api_key: user.api_key },
                        ),
                    })
                }
            }),
    {
        self.nombre_tentatives = self.nombre_tentatives + 1;
        if self.nombre_tentatives > 3 {
            self.utilisateur_actuelle = None;
            self.event_source = None;
        } else {
            let source = match self.utilisateur_actuelle {
                Some(ref user) => MyEventSource::new(user.id, user.api_key.as_str()),
                None => {
                    proof {
                        assert(false);
                    }
                    MyEventSource::new(0, "")
                },
            };
            self.event_source = Some(source);
        }
    }

    /// Adopts a rotated token for the next request and the next
    /// reconnect; the stream already open keeps the token it presented.
    pub fn modifier_api_key(&mut self, api_key: String)
        requires
            old(self)@.user is Some,
        ensures
            final(self)@.user == Some(
                ClientUserView { api_key: api_key@, ..old(self)@.user->Some_0 },
            ),
            final(self)@.attempts == old(self)@.attempts,
            final(self)@.source == old(self)@.source,
            old(self)@.wf() ==> final(self)@.wf(),
    {
        match self.utilisateur_actuelle {
            Some(ref mut user) => {
                user.api_key = api_key;
            },
            None => {
                proof {
                    assert(false);
                }
            },
        }
    }

    /// The stream reported connected: the attempt counter returns to its
    /// connected baseline of one.
    #[allow(non_snake_case)]
    pub fn Mettre_est_connecter(&mut self)
        ensures
            final(self)@.user == old(self)@.user,
            final(self)@.source == old(self)@.source,
            final(self)@.attempts == 1,
            old(self)@.wf() ==> final(self)@.wf(),
    {
        self.nombre_tentatives = 1;
    }

    /// The window's reaction to a change of the stream state, while a
    /// user is logged in: an error starts the next bounded reconnect
    /// attempt, a connection resets the counter to its baseline, and a
    /// reconnect in progress changes nothing.
    pub fn on_source_state(&mut self, state: SourceState)
        requires
            old(self)@.wf(),
            old(self)@.user is Some,
        ensures
            final(self)@.wf(),
            match state {
                SourceState::Error => ({
                    let user = old(self)@.user->Some_0;
                    if old(self)@.attempts + 1 > 3 {
                        final(self)@ == (AccountManagerView {
                            user: None,
                            attempts: old(self)@.attempts + 1,
                            source: None,
                        })
                    } else {
                        final(self)@ == (AccountManagerView {
                            user: old(self)@.user,
                            attempts: old(self)@.attempts + 1,
                            source: Some(
                                EventSourceView { user_id: user.id, api_key: user.api_key },
                            ),
                        })
                    }
                }),
                SourceState::Connected => final(self)@ == (AccountManagerView {
                    attempts: 1,
                    ..old(self)@
                }),
                SourceState::ReConnecting => final(self)@ == old(self)@,
            },
    {
        match state {
            SourceState::Error => self.nouvelle_tentative_de_connection(),
            SourceState::Connected => self.Mettre_est_connecter(),
            SourceState::ReConnecting => {},
        }
    }

    /// The client's handling of a mutation response: a rotated token
    /// that came back is adopted whatever the status; a created outcome
    /// clears the error display, anything else keeps the server's
    /// refusal reason.
    pub fn on_mutation_response(
        &mut self,
        created: bool,
        api_key: Option<String>,
        reason: Option<String>,
    ) -> (err: Option<String>)
        requires
            old(self)@.wf(),
            old(self)@.user is Some,
        ensures
            final(self)@.wf(),
            final(self)@.attempts == old(self)@.attempts,
            final(self)@.source == old(self)@.source,
            match api_key {
                Some(k) => final(self)@.user == Some(
                    ClientUserView { api_key: k@, ..old(self)@.user->Some_0 },
                ),
                None => final(self)@.user == old(self)@.user,
            },
            err == (if created {
                None::<String>
            } else {
                reason
            }),
    {
        match api_key {
            Some(k) => self.modifier_api_key(k),
            None => {},
        }
        if created {
            None
        } else {
            reason
        }
    }
}

/// An account as the client keeps it beside the room list.
#[derive(Debug, Clone, PartialEq, Eq)]
pub struct Account {
    pub user: User,
}

impl Account {
    /// Wraps the logged-in user.
    pub fn new(user: User) -> (r: Account)
        ensures
            r.user@ == user@,
    {
        Account { user }
    }
}

/// A room identifier as a route query carries it: absent, unreadable, or
/// a number.
#[derive(Debug, Clone, Copy, PartialEq, Eq)]
pub struct OpRoomId {
    pub room_id: Option<Option<i64>>,
}

impl OpRoomId {
    /// No room selected.
    pub fn new_empty() -> (r: OpRoomId)
        ensures
            r.room_id == None::<Option<i64>>,
    {
        OpRoomId { room_id: None }
    }

    /// What reading a query string yields: nothing from an empty query,
    /// the unreadable marker from its own text, else the parsed number.
    pub open spec fn from_query_spec(query: Seq<char>) -> OpRoomId {
        if query.len() == 0 {
            OpRoomId { room_id: None }
        } else if query == "Error"@ {
            OpRoomId { room_id: Some(None) }
        } else {
            OpRoomId { room_id: Some(spec_parse_i64(query)) }
        }
    }

    /// Reads a room identifier out of a route query string.
    pub fn from_query(query: &str) -> (r: OpRoomId)
        ensures
            r == Self::from_query_spec(query@),
    {
        if query.is_empty() {
            OpRoomId { room_id: None }
        } else if str_eq(query, "Error") {
            OpRoomId { room_id: Some(None) }
        } else {
            OpRoomId { room_id: Some(parse_i64(query)) }
        }
    }

    /// What rendering for a route query yields: the number, the
    /// unreadable marker, or nothing.
    pub open spec fn query_string_spec(self) -> Seq<char> {
        match self.room_id {
            Some(Some(id)) => int_str(id as int),
            Some(None) => "Error"@,
            None => Seq::empty(),
        }
    }

    /// Renders the identifier for a route query string.
    pub fn query_string(&self) -> (r: String)
        ensures
            r@ == self.query_string_spec(),
    {
        match self.room_id {
            Some(Some(id)) => i64_to_string(id),
            Some(None) => String::from_str("Error"),
            None => {
                let r = String::new();
                proof {
                    assert(r@ =~= Seq::<char>::empty());
                }
                r
            },
        }
    }
}

/// One room as the client caches it: its name and the messages seen so
/// far, in arrival order.
#[derive(Debug, Clone, PartialEq, Eq)]
pub struct RoomData {
    pub name: String,
    pub messages: Vec<Message>,
}

/// Mathematical model of a cached room.
pub struct RoomDataView {
    pub name: Seq<char>,
    pub messages: Seq<MessageView>,
}

impl View for RoomData {
    type V = RoomDataView;

    open spec fn view(&self) -> RoomDataView {
        RoomDataView {
            name: self.name@,
            messages: self.messages@.map_values(|m: Message| m@),
        }
    }
}

/// The first cached room carrying `id`, scanning from the front.
pub open spec fn spec_find_room_data(rooms: Seq<(int, RoomDataView)>, id: int) -> Option<
    RoomDataView,
>
    decreases rooms.len(),
{
    if rooms.len() == 0 {
        None
    } else if rooms[0].0 == id {
        Some(rooms[0].1)
    } else {
        spec_find_room_data(rooms.skip(1), id)
    }
}

/// The client's cache of every room its stream has announced, keyed by
/// room identifier.
pub struct Rooms {
    rooms: Vec<(i64, RoomData)>,
}

/// Mathematical model of the [`Rooms`] cache.
pub struct RoomsView {
    pub rooms: Seq<(int, RoomDataView)>,
}

impl View for Rooms {
    type V = RoomsView;

    closed spec fn view(&self) -> RoomsView {
        RoomsView { rooms: self.rooms@.map_values(|p: (i64, RoomData)| (p.0 as int, p.1@)) }
    }
}

impl RoomsView {
    /// The cached room carrying `id`, if any.
    pub open spec fn room(self, id: int) -> Option<RoomDataView> {
        spec_find_room_data(self.rooms, id)
    }
}

proof fn lemma_find_room_data_prefix(rooms: Seq<(int, RoomDataView)>, id: int, i: int)
    requires
        0 <= i <= rooms.len(),
        forall|j: int| 0 <= j < i ==> (#[trigger] rooms[j]).0 != id,
    ensures
        spec_find_room_data(rooms, id) == spec_find_room_data(rooms.skip(i), id),
    decreases i,
{
    if i == 0 {
        assert(rooms.skip(0) =~= rooms);
    } else {
        lemma_find_room_data_prefix(rooms, id, i - 1);
        assert(rooms.skip(i - 1).len() > 0);
        assert(rooms.skip(i - 1)[0] == rooms[i - 1]);
        assert(spec_find_room_data(rooms.skip(i - 1), id) == spec_find_room_data(
            rooms.skip(i - 1).skip(1),
            id,
        ));
        assert(rooms.skip(i - 1).skip(1) =~= rooms.skip(i));
    }
}

proof fn lemma_find_room_data_update(
    rooms: Seq<(int, RoomDataView)>,
    i: int,
    data: RoomDataView,
    id: int,
    v: int,
)
    requires
        0 <= i < rooms.len(),
        rooms[i].0 == id,
        forall|j: int| 0 <= j < i ==> (#[trigger] rooms[j]).0 != id,
    ensures
        v == id ==> spec_find_room_data(rooms.update(i, (id, data)), v) == Some(data),
        v != id ==> spec_find_room_data(rooms.update(i, (id, data)), v) == spec_find_room_data(
            rooms,
            v,
        ),
    decreases i,
{
    reveal_with_fuel(spec_find_room_data, 2);
    let updated = rooms.update(i, (id, data));
    if i == 0 {
        assert(updated[0] == (id, data));
        assert(updated.skip(1) =~= rooms.skip(1));
    } else {
        lemma_find_room_data_update(rooms.skip(1), i - 1, data, id, v);
        assert(rooms.skip(1).update(i - 1, (id, data)) =~= updated.skip(1));
        assert(updated[0] == rooms[0]);
    }
}

proof fn lemma_find_room_data_push(
    rooms: Seq<(int, RoomDataView)>,
    entry: (int, RoomDataView),
    v: int,
)
    ensures
        spec_find_room_data(rooms.push(entry), v) == (match spec_find_room_data(rooms, v) {
            Some(data) => Some(data),
            None => if entry.0 == v {
                Some(entry.1)
            } else {
                None
            },
        }),
    decreases rooms.len(),
{
    reveal_with_fuel(spec_find_room_data, 2);
    if rooms.len() == 0 {
        assert(rooms.push(entry)[0] == entry);
        assert(rooms.push(entry).skip(1) =~= Seq::<(int, RoomDataView)>::empty());
        assert(rooms.push(entry).skip(1).len() == 0);
    } else {
        lemma_find_room_data_push(rooms.skip(1), entry, v);
        assert(rooms.push(entry)[0] == rooms[0]);
        assert(rooms.push(entry).skip(1) =~= rooms.skip(1).push(entry));
    }
}

impl Rooms {
    /// An empty cache.
    pub fn new() -> (r: Rooms)
        ensures
            r@.rooms == Seq::<(int, RoomDataView)>::empty(),
    {
        let r = Rooms { rooms: Vec::new() };
        proof {
            assert(r@.rooms =~= Seq::<(int, RoomDataView)>::empty());
        }
        r
    }

    /// A room event arrived: the room enters the cache with no messages,
    /// replacing any cached copy; no other room changes.
    pub fn on_room(&mut self, room: Room)
        ensures
            final(self)@.room(room.id as int) == Some(
                RoomDataView { name: room.name@, messages: Seq::empty() },
            ),
            forall|v: int|
                v != room.id as int ==> #[trigger] final(self)@.room(v) == old(self)@.room(v),
    {
        let ghost prior = self@;
        let ghost fresh = RoomDataView { name: room.name@, messages: Seq::empty() };
        let data = RoomData { name: room.name, messages: Vec::new() };
        proof {
            assert(data@.messages =~= Seq::<MessageView>::empty());
            assert(data@ == fresh);
        }
        let mut i: usize = 0;
        while i < self.rooms.len()
            invariant
                0 <= i <= self.rooms.len(),
                self@ == prior,
                prior == old(self)@,
                self@.rooms.len() == self.rooms.len(),
                data@ == fresh,
                fresh == (RoomDataView { name: room.name@, messages: Seq::empty() }),
                forall|j: int| 0 <= j < i ==> (#[trigger] self@.rooms[j]).0 != room.id as int,
            decreases self.rooms.len() - i,
        {
            proof {
                assert(self@.rooms[i as int] == (
                    self.rooms@[i as int].0 as int,
                    self.rooms@[i as int].1@,
                ));
            }
            if self.rooms[i].0 == room.id {
                let entry = &mut self.rooms[i];
                entry.1 = data;
                proof {
                    assert(self@.rooms =~= prior.rooms.update(i as int, (room.id as int, fresh)));
                    lemma_find_room_data_update(prior.rooms, i as int, fresh, room.id as int, room.id as int);
                    assert forall|v: int| v != room.id as int implies #[trigger] self@.room(v)
                        == prior.room(v) by {
                        lemma_find_room_data_update(
                            prior.rooms,
                            i as int,
                            fresh,
                            room.id as int,
                            v,
                        );
                    }
                }
                return ;
            }
            i = i + 1;
        }
        let room_id = room.id;
        self.rooms.push((room_id, data));
        proof {
            assert(self@.rooms =~= prior.rooms.push((room_id as int, fresh)));
            lemma_find_room_data_prefix(prior.rooms, room_id as int, prior.rooms.len() as int);
            assert(prior.rooms.skip(prior.rooms.len() as int).len() == 0);
            assert forall|v: int| true implies #[trigger] self@.room(v) == (
                if v == room_id as int {
                    Some(fresh)
                } else {
                    prior.room(v)
                }
            ) by {
                lemma_find_room_data_push(prior.rooms, (room_id as int, fresh), v);
            }
        }
    }

    /// A message event arrived: it joins its room's cached history, at
    /// the end; no other room changes. The room must have been announced
    /// before its messages, as the stream guarantees; a driver whose
    /// receiver lagged past a room announcement should check with
    /// [`Rooms::get`] before handing the message over.
    pub fn on_message(&mut self, message: Message)
        requires
            old(self)@.room(message.room_id as int) is Some,
        ensures
            final(self)@.room(message.room_id as int) == Some(
                RoomDataView {
                    name: old(self)@.room(message.room_id as int)->Some_0.name,
                    messages: old(self)@.room(message.room_id as int)->Some_0.messages.push(
                        message@,
                    ),
                },
            ),
            forall|v: int|
                v != message.room_id as int ==> #[trigger] final(self)@.room(v) == old(
                    self,
                )@.room(v),
    {
        let ghost prior = self@;
        let room_id = message.room_id;
        let mut i: usize = 0;
        while i < self.rooms.len()
            invariant
                0 <= i <= self.rooms.len(),
                self@ == prior,
                prior == old(self)@,
                prior.room(room_id as int) is Some,
                room_id == message.room_id,
                self@.rooms.len() == self.rooms.len(),
                forall|j: int| 0 <= j < i ==> (#[trigger] self@.rooms[j]).0 != room_id as int,
            decreases self.rooms.len() - i,
        {
            proof {
                assert(self@.rooms[i as int] == (
                    self.rooms@[i as int].0 as int,
                    self.rooms@[i as int].1@,
                ));
            }
            if self.rooms[i].0 == room_id {
                let ghost pre_data = self@.rooms[i as int].1;
                proof {
                    lemma_find_room_data_prefix(prior.rooms, room_id as int, i as int);
                    assert(prior.rooms.skip(i as int)[0] == prior.rooms[i as int]);
                    assert(prior.room(room_id as int) == Some(pre_data));
                }
                let entry = &mut self.rooms[i];
                entry.1.messages.push(message);
                proof {
                    let ghost updated = self@.rooms[i as int].1;
                    assert(updated.messages =~= pre_data.messages.push(message@));
                    assert(updated.name == pre_data.name);
                    assert(self@.rooms =~= prior.rooms.update(
                        i as int,
                        (room_id as int, updated),
                    ));
                    lemma_find_room_data_update(
                        prior.rooms,
                        i as int,
                        updated,
                        room_id as int,
                        room_id as int,
                    );
                    assert forall|v: int| v != room_id as int implies #[trigger] self@.room(v)
                        == prior.room(v) by {
                        lemma_find_room_data_update(
                            prior.rooms,
                            i as int,
                            updated,
                            room_id as int,
                            v,
                        );
                    }
                }
                return ;
            }
            i = i + 1;
        }
        proof {
            lemma_find_room_data_prefix(prior.rooms, room_id as int, prior.rooms.len() as int);
            assert(prior.rooms.skip(prior.rooms.len() as int).len() == 0);
            assert(false);
        }
    }
}

impl Account {
    /// The decision part of loading the room list from a response: a
    /// refusal reason is an error, anything else is the list, and a
    /// rotated token rides along either way for the caller to adopt.
    pub fn interpret_rooms_response(
        api_key: Option<String>,
        reason: Option<String>,
        rooms: Vec<Room>,
    ) -> (r: (Result<Vec<Room>, String>, Option<String>))
        ensures
            r.1 == api_key,
            match reason {
                Some(e) => r.0 matches Err(err) && err == e,
                None => r.0 matches Ok(list) && list == rooms,
            },
    {
        match reason {
            Some(e) => (Err(e), api_key),
            None => (Ok(rooms), api_key),
        }
    }
}

impl Rooms {
    /// The cached room carrying `room_id`, if any.
    pub fn get(&self, room_id: i64) -> (r: Option<&RoomData>)
        ensures
            match r {
                Some(data) => self@.room(room_id as int) == Some(data@),
                None => self@.room(room_id as int) is None,
            },
    {
        let mut i: usize = 0;
        while i < self.rooms.len()
            invariant
                0 <= i <= self.rooms.len(),
                self@.rooms.len() == self.rooms.len(),
                forall|j: int| 0 <= j < i ==> (#[trigger] self@.rooms[j]).0 != room_id as int,
            decreases self.rooms.len() - i,
        {
            proof {
                assert(self@.rooms[i as int] == (
                    self.rooms@[i as int].0 as int,
                    self.rooms@[i as int].1@,
                ));
            }
            if self.rooms[i].0 == room_id {
                proof {
                    lemma_find_room_data_prefix(self@.rooms, room_id as int, i as int);
                    assert(self@.rooms.skip(i as int)[0] == self@.rooms[i as int]);
                }
                return Some(&self.rooms[i].1);
            }
            i = i + 1;
        }
        proof {
            lemma_find_room_data_prefix(self@.rooms, room_id as int, self@.rooms.len() as int);
            assert(self@.rooms.skip(self@.rooms.len() as int).len() == 0);
        }
        None
    }
}

} // verus!
