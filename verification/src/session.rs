//! One live connection, server side: authenticate without rotating,
//! replay the backlog, then tail the bus until shutdown.
//!
//! The whole backlog is handed over before the live tail can yield
//! anything, so a client never sees a live event jump ahead of history.
//! In the live state, a lag report is skipped and the tail goes on; a
//! closed channel is fatal and revokes the session; a shutdown closes
//! the session without further output.

use vstd::prelude::*;
use crate::auth::AuthError;
use crate::bus::ChannelView;
use crate::bus::EventBus;
use crate::bus::RecvOutcome;
use crate::bus::RecvOutcomeView;
use crate::events::EventMessage;
use crate::events::EventView;
use crate::events::Message;
use crate::events::MessageView;
use crate::events::Room;
use crate::events::RoomView;
use crate::store::Database;
use crate::store::DatabaseView;
use crate::store::lemma_sort_by_date_count;
use crate::store::lemma_sort_by_date_sorted;
use crate::store::spec_count_message;
use crate::store::spec_rooms_of;
use crate::store::spec_sort_by_date;
use crate::store::spec_sorted_by_date;
use crate::store::spec_set_api_key;
use crate::store::spec_visible_messages;
use crate::store::str_eq;

verus! {

/// Where one stream connection stands.
#[derive(Debug, Clone, Copy, PartialEq, Eq)]
pub enum SessionState {
    Authenticating,
    BacklogReplay,
    Live,
    Closed,
}

/// A server-side stream session: one user, one bus receiver, one state.
#[derive(Debug, Clone, Copy, PartialEq, Eq)]
pub struct StreamSession {
    pub user_id: i64,
    pub receiver: usize,
    pub state: SessionState,
}

/// What can wake the live tail: the next bus outcome, or the
/// process-wide shutdown signal.
#[derive(Debug, Clone, PartialEq, Eq)]
pub enum LiveInput {
    Envelope(EventMessage),
    Lagged,
    Closed,
    Shutdown,
}

/// What the session asks its driver to do with one live input.
#[derive(Debug, Clone, PartialEq, Eq)]
pub enum LiveAction {
    /// Send the envelope to the client.
    Forward(EventMessage),
    /// Nothing to send; keep tailing.
    Continue,
    /// The bus channel is gone: revoke the user's session and stop.
    RevokeAndClose,
    /// Shutdown: stop without emitting anything further.
    CloseQuietly,
}

/// The backlog a fresh connection replays: every visible room in the
/// order the memberships were created, then every visible message
/// sorted by date, equal dates in stored order.
pub open spec fn spec_backlog(db: DatabaseView, user: int) -> Seq<EventView> {
    spec_rooms_of(db.memberships, db.rooms, user).map_values(|r: RoomView| EventView::Room(r))
        + spec_sort_by_date(spec_visible_messages(db.messages, db.memberships, user)).map_values(
        |m: MessageView| EventView::Message(m),
    )
}

impl Database {
    /// The stream's read-only credential check: the stored token must be
    /// present and equal to the presented one; nothing rotates.
    pub fn stream_authenticate(&self, user_id: i64, api_key: &str) -> (r: Result<(), AuthError>)
        ensures
            r == self@.check_api_key(user_id as int, api_key@),
    {
        let user = match self.user_select_id(user_id) {
            Ok(user) => user,
            Err(_) => {
                return Err(AuthError::NotFound);
            },
        };
        if user.api_key.as_str().is_empty() {
            return Err(AuthError::EmptyToken);
        }
        if !str_eq(user.api_key.as_str(), api_key) {
            return Err(AuthError::Mismatch);
        }
        Ok(())
    }

    /// Builds the backlog for a user: every visible room as a room
    /// event, then every visible message as a message event, in
    /// chronological order.
    pub fn backlog(&self, user_id: i64) -> (r: Vec<EventMessage>)
        ensures
            r@.map_values(|e: EventMessage| e@) == spec_backlog(self@, user_id as int),
    {
        let ghost room_views = spec_rooms_of(self@.memberships, self@.rooms, user_id as int);
        let ghost message_views = spec_sort_by_date(
            spec_visible_messages(self@.messages, self@.memberships, user_id as int),
        );
        let rooms = self.recupere_rooms(user_id);
        let messages = self.recupere_messages(user_id);
        let mut out: Vec<EventMessage> = Vec::new();
        let mut i: usize = 0;
        while i < rooms.len()
            invariant
                0 <= i <= rooms.len(),
                rooms@.map_values(|room: Room| room@) == room_views,
                rooms@.len() == room_views.len(),
                out@.map_values(|e: EventMessage| e@) =~= room_views.take(i as int).map_values(
                    |r: RoomView| EventView::Room(r),
                ),
            decreases rooms.len() - i,
        {
            let ghost pre = out@.map_values(|e: EventMessage| e@);
            proof {
                assert(rooms@[i as int]@ == room_views[i as int]);
                assert(room_views.take(i as int + 1).drop_last() =~= room_views.take(i as int));
                assert(room_views.take(i as int + 1).last() == room_views[i as int]);
                assert(room_views.take(i as int + 1).map_values(|r: RoomView| EventView::Room(r))
                    =~= room_views.take(i as int).map_values(|r: RoomView| EventView::Room(r)).push(
                    EventView::Room(room_views[i as int]),
                ));
            }
            out.push(EventMessage::Room(rooms[i].duplicate()));
            proof {
                assert(out@.map_values(|e: EventMessage| e@) =~= pre.push(
                    EventView::Room(room_views[i as int]),
                ));
            }
            i = i + 1;
        }
        proof {
            assert(room_views.take(room_views.len() as int) =~= room_views);
        }
        let ghost room_events = room_views.map_values(|r: RoomView| EventView::Room(r));
        let mut j: usize = 0;
        while j < messages.len()
            invariant
                0 <= j <= messages.len(),
                messages@.map_values(|m: Message| m@) == message_views,
                messages@.len() == message_views.len(),
                out@.map_values(|e: EventMessage| e@) =~= room_events + message_views.take(
                    j as int,
                ).map_values(|m: MessageView| EventView::Message(m)),
            decreases messages.len() - j,
        {
            let ghost pre = out@.map_values(|e: EventMessage| e@);
            proof {
                assert(messages@[j as int]@ == message_views[j as int]);
                assert(message_views.take(j as int + 1).drop_last() =~= message_views.take(
                    j as int,
                ));
                assert(message_views.take(j as int + 1).last() == message_views[j as int]);
                assert(room_events + message_views.take(j as int + 1).map_values(
                    |m: MessageView| EventView::Message(m),
                ) =~= (room_events + message_views.take(j as int).map_values(
                    |m: MessageView| EventView::Message(m),
                )).push(EventView::Message(message_views[j as int])));
            }
            out.push(EventMessage::Message(messages[j].duplicate()));
            proof {
                assert(out@.map_values(|e: EventMessage| e@) =~= pre.push(
                    EventView::Message(message_views[j as int]),
                ));
            }
            j = j + 1;
        }
        proof {
            assert(message_views.take(message_views.len() as int) =~= message_views);
            assert(out@.map_values(|e: EventMessage| e@) =~= spec_backlog(self@, user_id as int));
        }
        out
    }
}

impl StreamSession {
    /// Opens a stream: checks the credential without rotating it, then
    /// subscribes to the user's channel, then assembles the backlog. The
    /// session comes back replaying, with the backlog that must reach the
    /// client before the live tail starts.
    pub fn open(db: &Database, bus: &mut EventBus, user_id: i64, api_key: &str) -> (r: Result<
        (StreamSession, Vec<EventMessage>),
        AuthError,
    >)
        requires
            db@.wf(),
            old(bus)@.wf(),
        ensures
            final(bus)@.wf(),
            final(bus)@.capacity == old(bus)@.capacity,
            match db@.check_api_key(user_id as int, api_key@) {
                Err(e) => r matches Err(e2) && e2 == e && final(bus)@ == old(bus)@,
                Ok(()) => r matches Ok(ok) && ({
                    let pre_channel = (match old(bus)@.channel(user_id as int) {
                        Some(ch) => ch,
                        None => ChannelView {
                            capacity: old(bus)@.capacity,
                            history: Seq::empty(),
                            receivers: Seq::empty(),
                        },
                    });
                    &&& ok.0.user_id == user_id
                    &&& ok.0.state == SessionState::BacklogReplay
                    &&& ok.0.receiver as int == pre_channel.receivers.len()
                    &&& ok.1@.map_values(|e: EventMessage| e@) == spec_backlog(
                        db@,
                        user_id as int,
                    )
                    &&& final(bus)@.channel(user_id as int) == Some(pre_channel.subscribe())
                    &&& forall|v: int|
                        v != user_id as int ==> #[trigger] final(bus)@.channel(v) == old(bus)@.channel(v)
                }),
            },
    {
        let mut session = StreamSession { user_id, receiver: 0, state: SessionState::Authenticating };
        match db.stream_authenticate(user_id, api_key) {
            Ok(()) => {},
            Err(e) => {
                session.state = SessionState::Closed;
                return Err(e);
            },
        }
        session.state = SessionState::BacklogReplay;
        session.receiver = bus.subscribe(user_id);
        let backlog = db.backlog(user_id);
        Ok((session, backlog))
    }

    /// The backlog has reached the client: the session turns live.
    pub fn backlog_done(&mut self)
        requires
            old(self).state == SessionState::BacklogReplay,
        ensures
            final(self).user_id == old(self).user_id,
            final(self).receiver == old(self).receiver,
            final(self).state == SessionState::Live,
    {
        self.state = SessionState::Live;
    }

    /// One decision of the live tail: forward envelopes, skip lag
    /// reports, treat a closed channel as fatal, and obey shutdown.
    pub fn live_step(&mut self, input: LiveInput) -> (a: LiveAction)
        requires
            old(self).state == SessionState::Live,
        ensures
            final(self).user_id == old(self).user_id,
            final(self).receiver == old(self).receiver,
            match input {
                LiveInput::Envelope(e) => a == LiveAction::Forward(e) && final(self).state
                    == SessionState::Live,
                LiveInput::Lagged => a == LiveAction::Continue && final(self).state
                    == SessionState::Live,
                LiveInput::Closed => a == LiveAction::RevokeAndClose && final(self).state
                    == SessionState::Closed,
                LiveInput::Shutdown => a == LiveAction::CloseQuietly && final(self).state
                    == SessionState::Closed,
            },
    {
        match input {
            LiveInput::Envelope(e) => LiveAction::Forward(e),
            LiveInput::Lagged => LiveAction::Continue,
            LiveInput::Closed => {
                self.state = SessionState::Closed;
                LiveAction::RevokeAndClose
            },
            LiveInput::Shutdown => {
                self.state = SessionState::Closed;
                LiveAction::CloseQuietly
            },
        }
    }

    /// The fatal path of the live tail: the bus channel is gone, so the
    /// user's session token is revoked and the session closes.
    pub fn handle_bus_closed(&mut self, db: &mut Database) -> (a: LiveAction)
        requires
            old(self).state == SessionState::Live,
        ensures
            a == LiveAction::RevokeAndClose,
            final(self).user_id == old(self).user_id,
            final(self).receiver == old(self).receiver,
            final(self).state == SessionState::Closed,
            final(db)@.users == spec_set_api_key(
                old(db)@.users,
                old(self).user_id as int,
                Seq::<char>::empty(),
            ),
            final(db)@.rooms == old(db)@.rooms,
            final(db)@.memberships == old(db)@.memberships,
            final(db)@.messages == old(db)@.messages,
            final(db)@.next_user_id == old(db)@.next_user_id,
            final(db)@.next_room_id == old(db)@.next_room_id,
            old(db)@.wf() ==> final(db)@.wf(),
    {
        let _ = db.logout(self.user_id);
        self.live_step(LiveInput::Closed)
    }

    /// Pulls the next live event off the bus for this session: an event
    /// is handed over; nothing pending is `None`; one lag report is
    /// swallowed and the next event after the gap is handed over, so lag
    /// never ends the stream.
    pub fn next_live(&self, bus: &mut EventBus) -> (r: Option<EventMessage>)
        requires
            old(bus)@.wf(),
            self.state == SessionState::Live,
            old(bus)@.channel(self.user_id as int) matches Some(ch) && self.receiver
                < ch.receivers.len(),
        ensures
            final(bus)@.wf(),
            final(bus)@.capacity == old(bus)@.capacity,
            forall|v: int|
                v != self.user_id as int ==> #[trigger] final(bus)@.channel(v) == old(bus)@.channel(v),
            ({
                let ch = old(bus)@.channel(self.user_id as int)->Some_0;
                let (post1, out1) = ch.recv_step(self.receiver as int);
                match out1 {
                    RecvOutcomeView::Event(e) => r matches Some(ev) && ev@ == e && final(bus)@.channel(self.user_id as int) == Some(post1),
                    RecvOutcomeView::Empty => r is None && final(bus)@.channel(
                        self.user_id as int,
                    ) == Some(post1),
                    RecvOutcomeView::Lagged => ({
                        let (post2, out2) = post1.recv_step(self.receiver as int);
                        match out2 {
                            RecvOutcomeView::Event(e) => r matches Some(ev) && ev@ == e && final(bus)@.channel(self.user_id as int) == Some(post2),
                            RecvOutcomeView::Empty => r is None && final(bus)@.channel(
                                self.user_id as int,
                            ) == Some(post2),
                            RecvOutcomeView::Lagged => false,
                        }
                    }),
                }
            }),
    {
        match bus.recv(self.user_id, self.receiver) {
            RecvOutcome::Event(e) => Some(e),
            RecvOutcome::Empty => None,
            RecvOutcome::Lagged => match bus.recv(self.user_id, self.receiver) {
                RecvOutcome::Event(e) => Some(e),
                RecvOutcome::Empty => None,
                RecvOutcome::Lagged => {
                    proof {
                        assert(false);
                    }
                    None
                },
            },
        }
    }
}

/// Backlog shape: the backlog lists every visible room first, then
/// every visible message in date order; so every room event comes no
/// later than any message event, and the backlog as a whole precedes
/// the live tail, which only ever yields events the bus accepted after
/// the subscription.
pub proof fn lemma_backlog_shape(db: DatabaseView, user: int)
    ensures
        ({
            let rooms = spec_rooms_of(db.memberships, db.rooms, user);
            let messages = spec_sort_by_date(
                spec_visible_messages(db.messages, db.memberships, user),
            );
            let backlog = spec_backlog(db, user);
            &&& backlog.len() == rooms.len() + messages.len()
            &&& forall|i: int|
                0 <= i < rooms.len() ==> backlog[i] == EventView::Room(rooms[i])
            &&& forall|j: int|
                rooms.len() <= j < backlog.len() ==> backlog[j] == EventView::Message(
                    messages[j - rooms.len()],
                )
        }),
{
}

/// Backlog completeness: the replayed messages are exactly the stored
/// messages of rooms the user is a member of, kept in stored order.
pub proof fn lemma_visible_messages_complete(
    messages: Seq<MessageView>,
    memberships: Seq<(int, int)>,
    user: int,
)
    ensures
        forall|k: int|
            0 <= k < messages.len() && memberships.contains(
                (user, (#[trigger] messages[k]).room_id),
            ) ==> spec_visible_messages(messages, memberships, user).contains(messages[k]),
        forall|k: int|
            0 <= k < spec_visible_messages(messages, memberships, user).len() ==> messages.contains(
                #[trigger] spec_visible_messages(messages, memberships, user)[k],
            ) && memberships.contains(
                (user, spec_visible_messages(messages, memberships, user)[k].room_id),
            ),
    decreases messages.len(),
{
    if messages.len() > 0 {
        let prefix = messages.drop_last();
        lemma_visible_messages_complete(prefix, memberships, user);
        let visible_prefix = spec_visible_messages(prefix, memberships, user);
        let visible = spec_visible_messages(messages, memberships, user);
        assert forall|k: int|
            0 <= k < messages.len() && memberships.contains(
                (user, (#[trigger] messages[k]).room_id),
            ) implies visible.contains(messages[k]) by {
            if k < messages.len() - 1 {
                assert(prefix[k] == messages[k]);
                assert(visible_prefix.contains(messages[k]));
                let j = choose|j: int|
                    0 <= j < visible_prefix.len() && visible_prefix[j] == messages[k];
                assert(visible[j] == messages[k]);
            } else {
                assert(messages[k] == messages.last());
                assert(visible[visible_prefix.len() as int] == messages.last());
            }
        }
        assert forall|k: int| 0 <= k < visible.len() implies messages.contains(
            #[trigger] visible[k],
        ) && memberships.contains((user, visible[k].room_id)) by {
            if k < visible_prefix.len() {
                assert(visible[k] == visible_prefix[k]);
                assert(prefix.contains(visible_prefix[k]));
                let j = choose|j: int| 0 <= j < prefix.len() && prefix[j] == visible_prefix[k];
                assert(messages[j] == visible_prefix[k]);
            } else {
                assert(visible[k] == messages.last());
                assert(messages[messages.len() - 1] == messages.last());
            }
        }
    }
}

/// Backlog order: the message part of the backlog is chronological —
/// dates never decrease along it — and it carries exactly the visible
/// messages, each as often as the store holds it.
pub proof fn lemma_backlog_chronological(db: DatabaseView, user: int)
    ensures
        ({
            let visible = spec_visible_messages(db.messages, db.memberships, user);
            let replayed = spec_sort_by_date(visible);
            &&& spec_sorted_by_date(replayed)
            &&& forall|m: MessageView|
                spec_count_message(replayed, m) == spec_count_message(visible, m)
        }),
{
    let visible = spec_visible_messages(db.messages, db.memberships, user);
    lemma_sort_by_date_sorted(visible);
    assert forall|m: MessageView|
        spec_count_message(spec_sort_by_date(visible), m) == spec_count_message(
        visible,
        m,
    ) by {
        lemma_sort_by_date_count(visible, m);
    }
}

} // verus!
