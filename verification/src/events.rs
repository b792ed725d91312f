//! The domain values carried over the stream: rooms, messages, and the
//! tagged envelope that the bus and the wire both transport.

use vstd::prelude::*;
use crate::datetime::timestamp_in_range;

verus! {

/// A chat room: identifier and display name.
#[derive(Debug, Clone, PartialEq, Eq)]
pub struct Room {
    pub id: i64,
    pub name: String,
}

/// Mathematical model of a [`Room`].
pub struct RoomView {
    pub id: int,
    pub name: Seq<char>,
}

impl View for Room {
    type V = RoomView;

    open spec fn view(&self) -> RoomView {
        RoomView { id: self.id as int, name: self.name@ }
    }
}

/// A chat message. `date` is the creation time as a unix timestamp in
/// seconds; messages are immutable once created.
#[derive(Debug, Clone, PartialEq, Eq)]
pub struct Message {
    pub date: i64,
    pub room_id: i64,
    pub user_id: i64,
    pub text: String,
}

/// Mathematical model of a [`Message`].
pub struct MessageView {
    pub date: int,
    pub room_id: int,
    pub user_id: int,
    pub text: Seq<char>,
}

impl View for Message {
    type V = MessageView;

    open spec fn view(&self) -> MessageView {
        MessageView {
            date: self.date as int,
            room_id: self.room_id as int,
            user_id: self.user_id as int,
            text: self.text@,
        }
    }
}

/// A message with its date flattened to the integer form in which it is
/// stored and transmitted.
#[derive(Debug, Clone, PartialEq, Eq)]
pub struct MessageSerialized {
    pub date: i64,
    pub room_id: i64,
    pub user_id: i64,
    pub text: String,
}

impl View for MessageSerialized {
    type V = MessageView;

    open spec fn view(&self) -> MessageView {
        MessageView {
            date: self.date as int,
            room_id: self.room_id as int,
            user_id: self.user_id as int,
            text: self.text@,
        }
    }
}

impl Message {
    /// Flattens the message into its stored form, field for field.
    pub fn serialize(&self) -> (r: MessageSerialized)
        ensures
            r@ == self@,
    {
        MessageSerialized {
            date: self.date,
            room_id: self.room_id,
            user_id: self.user_id,
            text: self.text.clone(),
        }
    }
}

impl Room {
    /// A field-for-field copy of the room.
    pub fn duplicate(&self) -> (r: Room)
        ensures
            r@ == self@,
    {
        Room { id: self.id, name: self.name.clone() }
    }
}

impl Message {
    /// A field-for-field copy of the message.
    pub fn duplicate(&self) -> (r: Message)
        ensures
            r@ == self@,
    {
        Message {
            date: self.date,
            room_id: self.room_id,
            user_id: self.user_id,
            text: self.text.clone(),
        }
    }
}

/// The unit transmitted over the stream and through the bus: either a
/// newly visible room or a newly created message.
#[derive(Debug, Clone, PartialEq, Eq)]
pub enum EventMessage {
    Room(Room),
    Message(Message),
}

/// Mathematical model of an [`EventMessage`].
pub enum EventView {
    Room(RoomView),
    Message(MessageView),
}

impl View for EventMessage {
    type V = EventView;

    open spec fn view(&self) -> EventView {
        match self {
            EventMessage::Room(room) => EventView::Room(room@),
            EventMessage::Message(message) => EventView::Message(message@),
        }
    }
}

impl RoomView {
    /// The identifier fits the machine type that carries it.
    pub open spec fn wf(self) -> bool {
        i64::MIN <= self.id <= i64::MAX
    }
}

impl MessageView {
    /// The integer fields fit their machine types and the date is one the
    /// calendar can represent.
    pub open spec fn wf(self) -> bool {
        &&& i64::MIN <= self.date <= i64::MAX
        &&& i64::MIN <= self.room_id <= i64::MAX
        &&& i64::MIN <= self.user_id <= i64::MAX
        &&& timestamp_in_range(self.date)
    }
}

impl EventView {
    /// Well-formedness of whichever payload the envelope carries.
    pub open spec fn wf(self) -> bool {
        match self {
            EventView::Room(room) => room.wf(),
            EventView::Message(message) => message.wf(),
        }
    }
}

impl EventMessage {
    /// A field-for-field copy of the envelope.
    pub fn duplicate(&self) -> (r: EventMessage)
        ensures
            r@ == self@,
    {
        match self {
            EventMessage::Room(room) => EventMessage::Room(room.duplicate()),
            EventMessage::Message(message) => EventMessage::Message(message.duplicate()),
        }
    }
}

/// The wire discriminant that selects between the two envelope shapes.
#[derive(Debug, Clone, Copy, PartialEq, Eq)]
pub enum EventMessageId {
    Room,
    Message,
}

impl EventMessageId {
    /// What [`EventMessageId::parse`] returns.
    pub open spec fn parse_spec(value: u8) -> Option<EventMessageId> {
        match value {
            0u8 => Some(EventMessageId::Room),
            1u8 => Some(EventMessageId::Message),
            _ => None,
        }
    }

    /// What [`EventMessageId::as_u8`] returns.
    pub open spec fn as_u8_spec(self) -> u8 {
        match self {
            EventMessageId::Room => 0u8,
            EventMessageId::Message => 1u8,
        }
    }

    /// Reads a discriminant from its wire value; only 0 and 1 are assigned.
    pub fn parse(value: u8) -> (r: Option<EventMessageId>)
        ensures
            r == Self::parse_spec(value),
    {
        match value {
            0 => Some(EventMessageId::Room),
            1 => Some(EventMessageId::Message),
            _ => None,
        }
    }

    /// The wire value of the discriminant.
    pub fn as_u8(self) -> (r: u8)
        ensures
            r == self.as_u8_spec(),
    {
        match self {
            EventMessageId::Room => 0,
            EventMessageId::Message => 1,
        }
    }
}

/// Discriminant round trip: every assigned wire value parses back to the
/// discriminant that produced it.
pub proof fn lemma_event_message_id_round_trip(id: EventMessageId)
    ensures
        EventMessageId::parse_spec(id.as_u8_spec()) == Some(id),
{
}

} // verus!
