//! The wire shape of events: rendering rooms and messages to the JSON
//! text the stream carries, and reading an event back out of a decoded
//! JSON value.
//!
//! Decoding is split in two. The JSON library hands over the raw fields
//! of a decoded value; turning those fields into an event is the
//! library's own logic, verified in [`EventMessage::from_fields`].

use vstd::prelude::*;
use crate::datetime::chrono_accepts_timestamp;
use crate::datetime::timestamp_in_range;
use crate::events::EventMessage;
use crate::events::EventMessageId;
use crate::events::EventView;
use crate::events::Message;
use crate::events::MessageView;
use crate::events::Room;
use crate::events::RoomView;
use crate::numfmt::dec_str;
use crate::numfmt::i64_to_string;
use crate::numfmt::int_str;
use crate::numfmt::u64_to_string;

verus! {

/// The wire text of a room event.
pub open spec fn spec_serialize_room(room: RoomView) -> Seq<char> {
    "{ \"objectId\": "@ + dec_str(EventMessageId::Room.as_u8_spec() as nat) + ", \"id\": "@
        + int_str(room.id) + ", \"name\": \""@ + room.name + "\" }"@
}

/// The wire text of a message event.
pub open spec fn spec_serialize_message(message: MessageView) -> Seq<char> {
    "{ \"objectId\": "@ + dec_str(EventMessageId::Message.as_u8_spec() as nat) + ", \"date\": "@
        + int_str(message.date) + ", \"room_id\": "@ + int_str(message.room_id)
        + ", \"user_id\": "@ + int_str(message.user_id) + ", \"text\": \""@ + message.text
        + "\" }"@
}

/// The wire text of an envelope, by its variant.
pub open spec fn spec_serialize_event(event: EventView) -> Seq<char> {
    match event {
        EventView::Room(room) => spec_serialize_room(room),
        EventView::Message(message) => spec_serialize_message(message),
    }
}

impl Room {
    /// Renders the room in its wire shape.
    pub fn serialize(&self) -> (r: String)
        ensures
            r@ == spec_serialize_room(self@),
    {
        let mut out = String::from_str("{ \"objectId\": ");
        let tag = u64_to_string(EventMessageId::Room.as_u8() as u64);
        out.append(tag.as_str());
        out.append(", \"id\": ");
        let id = i64_to_string(self.id);
        out.append(id.as_str());
        out.append(", \"name\": \"");
        out.append(self.name.as_str());
        out.append("\" }");
        proof {
            assert(out@ =~= spec_serialize_room(self@));
        }
        out
    }
}

impl Message {
    /// Renders the message in its wire shape.
    pub fn serialize_wire(&self) -> (r: String)
        ensures
            r@ == spec_serialize_message(self@),
    {
        let mut out = String::from_str("{ \"objectId\": ");
        let tag = u64_to_string(EventMessageId::Message.as_u8() as u64);
        out.append(tag.as_str());
        out.append(", \"date\": ");
        let date = i64_to_string(self.date);
        out.append(date.as_str());
        out.append(", \"room_id\": ");
        let room_id = i64_to_string(self.room_id);
        out.append(room_id.as_str());
        out.append(", \"user_id\": ");
        let user_id = i64_to_string(self.user_id);
        out.append(user_id.as_str());
        out.append(", \"text\": \"");
        out.append(self.text.as_str());
        out.append("\" }");
        proof {
            assert(out@ =~= spec_serialize_message(self@));
        }
        out
    }
}

impl EventMessage {
    /// Renders the envelope in its wire shape, by its variant.
    pub fn serialize(&self) -> (r: String)
        ensures
            r@ == spec_serialize_event(self@),
    {
        match self {
            EventMessage::Room(room) => room.serialize(),
            EventMessage::Message(message) => message.serialize_wire(),
        }
    }
}

/// The raw fields of one decoded JSON object, as the event decoder reads
/// them: each is present or not, nothing more is assumed of the value
/// they came from.
pub struct EventFields {
    pub object_id: Option<u8>,
    pub id: Option<i64>,
    pub name: Option<String>,
    pub date: Option<i64>,
    pub room_id: Option<i64>,
    pub user_id: Option<i64>,
    pub text: Option<String>,
}

/// Mathematical model of [`EventFields`].
pub struct EventFieldsView {
    pub object_id: Option<u8>,
    pub id: Option<i64>,
    pub name: Option<Seq<char>>,
    pub date: Option<i64>,
    pub room_id: Option<i64>,
    pub user_id: Option<i64>,
    pub text: Option<Seq<char>>,
}

impl View for EventFields {
    type V = EventFieldsView;

    open spec fn view(&self) -> EventFieldsView {
        EventFieldsView {
            object_id: self.object_id,
            id: self.id,
            name: match self.name {
                Some(ref name) => Some(name@),
                None => None,
            },
            date: self.date,
            room_id: self.room_id,
            user_id: self.user_id,
            text: match self.text {
                Some(ref text) => Some(text@),
                None => None,
            },
        }
    }
}

/// What [`EventMessage::from_fields`] returns: field checks in the order
/// the decoder makes them, each missing or invalid field with its own
/// report.
pub open spec fn spec_event_from_fields(f: EventFieldsView) -> Result<EventView, Seq<char>> {
    match f.object_id {
        None => Err("EventMessage Object ID Not Found"@),
        Some(tag) => match EventMessageId::parse_spec(tag) {
            None => Err("EventMessage Object ID Not Supported"@),
            Some(EventMessageId::Room) => match f.id {
                None => Err("EventMessage Room.id Not found"@),
                Some(id) => match f.name {
                    None => Err("EventMessage Room.name Not found"@),
                    Some(name) => Ok(EventView::Room(RoomView { id: id as int, name })),
                },
            },
            Some(EventMessageId::Message) => match f.date {
                None => Err("EventMessage Message.date Not found"@),
                Some(date) => if !timestamp_in_range(date as int) {
                    Err("EventMessage Message.date Error parsing date (None)"@)
                } else {
                    match f.room_id {
                        None => Err("EventMessage Message.room_id Not found"@),
                        Some(room_id) => match f.user_id {
                            None => Err("EventMessage Message.user_id Not found"@),
                            Some(user_id) => match f.text {
                                None => Err("EventMessage Message.text Not found"@),
                                Some(text) => Ok(
                                    EventView::Message(
                                        MessageView {
                                            date: date as int,
                                            room_id: room_id as int,
                                            user_id: user_id as int,
                                            text,
                                        },
                                    ),
                                ),
                            },
                        },
                    }
                },
            },
        },
    }
}

/// A decoding result with both sides replaced by their models.
pub open spec fn parse_result_view(r: Result<EventMessage, &'static str>) -> Result<
    EventView,
    Seq<char>,
> {
    match r {
        Ok(event) => Ok(event@),
        Err(report) => Err(report@),
    }
}

impl EventMessage {
    /// Turns the raw fields of a decoded JSON object into an event, or
    /// reports the first missing or invalid field.
    pub fn from_fields(fields: EventFields) -> (r: Result<EventMessage, &'static str>)
        ensures
            parse_result_view(r) == spec_event_from_fields(fields@),
    {
        let tag = match fields.object_id {
            None => {
                return Err("EventMessage Object ID Not Found");
            },
            Some(tag) => tag,
        };
        match EventMessageId::parse(tag) {
            None => Err("EventMessage Object ID Not Supported"),
            Some(EventMessageId::Room) => {
                let id = match fields.id {
                    None => {
                        return Err("EventMessage Room.id Not found");
                    },
                    Some(id) => id,
                };
                let name = match fields.name {
                    None => {
                        return Err("EventMessage Room.name Not found");
                    },
                    Some(name) => name,
                };
                Ok(EventMessage::Room(Room { id, name }))
            },
            Some(EventMessageId::Message) => {
                let date = match fields.date {
                    None => {
                        return Err("EventMessage Message.date Not found");
                    },
                    Some(date) => date,
                };
                if !chrono_accepts_timestamp(date) {
                    return Err("EventMessage Message.date Error parsing date (None)");
                }
                let room_id = match fields.room_id {
                    None => {
                        return Err("EventMessage Message.room_id Not found");
                    },
                    Some(room_id) => room_id,
                };
                let user_id = match fields.user_id {
                    None => {
                        return Err("EventMessage Message.user_id Not found");
                    },
                    Some(user_id) => user_id,
                };
                let text = match fields.text {
                    None => {
                        return Err("EventMessage Message.text Not found");
                    },
                    Some(text) => text,
                };
                Ok(EventMessage::Message(Message { date, room_id, user_id, text }))
            },
        }
    }
}

/// The fields the wire shape of an event carries, read back as a decoder
/// would find them.
pub open spec fn spec_fields_of(event: EventView) -> EventFieldsView {
    match event {
        EventView::Room(room) => EventFieldsView {
            object_id: Some(EventMessageId::Room.as_u8_spec()),
            id: Some(room.id as i64),
            name: Some(room.name),
            date: None,
            room_id: None,
            user_id: None,
            text: None,
        },
        EventView::Message(message) => EventFieldsView {
            object_id: Some(EventMessageId::Message.as_u8_spec()),
            id: None,
            name: None,
            date: Some(message.date as i64),
            room_id: Some(message.room_id as i64),
            user_id: Some(message.user_id as i64),
            text: Some(message.text),
        },
    }
}

/// Decode inverts encode: the fields carried by a well-formed event's
/// wire shape decode back to exactly that event.
pub proof fn lemma_event_fields_round_trip(event: EventView)
    requires
        event.wf(),
    ensures
        spec_event_from_fields(spec_fields_of(event)) == Ok::<EventView, Seq<char>>(event),
{
}

#[verifier::external_type_specification]
#[verifier::external_body]
pub struct ExJsonValue(json::JsonValue);

/// Relies on json::JsonValue's indexing by key: a member lookup on an
/// object, the Null value on a missing key or a non-object.
#[verifier::external_body]
fn json_field<'a>(value: &'a json::JsonValue, key: &str) -> &'a json::JsonValue {
    &value[key]
}

/// Relies on json::JsonValue::as_u8: the number held by the value when
/// it is one and fits in a byte.
#[verifier::external_body]
fn json_as_u8(value: &json::JsonValue) -> Option<u8> {
    value.as_u8()
}

#[verifier::external_type_specification]
#[verifier::external_body]
pub struct ExJsonNumber(json::number::Number);

/// Relies on json::JsonValue::as_number: the number held by the value
/// when it is one.
#[verifier::external_body]
fn json_as_number(value: &json::JsonValue) -> Option<json::number::Number> {
    value.as_number()
}

/// Relies on json::number::Number::as_parts: the sign, the integer
/// mantissa and the decimal exponent the number is stored as.
#[verifier::external_body]
fn json_number_parts(number: json::number::Number) -> (bool, u64, i16) {
    number.as_parts()
}

/// The signed 64-bit value a decoded number's parts denote: an integer
/// (zero exponent) within the type's range, converted exactly. The
/// library's own conversion is not called here: it mishandles
/// magnitudes at and beyond the type's bounds.
pub open spec fn spec_i64_from_parts(positive: bool, mantissa: u64, exponent: i16) -> Option<
    i64,
> {
    if exponent != 0 {
        None
    } else if positive {
        if mantissa <= i64::MAX as u64 {
            Some(mantissa as i64)
        } else {
            None
        }
    } else {
        if mantissa <= 9223372036854775808u64 {
            Some((-(mantissa as int)) as i64)
        } else {
            None
        }
    }
}

/// Converts a decoded number's parts to a signed 64-bit value.
fn i64_from_parts(positive: bool, mantissa: u64, exponent: i16) -> (r: Option<i64>)
    ensures
        r == spec_i64_from_parts(positive, mantissa, exponent),
{
    if exponent != 0 {
        return None;
    }
    if positive {
        if mantissa <= 9223372036854775807u64 {
            Some(mantissa as i64)
        } else {
            None
        }
    } else {
        if mantissa == 9223372036854775808u64 {
            Some(i64::MIN)
        } else if mantissa < 9223372036854775808u64 {
            Some(-(mantissa as i64))
        } else {
            None
        }
    }
}

/// The number held by the value, as a signed 64-bit integer when its
/// parts denote one exactly.
fn json_as_i64(value: &json::JsonValue) -> Option<i64> {
    match json_as_number(value) {
        Some(number) => {
            let (positive, mantissa, exponent) = json_number_parts(number);
            i64_from_parts(positive, mantissa, exponent)
        },
        None => None,
    }
}

/// Relies on json::JsonValue::as_str: the text held by the value when it
/// is a string, copied out.
#[verifier::external_body]
fn json_as_string(value: &json::JsonValue) -> Option<String> {
    value.as_str().map(|s| s.to_string())
}

impl EventMessage {
    /// Reads an event out of a decoded JSON value. Whatever fields the
    /// JSON library hands over, the outcome is their verified decoding.
    pub fn parse(message: &json::JsonValue) -> (r: Result<EventMessage, &'static str>)
        ensures
            exists|f: EventFieldsView| parse_result_view(r) == spec_event_from_fields(f),
    {
        let fields = EventFields {
            object_id: json_as_u8(json_field(message, "objectId")),
            id: json_as_i64(json_field(message, "id")),
            name: json_as_string(json_field(message, "name")),
            date: json_as_i64(json_field(message, "date")),
            room_id: json_as_i64(json_field(message, "room_id")),
            user_id: json_as_i64(json_field(message, "user_id")),
            text: json_as_string(json_field(message, "text")),
        };
        let ghost fields_view = fields@;
        let r = Self::from_fields(fields);
        proof {
            assert(parse_result_view(r) == spec_event_from_fields(fields_view));
        }
        r
    }
}

/// The form fields of a login request, in order.
pub fn serialize_login(username: String, password: String) -> (r: Vec<(&'static str, String)>)
    ensures
        r@.len() == 2,
        r@[0].0@ == "username"@ && r@[0].1@ == username@,
        r@[1].0@ == "password"@ && r@[1].1@ == password@,
{
    let mut out: Vec<(&'static str, String)> = Vec::new();
    out.push(("username", username));
    out.push(("password", password));
    out
}

/// The form fields of a message-creation request, in order.
pub fn serialize_message(room: i64, user_id: i64, api_key: String, text: String) -> (r: Vec<
    (&'static str, String),
>)
    ensures
        r@.len() == 4,
        r@[0].0@ == "room_id"@ && r@[0].1@ == int_str(room as int),
        r@[1].0@ == "user_id"@ && r@[1].1@ == int_str(user_id as int),
        r@[2].0@ == "api_key"@ && r@[2].1@ == api_key@,
        r@[3].0@ == "text"@ && r@[3].1@ == text@,
{
    let mut out: Vec<(&'static str, String)> = Vec::new();
    out.push(("room_id", i64_to_string(room)));
    out.push(("user_id", i64_to_string(user_id)));
    out.push(("api_key", api_key));
    out.push(("text", text));
    out
}

} // verus!
