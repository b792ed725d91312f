use chat_core::events::{EventMessage, EventMessageId, Message, Room};
use chat_core::wire::{serialize_login, serialize_message, EventFields};

#[test]
fn room_serializes_to_its_wire_shape() {
    let room = Room { id: 1, name: String::from("General") };
    assert_eq!(room.serialize().as_str(), "{ \"objectId\": 0, \"id\": 1, \"name\": \"General\" }");
}

#[test]
fn message_serializes_to_its_wire_shape() {
    let message = Message {
        date: 1700000000,
        room_id: 1,
        user_id: 2,
        text: String::from("hi"),
    };
    assert_eq!(
        message.serialize_wire().as_str(),
        "{ \"objectId\": 1, \"date\": 1700000000, \"room_id\": 1, \"user_id\": 2, \"text\": \"hi\" }"
    );
}

#[test]
fn envelope_serializes_by_variant() {
    let room = Room { id: 3, name: String::from("x") };
    let as_event = EventMessage::Room(room.clone());
    assert_eq!(as_event.serialize(), room.serialize());
}

#[test]
fn wire_round_trip_through_the_json_library() {
    let room = Room { id: 1, name: String::from("General") };
    let value = json::parse(room.serialize().as_str()).unwrap();
    assert_eq!(EventMessage::parse(&value), Ok(EventMessage::Room(room)));

    let message = Message {
        date: 1700000000,
        room_id: 1,
        user_id: 2,
        text: String::from("hi"),
    };
    let value = json::parse(message.serialize_wire().as_str()).unwrap();
    assert_eq!(EventMessage::parse(&value), Ok(EventMessage::Message(message)));
}

#[test]
fn parse_reports_each_missing_field() {
    let cases = [
        ("{}", "EventMessage Object ID Not Found"),
        ("{ \"objectId\": 7 }", "EventMessage Object ID Not Supported"),
        ("{ \"objectId\": 900 }", "EventMessage Object ID Not Found"),
        ("{ \"objectId\": 0 }", "EventMessage Room.id Not found"),
        ("{ \"objectId\": 0, \"id\": 4 }", "EventMessage Room.name Not found"),
        ("{ \"objectId\": 1 }", "EventMessage Message.date Not found"),
        (
            "{ \"objectId\": 1, \"date\": 9223372036854775806 }",
            "EventMessage Message.date Error parsing date (None)",
        ),
        ("{ \"objectId\": 1, \"date\": 5 }", "EventMessage Message.room_id Not found"),
        (
            "{ \"objectId\": 1, \"date\": 5, \"room_id\": 1 }",
            "EventMessage Message.user_id Not found",
        ),
        (
            "{ \"objectId\": 1, \"date\": 5, \"room_id\": 1, \"user_id\": 2 }",
            "EventMessage Message.text Not found",
        ),
    ];
    for (text, expected) in cases {
        let value = json::parse(text).unwrap();
        assert_eq!(EventMessage::parse(&value), Err(expected), "case {:?}", text);
    }
}

#[test]
fn fields_decode_without_a_json_value() {
    let fields = EventFields {
        object_id: Some(0),
        id: Some(9),
        name: Some(String::from("r")),
        date: None,
        room_id: None,
        user_id: None,
        text: None,
    };
    assert_eq!(
        EventMessage::from_fields(fields),
        Ok(EventMessage::Room(Room { id: 9, name: String::from("r") }))
    );
}

#[test]
fn discriminants_round_trip() {
    assert_eq!(EventMessageId::parse(0), Some(EventMessageId::Room));
    assert_eq!(EventMessageId::parse(1), Some(EventMessageId::Message));
    assert_eq!(EventMessageId::parse(2), None);
    assert_eq!(EventMessageId::Room.as_u8(), 0);
    assert_eq!(EventMessageId::Message.as_u8(), 1);
    assert_eq!(EventMessageId::parse(EventMessageId::Message.as_u8()), Some(EventMessageId::Message));
}

#[test]
fn login_form_lists_its_fields_in_order() {
    let form = serialize_login(String::from("alice"), String::from("pw"));
    assert_eq!(form.len(), 2);
    assert_eq!(form[0], ("username", String::from("alice")));
    assert_eq!(form[1], ("password", String::from("pw")));
}

#[test]
fn message_form_lists_its_fields_in_order() {
    let form = serialize_message(4, -7, String::from("key"), String::from("hello"));
    assert_eq!(form.len(), 4);
    assert_eq!(form[0], ("room_id", String::from("4")));
    assert_eq!(form[1], ("user_id", String::from("-7")));
    assert_eq!(form[2], ("api_key", String::from("key")));
    assert_eq!(form[3], ("text", String::from("hello")));
}

#[test]
fn message_flattens_field_for_field() {
    let message = Message { date: 12, room_id: 3, user_id: 4, text: String::from("t") };
    let flat = message.serialize();
    assert_eq!(flat.date, 12);
    assert_eq!(flat.room_id, 3);
    assert_eq!(flat.user_id, 4);
    assert_eq!(flat.text.as_str(), "t");
}

#[test]
fn extreme_wire_numbers_decode_safely() {
    // The exact lower bound of the type decodes, and is out of the
    // calendar's range.
    let value = json::parse("{ \"objectId\": 1, \"date\": -9223372036854775808 }").unwrap();
    assert_eq!(
        EventMessage::parse(&value),
        Err("EventMessage Message.date Error parsing date (None)")
    );
    // A magnitude beyond the type reads as no number at all.
    let value = json::parse("{ \"objectId\": 1, \"date\": 9223372036854775808 }").unwrap();
    assert_eq!(EventMessage::parse(&value), Err("EventMessage Message.date Not found"));
    let value = json::parse("{ \"objectId\": 1, \"date\": -9223372036854775809 }").unwrap();
    assert_eq!(EventMessage::parse(&value), Err("EventMessage Message.date Not found"));
}
