use multiplayer_game_demo_rust::message::{DecodeError, Message};
use multiplayer_game_demo_rust::{Color, Player, Point};

fn color(r: u8, g: u8, b: u8) -> Color {
    Color { r, g, b }
}

fn at_rest(id: u64, x: i32, y: i32, c: Color) -> Player {
    Player { id, pos: Point { x, y }, velocity: Point { x: 0, y: 0 }, color: c }
}

#[test]
fn serialize_ping_and_handshake() {
    assert_eq!(Message::Ping.serialize(), "PING");
    assert_eq!(Message::Handshake.serialize(), "HANDSHAKE");
}

#[test]
fn serialize_ack_uses_upper_case_hex() {
    assert_eq!(Message::Ack(1, color(255, 0, 10)).serialize(), "ACK:1:#FF000A");
    assert_eq!(Message::Ack(42, color(0, 171, 205)).serialize(), "ACK:42:#00ABCD");
}

#[test]
fn serialize_leave() {
    assert_eq!(Message::Leave(7).serialize(), "LEAVE:7");
    assert_eq!(Message::Leave(u64::MAX).serialize(), "LEAVE:18446744073709551615");
}

#[test]
fn serialize_replicate_drops_velocity() {
    let mut p = at_rest(3, -5, 1188, color(1, 2, 3));
    p.velocity = Point { x: 10, y: -10 };
    assert_eq!(Message::Replicate(p).serialize(), "REPL:3:-5,1188,#010203");
}

#[test]
fn serialize_position() {
    assert_eq!(Message::Position(2, Point { x: 10, y: -20 }).serialize(), "POS:2:10,-20");
    assert_eq!(
        Message::Position(9, Point { x: i32::MIN, y: i32::MAX }).serialize(),
        "POS:9:-2147483648,2147483647"
    );
}

#[test]
fn round_trip_every_variant() {
    let messages = vec![
        Message::Ping,
        Message::Handshake,
        Message::Ack(1, color(18, 52, 86)),
        Message::Leave(0),
        Message::Leave(u64::MAX),
        Message::Replicate(at_rest(5, -1188, 0, color(255, 254, 0))),
        Message::Position(6, Point { x: 0, y: -1 }),
        Message::Position(u64::MAX, Point { x: i32::MIN, y: i32::MAX }),
    ];
    for m in messages {
        let text = m.serialize();
        assert_eq!(Message::deserialize(&text), Ok(m), "{}", text);
    }
}

#[test]
fn deserialize_accepts_lower_case_hex() {
    assert_eq!(Message::deserialize("ACK:3:#abcdef"), Ok(Message::Ack(3, color(0xAB, 0xCD, 0xEF))));
}

#[test]
fn deserialize_replicate_sets_velocity_to_rest() {
    assert_eq!(
        Message::deserialize("REPL:4:12,-34,#000000"),
        Ok(Message::Replicate(at_rest(4, 12, -34, color(0, 0, 0))))
    );
}

#[test]
fn deserialize_rejects_unknown_tags() {
    assert_eq!(Message::deserialize("HELLO"), Err(DecodeError::UnknownMessage));
    assert_eq!(Message::deserialize(""), Err(DecodeError::UnknownMessage));
    assert_eq!(Message::deserialize("ping"), Err(DecodeError::UnknownMessage));
}

#[test]
fn deserialize_rejects_field_count_mismatch() {
    assert_eq!(Message::deserialize("PING:1"), Err(DecodeError::UnknownMessage));
    assert_eq!(Message::deserialize("HANDSHAKE:"), Err(DecodeError::UnknownMessage));
    assert_eq!(Message::deserialize("ACK:1"), Err(DecodeError::UnknownMessage));
    assert_eq!(Message::deserialize("LEAVE:1:2"), Err(DecodeError::UnknownMessage));
    assert_eq!(Message::deserialize("REPL:1:2,3,#000000:4"), Err(DecodeError::UnknownMessage));
    assert_eq!(Message::deserialize("POS:1"), Err(DecodeError::UnknownMessage));
}

#[test]
fn deserialize_rejects_non_numeric_id() {
    assert_eq!(Message::deserialize("LEAVE:x"), Err(DecodeError::InvalidPlayerId));
    assert_eq!(Message::deserialize("LEAVE:"), Err(DecodeError::InvalidPlayerId));
    assert_eq!(Message::deserialize("LEAVE:-1"), Err(DecodeError::InvalidPlayerId));
    assert_eq!(Message::deserialize("ACK:1a:#000000"), Err(DecodeError::InvalidPlayerId));
    assert_eq!(Message::deserialize("POS::1,2"), Err(DecodeError::InvalidPlayerId));
    assert_eq!(
        Message::deserialize("LEAVE:18446744073709551616"),
        Err(DecodeError::InvalidPlayerId)
    );
}

#[test]
fn deserialize_rejects_bad_coordinates() {
    assert_eq!(Message::deserialize("POS:1:a,2"), Err(DecodeError::InvalidX));
    assert_eq!(Message::deserialize("POS:1:1,"), Err(DecodeError::InvalidY));
    assert_eq!(Message::deserialize("POS:1:2147483648,0"), Err(DecodeError::InvalidX));
    assert_eq!(Message::deserialize("POS:1:-2147483649,0"), Err(DecodeError::InvalidX));
    assert_eq!(Message::deserialize("POS:1:-,0"), Err(DecodeError::InvalidX));
    assert_eq!(Message::deserialize("REPL:1:0,y,#000000"), Err(DecodeError::InvalidY));
}

#[test]
fn deserialize_rejects_bad_compound_fields() {
    assert_eq!(Message::deserialize("POS:1:1,2,3"), Err(DecodeError::InvalidPositionFormat));
    assert_eq!(Message::deserialize("POS:1:12"), Err(DecodeError::InvalidPositionFormat));
    assert_eq!(Message::deserialize("REPL:1:1,2"), Err(DecodeError::InvalidFormat));
}

#[test]
fn deserialize_rejects_bad_colors() {
    assert_eq!(Message::deserialize("ACK:1:FF0000"), Err(DecodeError::InvalidColor));
    assert_eq!(Message::deserialize("ACK:1:#FF000"), Err(DecodeError::InvalidColor));
    assert_eq!(Message::deserialize("ACK:1:#FF00000"), Err(DecodeError::InvalidColor));
    assert_eq!(Message::deserialize("ACK:1:#GG0000"), Err(DecodeError::InvalidColor));
    assert_eq!(Message::deserialize("ACK:1:##FF0000"), Err(DecodeError::InvalidColor));
    assert_eq!(Message::deserialize("ACK:1:#+F+F+F"), Err(DecodeError::InvalidColor));
    assert_eq!(Message::deserialize("REPL:1:0,0,#12345"), Err(DecodeError::InvalidColor));
}

#[test]
fn decode_errors_have_descriptions() {
    assert_eq!(DecodeError::InvalidPlayerId.description(), "Invalid PlayerID");
    assert_eq!(DecodeError::UnknownMessage.description(), "Unknown or invalid message format");
    assert_eq!(DecodeError::InvalidFormat.description(), "Invalid format");
    assert_eq!(DecodeError::InvalidPositionFormat.description(), "Invalid position format");
    assert_eq!(DecodeError::InvalidX.description(), "Invalid x coordinate");
    assert_eq!(DecodeError::InvalidY.description(), "Invalid y coordinate");
    assert_eq!(DecodeError::InvalidColor.description(), "Invalid hex color format");
}

#[test]
fn rejected_texts_carry_a_cause() {
    for text in ["PING:1", "ACK:1", "LEAVE:1:2", "POS:1:2,3,4", "REPL:1:2,3", "HELLO"] {
        match Message::deserialize(text) {
            Err(e) => assert!(!e.description().is_empty(), "{}", text),
            Ok(m) => panic!("{} decoded to {:?}", text, m),
        }
    }
}

#[test]
fn deserialize_rejects_non_ascii_without_panic() {
    assert_eq!(Message::deserialize("PÏNG"), Err(DecodeError::UnknownMessage));
    assert_eq!(Message::deserialize("LEAVE:１"), Err(DecodeError::InvalidPlayerId));
}
