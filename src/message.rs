//! The messages that client and server exchange, and their text encoding.

use vstd::prelude::*;

use crate::wire::{
    chars_of, color_text, dec_int, dec_nat, free_of, lemma_color_separators, lemma_dec_int_separators,
    lemma_dec_nat, lemma_free_of_concat, lemma_parse_color,
    lemma_parse_coordinate, lemma_parse_id, lemma_split_append, lemma_split_single,
    parse_color, parse_color_chars, parse_coordinate, parse_coordinate_chars, parse_id,
    parse_id_chars, push_color, push_decimal, push_signed, split, split_chars,
};
use crate::{Color, Player, PlayerID, Point};

verus! {

#[derive(PartialEq, Eq, Structural, Clone, Copy, Debug)]
pub enum Message {
    Ping,
    Handshake,
    Ack(PlayerID, Color),
    Leave(PlayerID),
    Replicate(Player),
    Position(PlayerID, Point),
}

/// Why a text is not a message.
#[derive(PartialEq, Eq, Structural, Clone, Copy, Debug)]
pub enum DecodeError {
    InvalidPlayerId,
    InvalidFormat,
    InvalidPositionFormat,
    InvalidX,
    InvalidY,
    InvalidColor,
    UnknownMessage,
}

/// The human-readable cause that goes with each decode error.
pub open spec fn cause_text(e: DecodeError) -> Seq<char> {
    match e {
        DecodeError::InvalidPlayerId => "Invalid PlayerID"@,
        DecodeError::InvalidFormat => "Invalid format"@,
        DecodeError::InvalidPositionFormat => "Invalid position format"@,
        DecodeError::InvalidX => "Invalid x coordinate"@,
        DecodeError::InvalidY => "Invalid y coordinate"@,
        DecodeError::InvalidColor => "Invalid hex color format"@,
        DecodeError::UnknownMessage => "Unknown or invalid message format"@,
    }
}

/// Every decode error carries a cause that is not empty.
pub proof fn lemma_cause_not_empty(e: DecodeError)
    ensures
        cause_text(e).len() > 0,
{
    reveal_strlit("Invalid PlayerID");
    reveal_strlit("Invalid format");
    reveal_strlit("Invalid position format");
    reveal_strlit("Invalid x coordinate");
    reveal_strlit("Invalid y coordinate");
    reveal_strlit("Invalid hex color format");
    reveal_strlit("Unknown or invalid message format");
}

impl DecodeError {
    /// Human-readable cause.
    pub fn description(&self) -> (r: &'static str)
        ensures
            r@ == cause_text(*self),
    {
        match self {
            DecodeError::InvalidPlayerId => "Invalid PlayerID",
            DecodeError::InvalidFormat => "Invalid format",
            DecodeError::InvalidPositionFormat => "Invalid position format",
            DecodeError::InvalidX => "Invalid x coordinate",
            DecodeError::InvalidY => "Invalid y coordinate",
            DecodeError::InvalidColor => "Invalid hex color format",
            DecodeError::UnknownMessage => "Unknown or invalid message format",
        }
    }
}

pub open spec fn name_of(m: Message) -> Seq<char> {
    match m {
        Message::Ping => "PING"@,
        Message::Handshake => "HANDSHAKE"@,
        Message::Ack(_, _) => "ACK"@,
        Message::Leave(_) => "LEAVE"@,
        Message::Replicate(_) => "REPL"@,
        Message::Position(_, _) => "POS"@,
    }
}

/// The text of a message: its name, then its fields after ':' (a compound
/// field joins its parts with ','); coordinates in whole units.
pub open spec fn encode(m: Message) -> Seq<char> {
    match m {
        Message::Ping => name_of(m),
        Message::Handshake => name_of(m),
        Message::Ack(id, color) => name_of(m) + seq![':'] + dec_nat(id as nat) + seq![':']
            + color_text(color),
        Message::Leave(id) => name_of(m) + seq![':'] + dec_nat(id as nat),
        Message::Replicate(p) => name_of(m) + seq![':'] + dec_nat(p.id as nat) + seq![':'] + (
        dec_int(p.pos.x as int) + seq![','] + dec_int(p.pos.y as int) + seq![','] + color_text(
            p.color,
        )),
        Message::Position(id, pos) => name_of(m) + seq![':'] + dec_nat(id as nat) + seq![':'] + (
        dec_int(pos.x as int) + seq![','] + dec_int(pos.y as int)),
    }
}

pub open spec fn decode_ack(parts: Seq<Seq<char>>) -> Result<Message, DecodeError> {
    match parse_id(parts[1]) {
        None => Err(DecodeError::InvalidPlayerId),
        Some(id) => match parse_color(parts[2]) {
            None => Err(DecodeError::InvalidColor),
            Some(c) => Ok(Message::Ack(id, c)),
        },
    }
}

pub open spec fn decode_leave(parts: Seq<Seq<char>>) -> Result<Message, DecodeError> {
    match parse_id(parts[1]) {
        None => Err(DecodeError::InvalidPlayerId),
        Some(id) => Ok(Message::Leave(id)),
    }
}

pub open spec fn decode_replicate(parts: Seq<Seq<char>>) -> Result<Message, DecodeError> {
    let data = split(parts[2], ',');
    match parse_id(parts[1]) {
        None => Err(DecodeError::InvalidPlayerId),
        Some(id) => if data.len() != 3 {
            Err(DecodeError::InvalidFormat)
        } else {
            match (parse_coordinate(data[0]), parse_coordinate(data[1]), parse_color(data[2])) {
                (None, _, _) => Err(DecodeError::InvalidX),
                (Some(_), None, _) => Err(DecodeError::InvalidY),
                (Some(_), Some(_), None) => Err(DecodeError::InvalidColor),
                (Some(x), Some(y), Some(c)) => Ok(
                    Message::Replicate(
                        Player {
                            id,
                            pos: Point { x, y },
                            velocity: Point { x: 0, y: 0 },
                            color: c,
                        },
                    ),
                ),
            }
        },
    }
}

pub open spec fn decode_position(parts: Seq<Seq<char>>) -> Result<Message, DecodeError> {
    let data = split(parts[2], ',');
    match parse_id(parts[1]) {
        None => Err(DecodeError::InvalidPlayerId),
        Some(id) => if data.len() != 2 {
            Err(DecodeError::InvalidPositionFormat)
        } else {
            match (parse_coordinate(data[0]), parse_coordinate(data[1])) {
                (None, _) => Err(DecodeError::InvalidX),
                (Some(_), None) => Err(DecodeError::InvalidY),
                (Some(x), Some(y)) => Ok(Message::Position(id, Point { x, y })),
            }
        },
    }
}

/// The message a text stands for: the name picks the kind, which fixes the
/// number of fields; each field is checked in order.
pub open spec fn decode(s: Seq<char>) -> Result<Message, DecodeError> {
    let parts = split(s, ':');
    let tag = parts[0];
    if tag == "PING"@ && parts.len() == 1 {
        Ok(Message::Ping)
    } else if tag == "HANDSHAKE"@ && parts.len() == 1 {
        Ok(Message::Handshake)
    } else if tag == "ACK"@ && parts.len() == 3 {
        decode_ack(parts)
    } else if tag == "LEAVE"@ && parts.len() == 2 {
        decode_leave(parts)
    } else if tag == "REPL"@ && parts.len() == 3 {
        decode_replicate(parts)
    } else if tag == "POS"@ && parts.len() == 3 {
        decode_position(parts)
    } else {
        Err(DecodeError::UnknownMessage)
    }
}

fn same_text(a: &Vec<char>, b: &str) -> (r: bool)
    ensures
        r == (a@ == b@),
{
    let bc = chars_of(b);
    if a.len() != bc.len() {
        return false;
    }
    let mut i: usize = 0;
    while i < a.len()
        invariant
            0 <= i <= a.len(),
            a@.len() == bc@.len(),
            bc@ == b@,
            forall|j: int| 0 <= j < i ==> a@[j] == bc@[j],
        decreases a.len() - i,
    {
        if a[i] != bc[i] {
            return false;
        }
        i += 1;
    }
    assert(a@ =~= bc@);
    true
}

impl Message {
    fn name(&self) -> (r: &'static str)
        ensures
            r@ == name_of(*self),
    {
        match self {
            Message::Ping => "PING",
            Message::Handshake => "HANDSHAKE",
            Message::Ack(_, _) => "ACK",
            Message::Leave(_) => "LEAVE",
            Message::Replicate(_) => "REPL",
            Message::Position(_, _) => "POS",
        }
    }

    /// The wire text of this message.
    pub fn serialize(&self) -> (r: String)
        ensures
            r@ == encode(*self),
    {
        let mut out = String::new();
        out.append(self.name());
        match self {
            Message::Ping | Message::Handshake => {},
            Message::Ack(id, color) => {
                out.push(':');
                push_decimal(&mut out, *id);
                out.push(':');
                push_color(&mut out, *color);
            },
            Message::Leave(id) => {
                out.push(':');
                push_decimal(&mut out, *id);
            },
            Message::Replicate(p) => {
                out.push(':');
                push_decimal(&mut out, p.id);
                out.push(':');
                push_signed(&mut out, p.pos.x);
                out.push(',');
                push_signed(&mut out, p.pos.y);
                out.push(',');
                push_color(&mut out, p.color);
            },
            Message::Position(id, pos) => {
                out.push(':');
                push_decimal(&mut out, *id);
                out.push(':');
                push_signed(&mut out, pos.x);
                out.push(',');
                push_signed(&mut out, pos.y);
            },
        }
        proof {
            assert(out@ =~= encode(*self));
        }
        out
    }

    /// Reads a message from its wire text; never panics, and fails on any text
    /// that is not exactly one of the message layouts.
    pub fn deserialize(msg: &str) -> (r: Result<Message, DecodeError>)
        ensures
            r == decode(msg@),
    {
        let chars = chars_of(msg);
        let parts = split_chars(&chars, ':');
        let ghost sp = split(msg@, ':');
        assert(parts@.map_values(|v: Vec<char>| v@) == sp);
        proof {
            crate::wire::lemma_split_nonempty(msg@, ':');
        }
        assert(parts@[0]@ == sp[0]);
        let n = parts.len();
        let tag = &parts[0];
        if n == 1 && same_text(tag, "PING") {
            Ok(Message::Ping)
        } else if n == 1 && same_text(tag, "HANDSHAKE") {
            Ok(Message::Handshake)
        } else if n == 3 && same_text(tag, "ACK") {
            assert(parts@[1]@ == sp[1] && parts@[2]@ == sp[2]);
            match parse_id_chars(&parts[1]) {
                None => Err(DecodeError::InvalidPlayerId),
                Some(id) => match parse_color_chars(&parts[2]) {
                    None => Err(DecodeError::InvalidColor),
                    Some(c) => Ok(Message::Ack(id, c)),
                },
            }
        } else if n == 2 && same_text(tag, "LEAVE") {
            assert(parts@[1]@ == sp[1]);
            match parse_id_chars(&parts[1]) {
                None => Err(DecodeError::InvalidPlayerId),
                Some(id) => Ok(Message::Leave(id)),
            }
        } else if n == 3 && same_text(tag, "REPL") {
            assert(parts@[1]@ == sp[1] && parts@[2]@ == sp[2]);
            let id = match parse_id_chars(&parts[1]) {
                None => {
                    return Err(DecodeError::InvalidPlayerId);
                },
                Some(id) => id,
            };
            let data = split_chars(&parts[2], ',');
            let ghost sd = split(sp[2], ',');
            if data.len() != 3 {
                return Err(DecodeError::InvalidFormat);
            }
            assert(data@[0]@ == sd[0] && data@[1]@ == sd[1] && data@[2]@ == sd[2]);
            let x = match parse_coordinate_chars(&data[0]) {
                None => {
                    return Err(DecodeError::InvalidX);
                },
                Some(x) => x,
            };
            let y = match parse_coordinate_chars(&data[1]) {
                None => {
                    return Err(DecodeError::InvalidY);
                },
                Some(y) => y,
            };
            match parse_color_chars(&data[2]) {
                None => Err(DecodeError::InvalidColor),
                Some(c) => Ok(
                    Message::Replicate(
                        Player {
                            id,
                            pos: Point { x, y },
                            velocity: Point { x: 0, y: 0 },
                            color: c,
                        },
                    ),
                ),
            }
        } else if n == 3 && same_text(tag, "POS") {
            assert(parts@[1]@ == sp[1] && parts@[2]@ == sp[2]);
            let id = match parse_id_chars(&parts[1]) {
                None => {
                    return Err(DecodeError::InvalidPlayerId);
                },
                Some(id) => id,
            };
            let data = split_chars(&parts[2], ',');
            let ghost sd = split(sp[2], ',');
            if data.len() != 2 {
                return Err(DecodeError::InvalidPositionFormat);
            }
            assert(data@[0]@ == sd[0] && data@[1]@ == sd[1]);
            let x = match parse_coordinate_chars(&data[0]) {
                None => {
                    return Err(DecodeError::InvalidX);
                },
                Some(x) => x,
            };
            match parse_coordinate_chars(&data[1]) {
                None => Err(DecodeError::InvalidY),
                Some(y) => Ok(Message::Position(id, Point { x, y })),
            }
        } else {
            Err(DecodeError::UnknownMessage)
        }
    }
}

proof fn lemma_tags()
    ensures
        free_of("PING"@, ':'),
        free_of("HANDSHAKE"@, ':'),
        free_of("ACK"@, ':'),
        free_of("LEAVE"@, ':'),
        free_of("REPL"@, ':'),
        free_of("POS"@, ':'),
        "PING"@ != "HANDSHAKE"@,
        "PING"@ != "ACK"@,
        "PING"@ != "LEAVE"@,
        "PING"@ != "REPL"@,
        "PING"@ != "POS"@,
        "HANDSHAKE"@ != "ACK"@,
        "HANDSHAKE"@ != "LEAVE"@,
        "HANDSHAKE"@ != "REPL"@,
        "HANDSHAKE"@ != "POS"@,
        "ACK"@ != "LEAVE"@,
        "ACK"@ != "REPL"@,
        "ACK"@ != "POS"@,
        "LEAVE"@ != "REPL"@,
        "LEAVE"@ != "POS"@,
        "REPL"@ != "POS"@,
{
    reveal_strlit("PING");
    reveal_strlit("HANDSHAKE");
    reveal_strlit("ACK");
    reveal_strlit("LEAVE");
    reveal_strlit("REPL");
    reveal_strlit("POS");
    assert("PING"@.len() != "HANDSHAKE"@.len());
    assert("PING"@.len() != "ACK"@.len());
    assert("PING"@.len() != "LEAVE"@.len());
    assert("PING"@[0] != "REPL"@[0]);
    assert("PING"@.len() != "POS"@.len());
    assert("HANDSHAKE"@.len() != "ACK"@.len());
    assert("HANDSHAKE"@.len() != "LEAVE"@.len());
    assert("HANDSHAKE"@.len() != "REPL"@.len());
    assert("HANDSHAKE"@.len() != "POS"@.len());
    assert("ACK"@.len() != "LEAVE"@.len());
    assert("ACK"@.len() != "REPL"@.len());
    assert("ACK"@[0] != "POS"@[0]);
    assert("LEAVE"@.len() != "REPL"@.len());
    assert("LEAVE"@.len() != "POS"@.len());
    assert("REPL"@.len() != "POS"@.len());
}

/// Splits `a:b:c` into its three pieces when none holds a ':'.
proof fn lemma_three_fields(a: Seq<char>, b: Seq<char>, c: Seq<char>)
    requires
        free_of(a, ':'),
        free_of(b, ':'),
        free_of(c, ':'),
    ensures
        split(a + seq![':'] + b + seq![':'] + c, ':') == seq![a, b, c],
{
    lemma_split_single(a, ':');
    lemma_split_append(a, b, ':');
    lemma_split_append(a + seq![':'] + b, c, ':');
    assert(seq![a].push(b).push(c) =~= seq![a, b, c]);
}

proof fn lemma_round_trip_replicate(p: Player)
    requires
        p.velocity == (Point { x: 0, y: 0 }),
    ensures
        decode(encode(Message::Replicate(p))) == Ok::<Message, DecodeError>(Message::Replicate(p)),
{
    lemma_tags();
    let n = name_of(Message::Replicate(p));
    let x = dec_int(p.pos.x as int);
    let y = dec_int(p.pos.y as int);
    let c = color_text(p.color);
    lemma_dec_nat(p.id as nat);
    lemma_dec_int_separators(p.pos.x as int);
    lemma_dec_int_separators(p.pos.y as int);
    lemma_color_separators(p.color);
    let data = x + seq![','] + y + seq![','] + c;
    lemma_free_of_concat(x, seq![','], ':');
    lemma_free_of_concat(x + seq![','], y, ':');
    lemma_free_of_concat(x + seq![','] + y, seq![','], ':');
    lemma_free_of_concat(x + seq![','] + y + seq![','], c, ':');
    lemma_three_fields(n, dec_nat(p.id as nat), data);
    lemma_split_single(x, ',');
    lemma_split_append(x, y, ',');
    lemma_split_append(x + seq![','] + y, c, ',');
    assert(seq![x].push(y).push(c) =~= seq![x, y, c]);
    lemma_parse_id(p.id);
    lemma_parse_coordinate(p.pos.x);
    lemma_parse_coordinate(p.pos.y);
    lemma_parse_color(p.color);
}

proof fn lemma_round_trip_position(id: PlayerID, pos: Point)
    ensures
        decode(encode(Message::Position(id, pos))) == Ok::<Message, DecodeError>(
            Message::Position(id, pos),
        ),
{
    lemma_tags();
    let n = name_of(Message::Position(id, pos));
    let x = dec_int(pos.x as int);
    let y = dec_int(pos.y as int);
    lemma_dec_nat(id as nat);
    lemma_dec_int_separators(pos.x as int);
    lemma_dec_int_separators(pos.y as int);
    let data = x + seq![','] + y;
    lemma_free_of_concat(x, seq![','], ':');
    lemma_free_of_concat(x + seq![','], y, ':');
    lemma_three_fields(n, dec_nat(id as nat), data);
    lemma_split_single(x, ',');
    lemma_split_append(x, y, ',');
    assert(seq![x].push(y) =~= seq![x, y]);
    lemma_parse_id(id);
    lemma_parse_coordinate(pos.x);
    lemma_parse_coordinate(pos.y);
}

/// Decoding the text of a message gives the message back. A replicated
/// player travels without its velocity, so this holds of players at rest.
pub proof fn lemma_round_trip(m: Message)
    requires
        m matches Message::Replicate(p) ==> p.velocity == (Point { x: 0, y: 0 }),
    ensures
        decode(encode(m)) == Ok::<Message, DecodeError>(m),
{
    lemma_tags();
    let n = name_of(m);
    match m {
        Message::Ping | Message::Handshake => {
            lemma_split_single(n, ':');
        },
        Message::Ack(id, c) => {
            lemma_dec_nat(id as nat);
            lemma_color_separators(c);
            lemma_three_fields(n, dec_nat(id as nat), color_text(c));
            lemma_parse_id(id);
            lemma_parse_color(c);
        },
        Message::Leave(id) => {
            lemma_dec_nat(id as nat);
            lemma_split_single(n, ':');
            lemma_split_append(n, dec_nat(id as nat), ':');
            assert(seq![n].push(dec_nat(id as nat)) =~= seq![n, dec_nat(id as nat)]);
            lemma_parse_id(id);
        },
        Message::Replicate(p) => lemma_round_trip_replicate(p),
        Message::Position(id, pos) => lemma_round_trip_position(id, pos),
    }
}

/// How many ':'-separated fields a message of this name has; none for an unknown name.
pub open spec fn field_count(tag: Seq<char>) -> nat {
    if tag == "PING"@ || tag == "HANDSHAKE"@ {
        1
    } else if tag == "LEAVE"@ {
        2
    } else if tag == "ACK"@ || tag == "REPL"@ || tag == "POS"@ {
        3
    } else {
        0
    }
}

/// Decoding fails on an unknown name or a wrong number of fields, on an id
/// that is not a decimal number, on a coordinate that is not a decimal
/// integer and on a color that is not `#` and six hex digits.
pub proof fn lemma_decode_rejects(s: Seq<char>)
    ensures
        ({
            let parts = split(s, ':');
            &&& parts.len() != field_count(parts[0]) ==> decode(s) == Err::<Message, DecodeError>(
                DecodeError::UnknownMessage,
            )
            &&& parts.len() == field_count(parts[0]) && parts.len() >= 2 && parse_id(parts[1]) is None
                ==> decode(s) == Err::<Message, DecodeError>(DecodeError::InvalidPlayerId)
            &&& parts.len() == 3 && parts[0] == "ACK"@ && parse_color(parts[2]) is None
                ==> decode(s) is Err
            &&& parts.len() == 3 && (parts[0] == "REPL"@ || parts[0] == "POS"@) && (split(
                parts[2],
                ',',
            ).len() < 2 || parse_coordinate(split(parts[2], ',')[0]) is None || parse_coordinate(
                split(parts[2], ',')[1],
            ) is None) ==> decode(s) is Err
            &&& parts.len() == 3 && parts[0] == "REPL"@ && (split(parts[2], ',').len() != 3
                || parse_color(split(parts[2], ',')[2]) is None) ==> decode(s) is Err
        }),
{
    lemma_tags();
    crate::wire::lemma_split_nonempty(s, ':');
}

/// Whether every message sent and received is traced on the console. It is
/// handed to the parts that trace, rather than kept in a process-wide flag.
#[derive(PartialEq, Eq, Structural, Clone, Copy, Debug)]
pub struct TraceConfig {
    pub enabled: bool,
}

pub fn set_trace(config: &mut TraceConfig, enabled: bool)
    ensures
        final(config).enabled == enabled,
{
    config.enabled = enabled;
}

/// The trace line for `s`, when tracing is on.
pub fn trace(config: &TraceConfig, s: &str) -> (r: Option<String>)
    ensures
        config.enabled ==> r is Some && r->0@ == "[TRACE] "@ + s@,
        !config.enabled ==> r is None,
{
    if config.enabled {
        let mut line = String::new();
        line.append("[TRACE] ");
        line.append(s);
        assert(line@ =~= "[TRACE] "@ + s@);
        Some(line)
    } else {
        None
    }
}

} // verus!
