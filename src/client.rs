//! The client's side of a session: the identity the server gave it, the
//! heartbeat clock, and the table of other players rebuilt from what the
//! server sends. Sockets and queues are driven by the caller; times are
//! milliseconds on a clock of the caller's choosing.

use vstd::prelude::*;

use std::collections::HashMap;

use vstd::std_specs::iter::IteratorSpec;

use crate::globals::CONNECTION_TIMEOUT_MS;
use crate::message::{decode, encode, Message};
use crate::{fresh_player, Player, PlayerID};

verus! {

broadcast use vstd::std_specs::hash::group_hash_axioms;

/// Whether the server counts as alive at `now`, its last heartbeat heard at
/// `last_ping`: less than the connection timeout has passed since.
pub open spec fn alive_at(last_ping: u64, now: u64) -> bool {
    now < last_ping + CONNECTION_TIMEOUT_MS
}

/// The time of the last heartbeat after `text` came in at `now`.
pub open spec fn heartbeat_after(last_ping: u64, text: Seq<char>, now: u64) -> u64 {
    if decode(text) == Ok::<Message, crate::message::DecodeError>(Message::Ping) {
        now
    } else {
        last_ping
    }
}

/// The identity the server's answer to a handshake gives, if it is an ACK.
pub open spec fn handshake_result(text: Seq<char>) -> Option<Player> {
    match decode(text) {
        Ok(Message::Ack(id, color)) => Some(fresh_player(id, color)),
        _ => None,
    }
}

/// Reads the server's answer to a handshake: an ACK fixes the local player's
/// id and color; anything else means waiting on, or sending the handshake again.
pub fn handshake_response(response: &str) -> (r: Option<Player>)
    ensures
        r == handshake_result(response@),
{
    match Message::deserialize(response) {
        Ok(Message::Ack(id, color)) => Some(Player::new(id, color)),
        _ => None,
    }
}

/// A joined session, seen from the client.
pub struct ClientSession {
    session_player: Player,
    last_ping: u64,
}

impl ClientSession {
    pub closed spec fn player(&self) -> Player {
        self.session_player
    }

    pub closed spec fn last_ping_at(&self) -> u64 {
        self.last_ping
    }

    /// The session just joined at `now_ms` as `session_player`.
    pub fn new(session_player: Player, now_ms: u64) -> (r: ClientSession)
        ensures
            r.player() == session_player,
            r.last_ping_at() == now_ms,
    {
        ClientSession { session_player, last_ping: now_ms }
    }

    /// The local player, as the server acknowledged it.
    pub fn get_session_player_data(&self) -> (r: Player)
        ensures
            r == self.player(),
    {
        self.session_player
    }

    /// Takes note of a datagram's text that came in at `now_ms`: a heartbeat
    /// moves the liveness clock.
    pub fn receive_server_response(&mut self, response: &str, now_ms: u64)
        ensures
            final(self).player() == old(self).player(),
            final(self).last_ping_at() == heartbeat_after(old(self).last_ping_at(), response@, now_ms),
    {
        match Message::deserialize(response) {
            Ok(Message::Ping) => {
                self.last_ping = now_ms;
            },
            _ => {},
        }
    }

    /// The position report to send for `player`.
    pub fn send_pos(&self, player: &Player) -> (r: String)
        ensures
            r@ == encode(Message::Position(player.id, player.pos)),
    {
        Message::Position(player.id, player.pos).serialize()
    }

    /// Whether a heartbeat came within the connection timeout before `now_ms`.
    pub fn is_server_alive(&self, now_ms: u64) -> (r: bool)
        ensures
            r == alive_at(self.last_ping_at(), now_ms),
    {
        if now_ms <= self.last_ping {
            true
        } else {
            now_ms - self.last_ping < CONNECTION_TIMEOUT_MS
        }
    }

    /// The leave notice to send; it is sent once and not acknowledged.
    pub fn leave_server(&self, player_id: PlayerID) -> (r: String)
        ensures
            r@ == encode(Message::Leave(player_id)),
    {
        Message::Leave(player_id).serialize()
    }
}

/// Once no heartbeat has come for the whole timeout the server counts as
/// lost; one more heartbeat makes it alive again.
pub proof fn lemma_liveness(last_ping: u64, text: Seq<char>, now: u64)
    ensures
        now >= last_ping + CONNECTION_TIMEOUT_MS ==> !alive_at(last_ping, now),
        decode(text) != Ok::<Message, crate::message::DecodeError>(Message::Ping) ==> heartbeat_after(
            last_ping,
            text,
            now,
        ) == last_ping,
        decode(text) == Ok::<Message, crate::message::DecodeError>(Message::Ping) ==> alive_at(
            heartbeat_after(last_ping, text, now),
            now,
        ),
{
}

/// What a message from the server did to the table of other players.
#[derive(PartialEq, Eq, Structural, Clone, Copy, Debug)]
pub enum RemoteEvent {
    Replicated(PlayerID),
    Moved(PlayerID),
    Left(PlayerID),
    Ignored,
}

/// The table after a message's text from the server: a snapshot enters or
/// replaces a player, a position moves a known one, a leave removes one.
pub open spec fn remote_step(m: Map<PlayerID, Player>, text: Seq<char>) -> (
    Map<PlayerID, Player>,
    RemoteEvent,
) {
    match decode(text) {
        Ok(Message::Replicate(p)) => (m.insert(p.id, p), RemoteEvent::Replicated(p.id)),
        Ok(Message::Position(id, pos)) => if m.contains_key(id) {
            (m.insert(id, Player { pos, ..m[id] }), RemoteEvent::Moved(id))
        } else {
            (m, RemoteEvent::Ignored)
        },
        Ok(Message::Leave(id)) => (m.remove(id), RemoteEvent::Left(id)),
        _ => (m, RemoteEvent::Ignored),
    }
}

/// The other players, by id, as the server last described them.
pub struct RemotePlayers {
    players: HashMap<PlayerID, Player>,
}

impl View for RemotePlayers {
    type V = Map<PlayerID, Player>;

    closed spec fn view(&self) -> Map<PlayerID, Player> {
        self.players@
    }
}

impl RemotePlayers {
    pub fn new() -> (r: RemotePlayers)
        ensures
            r@ == Map::<PlayerID, Player>::empty(),
    {
        RemotePlayers { players: HashMap::new() }
    }

    pub fn get(&self, id: PlayerID) -> (r: Option<Player>)
        ensures
            r == (if self@.contains_key(id) {
                Some(self@[id])
            } else {
                None::<Player>
            }),
    {
        match self.players.get(&id) {
            Some(p) => Some(*p),
            None => None,
        }
    }

    pub fn len(&self) -> (r: usize)
        ensures
            r == self@.len(),
    {
        self.players.len()
    }

    /// Every player of the table, once each, in no particular order.
    pub fn snapshot(&self) -> (r: Vec<Player>)
        ensures
            r@.len() == self@.len(),
            forall|i: int| 0 <= i < r@.len() ==> #[trigger] self@.values().contains(r@[i]),
            forall|k: PlayerID| self@.contains_key(k) ==> r@.contains(#[trigger] self@[k]),
    {
        let mut r: Vec<Player> = Vec::new();
        let ghost all = self.players.iter().remaining();
        for entry in it: self.players.iter()
            invariant
                it.seq() == all,
                all.len() == self@.len(),
                forall|i: int|
                    #![trigger all[i]]
                    0 <= i < all.len() ==> self@.contains_key(*all[i].0) && self@[*all[i].0]
                        == *all[i].1,
                forall|k: PlayerID| #[trigger] self@.contains_key(k) ==> all.contains((&k, &self@[k])),
                r@.len() == it.index(),
                forall|i: int| 0 <= i < it.index() ==> #[trigger] r@[i] == *all[i].1,
        {
            r.push(*entry.1);
        }
        assert forall|i: int| 0 <= i < r@.len() implies #[trigger] self@.values().contains(r@[i]) by {
            let k = *all[i].0;
            assert(self@.contains_key(k) && self@[k] == r@[i]);
        }
        assert forall|k: PlayerID| self@.contains_key(k) implies r@.contains(#[trigger] self@[k]) by {
            assert(all.contains((&k, &self@[k])));
            let i = choose|i: int| 0 <= i < all.len() && all[i] == (&k, &self@[k]);
            assert(r@[i] == self@[k]);
        }
        r
    }

    pub fn clear(&mut self)
        ensures
            final(self)@ == Map::<PlayerID, Player>::empty(),
    {
        self.players.clear();
    }

    /// Applies a message's text from the server to the table.
    pub fn process_server_response(&mut self, msg: &str) -> (r: RemoteEvent)
        ensures
            (final(self)@, r) == remote_step(old(self)@, msg@),
    {
        match Message::deserialize(msg) {
            Ok(Message::Replicate(p)) => {
                self.players.insert(p.id, p);
                RemoteEvent::Replicated(p.id)
            },
            Ok(Message::Position(id, pos)) => {
                match self.players.get(&id) {
                    Some(old_player) => {
                        let moved = Player { pos, ..*old_player };
                        self.players.insert(id, moved);
                        RemoteEvent::Moved(id)
                    },
                    None => RemoteEvent::Ignored,
                }
            },
            Ok(Message::Leave(id)) => {
                self.players.remove(&id);
                RemoteEvent::Left(id)
            },
            _ => RemoteEvent::Ignored,
        }
    }
}

} // verus!
