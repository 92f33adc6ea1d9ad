//! The server's authoritative session: the table of joined peers and the
//! decisions taken on each datagram and each simulation tick. Sockets, timers
//! and queues are driven by the caller, which carries out the returned actions.

use vstd::prelude::*;

use crate::globals::{clamp_player_to_bounds, clamp_point, clamped, in_bounds, lemma_clamp_point};
use crate::message::{decode, Message};
use crate::{fresh_player, Color, Player, PlayerID, Point};

verus! {

/// Network address of a peer: an IPv6 address (an IPv4 one in its mapped
/// form) and a port.
#[derive(PartialEq, Eq, Structural, Clone, Copy, Debug, Hash)]
pub struct Endpoint {
    pub ip: u128,
    pub port: u16,
}

/// One joined client: where it sends from, and its authoritative state.
#[derive(PartialEq, Eq, Structural, Clone, Copy, Debug)]
pub struct PeerEntry {
    pub addr: Endpoint,
    pub player: Player,
}

/// A message for every peer but the excluded one.
#[derive(PartialEq, Eq, Structural, Clone, Copy, Debug)]
pub struct BroadcastMessage {
    pub msg: Message,
    pub excluded_client: Option<Endpoint>,
}

/// What the caller does after a datagram was handled.
#[derive(PartialEq, Eq, Structural, Clone, Copy, Debug)]
pub enum ServerAction {
    /// Send to the peer the datagram came from.
    Reply(Message),
    Broadcast(BroadcastMessage),
    PlayerJoined(PlayerID),
    PlayerLeft(PlayerID),
    /// Start the heartbeat and simulation loops; asked for once, on the first join.
    StartPeriodicTasks,
}

/// The state of a session, as the contracts see it.
pub struct SessionModel {
    pub peers: Seq<PeerEntry>,
    pub next_id: PlayerID,
    pub started: bool,
}

/// Position of the entry for `a`, or -1.
pub open spec fn find_index(peers: Seq<PeerEntry>, a: Endpoint) -> int
    decreases peers.len(),
{
    if peers.len() == 0 {
        -1
    } else if peers.last().addr == a {
        peers.len() - 1
    } else {
        find_index(peers.drop_last(), a)
    }
}

pub open spec fn lookup(peers: Seq<PeerEntry>, a: Endpoint) -> Option<Player> {
    let i = find_index(peers, a);
    if i >= 0 {
        Some(peers[i].player)
    } else {
        None
    }
}

/// Addresses are unique; ids are at least 1, below the next id to hand out,
/// and grow along the table, which keeps the order of joining.
pub open spec fn table_ok(peers: Seq<PeerEntry>, next_id: PlayerID) -> bool {
    &&& next_id >= 1
    &&& forall|i: int, j: int|
        0 <= i < j < peers.len() ==> #[trigger] peers[i].addr != #[trigger] peers[j].addr
    &&& forall|i: int, j: int|
        0 <= i < j < peers.len() ==> #[trigger] peers[i].player.id < #[trigger] peers[j].player.id
    &&& forall|i: int|
        0 <= i < peers.len() ==> 1 <= #[trigger] peers[i].player.id < next_id
}

pub open spec fn model_ok(m: SessionModel) -> bool {
    table_ok(m.peers, m.next_id)
}

/// A handshake from `a`: a known address is acknowledged again with the
/// identity it has; a new one gets the next id and `color`.
pub open spec fn handshake_step(m: SessionModel, a: Endpoint, color: Color) -> (
    SessionModel,
    Seq<ServerAction>,
) {
    match lookup(m.peers, a) {
        Some(p) => (m, seq![ServerAction::Reply(Message::Ack(p.id, p.color))]),
        None => if m.next_id == u64::MAX {
            (m, Seq::empty())
        } else {
            let p = fresh_player(m.next_id, color);
            (
                SessionModel {
                    peers: m.peers.push(PeerEntry { addr: a, player: p }),
                    next_id: (m.next_id + 1) as u64,
                    started: true,
                },
                seq![ServerAction::PlayerJoined(p.id)] + (if m.started {
                    Seq::empty()
                } else {
                    seq![ServerAction::StartPeriodicTasks]
                }) + seq![ServerAction::Reply(Message::Ack(p.id, color))],
            )
        },
    }
}

/// A position report: taken, clamped into the world, only from the address
/// of a joined player whose id it names.
pub open spec fn position_step(m: SessionModel, a: Endpoint, id: PlayerID, pos: Point) -> SessionModel {
    let i = find_index(m.peers, a);
    if i >= 0 && m.peers[i].player.id == id {
        SessionModel {
            peers: m.peers.update(
                i,
                PeerEntry { addr: a, player: clamped(Player { pos, ..m.peers[i].player }) },
            ),
            ..m
        }
    } else {
        m
    }
}

/// A leave notice: the entry of the address goes, and the others are told.
pub open spec fn leave_step(m: SessionModel, a: Endpoint, id: PlayerID) -> (
    SessionModel,
    Seq<ServerAction>,
) {
    let i = find_index(m.peers, a);
    (
        SessionModel { peers: if i >= 0 {
            m.peers.remove(i)
        } else {
            m.peers
        }, ..m },
        seq![
            ServerAction::PlayerLeft(id),
            ServerAction::Broadcast(
                BroadcastMessage { msg: Message::Leave(id), excluded_client: Some(a) },
            ),
        ],
    )
}

/// The effect of a datagram's text from `a`; `color` is what a new player gets.
pub open spec fn dispatch_step(m: SessionModel, a: Endpoint, text: Seq<char>, color: Color) -> (
    SessionModel,
    Seq<ServerAction>,
) {
    match decode(text) {
        Ok(Message::Handshake) => handshake_step(m, a, color),
        Ok(Message::Position(id, pos)) => (position_step(m, a, id, pos), Seq::empty()),
        Ok(Message::Leave(id)) => leave_step(m, a, id),
        _ => (m, Seq::empty()),
    }
}

pub open spec fn tick_entry(e: PeerEntry) -> PeerEntry {
    PeerEntry { addr: e.addr, player: clamped(e.player) }
}

pub open spec fn replicate_entry(e: PeerEntry) -> BroadcastMessage {
    BroadcastMessage { msg: Message::Replicate(e.player), excluded_client: Some(e.addr) }
}

/// The addresses a broadcast goes to, in table order.
pub open spec fn recipients_of(peers: Seq<PeerEntry>, excluded: Option<Endpoint>) -> Seq<Endpoint>
    decreases peers.len(),
{
    if peers.len() == 0 {
        Seq::empty()
    } else {
        let rest = recipients_of(peers.drop_last(), excluded);
        if excluded == Some(peers.last().addr) {
            rest
        } else {
            rest.push(peers.last().addr)
        }
    }
}

pub proof fn lemma_find_index(peers: Seq<PeerEntry>, a: Endpoint)
    ensures
        -1 <= find_index(peers, a) < peers.len(),
        find_index(peers, a) >= 0 ==> peers[find_index(peers, a)].addr == a,
        forall|j: int| find_index(peers, a) < j < peers.len() ==> #[trigger] peers[j].addr != a,
    decreases peers.len(),
{
    if peers.len() > 0 {
        lemma_find_index(peers.drop_last(), a);
        assert forall|j: int| 0 <= j < peers.len() - 1 implies #[trigger] peers[j] == peers.drop_last()[j] by {}
    }
}

/// The entry found is the last one that holds `a`.
pub proof fn lemma_find_index_last(peers: Seq<PeerEntry>, a: Endpoint, i: int)
    requires
        0 <= i < peers.len(),
        peers[i].addr == a,
        forall|j: int| i < j < peers.len() ==> #[trigger] peers[j].addr != a,
    ensures
        find_index(peers, a) == i,
    decreases peers.len(),
{
    if i < peers.len() - 1 {
        let t = peers.drop_last();
        assert forall|j: int| i < j < t.len() implies #[trigger] t[j].addr != a by {
            assert(t[j] == peers[j]);
        }
        lemma_find_index_last(t, a, i);
    }
}

/// Relies on rand::Rng::gen_range over rand::thread_rng: a number drawn from
/// `0..bound`; it panics only on an empty range.
#[verifier::external_body]
fn random_below(bound: u32) -> (r: u32)
    requires
        bound > 0,
    ensures
        r < bound,
{
    rand::Rng::gen_range(&mut rand::thread_rng(), 0..bound)
}

/// The color whose channels are the three bytes of `v`, red the highest.
pub fn color_from_rgb24(v: u32) -> (c: Color)
    requires
        v < 0x100_0000,
    ensures
        c == (Color { r: (v / 0x1_0000) as u8, g: (v / 0x100 % 0x100) as u8, b: (v % 0x100) as u8 }),
        c.is_white() ==> v == 0xFF_FFFF,
{
    let rest = v / 0x100;
    let r = (rest / 0x100) as u8;
    let g = (rest % 0x100) as u8;
    let b = (v % 0x100) as u8;
    assert(rest / 0x100 == v / 0x1_0000) by {
        vstd::arithmetic::div_mod::lemma_div_denominator(v as int, 0x100, 0x100);
    }
    if r == 255 && g == 255 && b == 255 {
        assert(v == rest * 0x100 + v % 0x100) by {
            vstd::arithmetic::div_mod::lemma_fundamental_div_mod(v as int, 0x100);
        }
        assert(rest == (rest / 0x100) * 0x100 + rest % 0x100) by {
            vstd::arithmetic::div_mod::lemma_fundamental_div_mod(rest as int, 0x100);
        }
    }
    Color { r, g, b }
}

/// A random color for a new player, any but white.
pub fn generate_color() -> (c: Color)
    ensures
        !c.is_white(),
{
    color_from_rgb24(random_below(0xFF_FFFF))
}

/// Datagrams of at most one byte are noise and are not handled.
pub fn is_noise(len: usize) -> (r: bool)
    ensures
        r == (len <= 1),
{
    len <= 1
}

/// The authoritative table of joined peers, and the next id to hand out.
pub struct ServerContext {
    players: Vec<PeerEntry>,
    player_id_counter: PlayerID,
    periodic_started: bool,
}

impl View for ServerContext {
    type V = SessionModel;

    closed spec fn view(&self) -> SessionModel {
        SessionModel {
            peers: self.players@,
            next_id: self.player_id_counter,
            started: self.periodic_started,
        }
    }
}

impl ServerContext {
    pub open spec fn wf(&self) -> bool {
        model_ok(self@)
    }

    /// An empty session; the first player gets id 1.
    pub fn new() -> (r: ServerContext)
        ensures
            r.wf(),
            r@.peers == Seq::<PeerEntry>::empty(),
            r@.next_id == 1,
            !r@.started,
    {
        ServerContext { players: Vec::new(), player_id_counter: 1, periodic_started: false }
    }

    /// Where the entry for `client` stands in the table.
    fn find(&self, client: Endpoint) -> (r: Option<usize>)
        ensures
            match r {
                Some(i) => i as int == find_index(self@.peers, client),
                None => find_index(self@.peers, client) < 0,
            },
    {
        let ghost peers = self@.peers;
        let mut i: usize = self.players.len();
        assert(peers.take(i as int) =~= peers);
        while i > 0
            invariant
                i <= peers.len(),
                peers == self@.peers,
                find_index(peers, client) == find_index(peers.take(i as int), client),
            decreases i,
        {
            assert(peers.take(i as int).drop_last() =~= peers.take(i - 1));
            if self.players[i - 1].addr == client {
                return Some(i - 1);
            }
            i -= 1;
        }
        None
    }

    /// The player that joined from `client`, if any.
    pub fn player_at(&self, client: Endpoint) -> (r: Option<Player>)
        ensures
            r == lookup(self@.peers, client),
    {
        proof {
            lemma_find_index(self@.peers, client);
        }
        match self.find(client) {
            Some(i) => Some(self.players[i].player),
            None => None,
        }
    }

    pub fn player_count(&self) -> (r: usize)
        ensures
            r == self@.peers.len(),
    {
        self.players.len()
    }

    /// Answers a handshake from `client`; `fresh_color` is the color it gets
    /// if it is new.
    pub fn accept_client(&mut self, client: Endpoint, fresh_color: Color) -> (r: Vec<ServerAction>)
        requires
            old(self).wf(),
        ensures
            final(self).wf(),
            (final(self)@, r@) == handshake_step(old(self)@, client, fresh_color),
    {
        proof {
            lemma_find_index(self@.peers, client);
        }
        let mut actions: Vec<ServerAction> = Vec::new();
        match self.find(client) {
            Some(i) => {
                let p = self.players[i].player;
                actions.push(ServerAction::Reply(Message::Ack(p.id, p.color)));
                assert(actions@ =~= seq![ServerAction::Reply(Message::Ack(p.id, p.color))]);
            },
            None => {
                if self.player_id_counter == u64::MAX {
                    assert(actions@ =~= Seq::<ServerAction>::empty());
                    return actions;
                }
                let ghost old_peers = self@.peers;
                let id = self.player_id_counter;
                let player = Player::new(id, fresh_color);
                self.players.push(PeerEntry { addr: client, player });
                self.player_id_counter = id + 1;
                actions.push(ServerAction::PlayerJoined(id));
                if !self.periodic_started {
                    actions.push(ServerAction::StartPeriodicTasks);
                }
                self.periodic_started = true;
                actions.push(ServerAction::Reply(Message::Ack(id, fresh_color)));
                proof {
                    let peers = self@.peers;
                    assert(peers == old_peers.push(PeerEntry { addr: client, player }));
                    assert forall|i: int, j: int| 0 <= i < j < peers.len() implies #[trigger] peers[i].addr
                        != #[trigger] peers[j].addr by {
                        if j == peers.len() - 1 {
                            assert(peers[i] == old_peers[i]);
                        }
                    }
                    assert forall|i: int, j: int| 0 <= i < j < peers.len() implies #[trigger] peers[i].player.id
                        < #[trigger] peers[j].player.id by {
                        if j == peers.len() - 1 {
                            assert(peers[i] == old_peers[i]);
                        }
                    }
                    assert forall|i: int| 0 <= i < peers.len() implies 1 <= #[trigger] peers[i].player.id
                        < self@.next_id by {
                        if i < peers.len() - 1 {
                            assert(peers[i] == old_peers[i]);
                        }
                    }
                    assert(actions@ =~= handshake_step(old(self)@, client, fresh_color).1);
                }
            },
        }
        actions
    }

    /// Takes a position report from `client`, if it names that client's id;
    /// the position is clamped into the world.
    pub fn update_position(&mut self, client: Endpoint, player_id: PlayerID, new_pos: Point)
        requires
            old(self).wf(),
        ensures
            final(self).wf(),
            final(self)@ == position_step(old(self)@, client, player_id, new_pos),
    {
        proof {
            lemma_find_index(self@.peers, client);
        }
        match self.find(client) {
            Some(i) => {
                if self.players[i].player.id != player_id {
                    return;
                }
                let mut player = self.players[i].player;
                player.pos = new_pos;
                clamp_player_to_bounds(&mut player);
                self.players.set(i, PeerEntry { addr: client, player });
                assert(self@ == position_step(old(self)@, client, player_id, new_pos));
            },
            None => {},
        }
    }

    /// Removes the entry of `client`, and tells the others that `player_id` left.
    /// The id is not checked against the entry.
    pub fn drop_player(&mut self, client: Endpoint, player_id: PlayerID) -> (r: Vec<ServerAction>)
        requires
            old(self).wf(),
        ensures
            final(self).wf(),
            (final(self)@, r@) == leave_step(old(self)@, client, player_id),
    {
        proof {
            lemma_find_index(self@.peers, client);
        }
        let ghost old_peers = self@.peers;
        match self.find(client) {
            Some(i) => {
                self.players.remove(i);
                proof {
                    let peers = self@.peers;
                    assert(peers =~= old_peers.remove(i as int));
                    assert forall|a: int| 0 <= a < peers.len() implies #[trigger] peers[a] == old_peers[
                        if a < i {
                            a
                        } else {
                            a + 1
                        }] by {}
                    assert forall|a: int, b: int| 0 <= a < b < peers.len() implies #[trigger] peers[a].addr
                        != #[trigger] peers[b].addr by {
                        let ia = if a < i { a } else { a + 1 };
                        let ib = if b < i { b } else { b + 1 };
                        assert(peers[a] == old_peers[ia] && peers[b] == old_peers[ib]);
                    }
                    assert forall|a: int, b: int| 0 <= a < b < peers.len() implies #[trigger] peers[a].player.id
                        < #[trigger] peers[b].player.id by {
                        let ia = if a < i { a } else { a + 1 };
                        let ib = if b < i { b } else { b + 1 };
                        assert(peers[a] == old_peers[ia] && peers[b] == old_peers[ib]);
                    }
                }
            },
            None => {},
        }
        let mut actions: Vec<ServerAction> = Vec::new();
        actions.push(ServerAction::PlayerLeft(player_id));
        actions.push(
            ServerAction::Broadcast(
                BroadcastMessage { msg: Message::Leave(player_id), excluded_client: Some(client) },
            ),
        );
        assert(actions@ =~= leave_step(old(self)@, client, player_id).1);
        actions
    }

    /// Handles the text of one datagram from `client`: a handshake, a position
    /// report or a leave notice; anything else is dropped. A new player's
    /// color is drawn at random, and is never white.
    pub fn process_client_message(&mut self, client: Endpoint, msg: &str) -> (r: Vec<ServerAction>)
        requires
            old(self).wf(),
        ensures
            final(self).wf(),
            exists|c: Color|
                !c.is_white() && (final(self)@, r@) == #[trigger] dispatch_step(
                    old(self)@,
                    client,
                    msg@,
                    c,
                ),
    {
        match Message::deserialize(msg) {
            Ok(Message::Handshake) => {
                // A known address keeps its color: draw one only for a newcomer.
                let color = match self.player_at(client) {
                    Some(_) => Color { r: 0, g: 0, b: 0 },
                    None => generate_color(),
                };
                let r = self.accept_client(client, color);
                assert(dispatch_step(old(self)@, client, msg@, color) == (self@, r@));
                r
            },
            Ok(Message::Position(id, pos)) => {
                self.update_position(client, id, pos);
                let r: Vec<ServerAction> = Vec::new();
                let c = Color { r: 0, g: 0, b: 0 };
                assert(dispatch_step(old(self)@, client, msg@, c) == (self@, r@));
                r
            },
            Ok(Message::Leave(id)) => {
                let r = self.drop_player(client, id);
                let c = Color { r: 0, g: 0, b: 0 };
                assert(dispatch_step(old(self)@, client, msg@, c) == (self@, r@));
                r
            },
            _ => {
                let r: Vec<ServerAction> = Vec::new();
                let c = Color { r: 0, g: 0, b: 0 };
                assert(r@ =~= Seq::<ServerAction>::empty());
                assert(dispatch_step(old(self)@, client, msg@, c) == (self@, r@));
                r
            },
        }
    }

    /// The addresses that a broadcast goes to: every joined peer but `excluded`.
    pub fn recipients(&self, excluded: Option<Endpoint>) -> (r: Vec<Endpoint>)
        ensures
            r@ == recipients_of(self@.peers, excluded),
    {
        let ghost peers = self@.peers;
        let mut r: Vec<Endpoint> = Vec::new();
        let mut i: usize = 0;
        assert(peers.take(0) =~= Seq::<PeerEntry>::empty());
        while i < self.players.len()
            invariant
                i <= peers.len(),
                peers == self@.peers,
                r@ == recipients_of(peers.take(i as int), excluded),
            decreases peers.len() - i,
        {
            assert(peers.take(i + 1).drop_last() =~= peers.take(i as int));
            let addr = self.players[i].addr;
            let skip = match excluded {
                Some(e) => e == addr,
                None => false,
            };
            if !skip {
                r.push(addr);
            }
            i += 1;
        }
        assert(peers.take(peers.len() as int) =~= peers);
        r
    }

    /// One simulation tick: every player is clamped into the world, and its
    /// state is replicated to all the others.
    pub fn simulation_step(&mut self) -> (r: Vec<BroadcastMessage>)
        requires
            old(self).wf(),
        ensures
            final(self).wf(),
            final(self)@.peers == old(self)@.peers.map_values(|e: PeerEntry| tick_entry(e)),
            final(self)@.next_id == old(self)@.next_id,
            final(self)@.started == old(self)@.started,
            r@ == final(self)@.peers.map_values(|e: PeerEntry| replicate_entry(e)),
    {
        let ghost old_peers = self@.peers;
        let mut r: Vec<BroadcastMessage> = Vec::new();
        let mut i: usize = 0;
        while i < self.players.len()
            invariant
                i <= self@.peers.len(),
                self@.peers.len() == old_peers.len(),
                self@.next_id == old(self)@.next_id,
                self@.started == old(self)@.started,
                forall|j: int| 0 <= j < i ==> #[trigger] self@.peers[j] == tick_entry(old_peers[j]),
                forall|j: int| i <= j < old_peers.len() ==> #[trigger] self@.peers[j] == old_peers[j],
                r@.len() == i,
                forall|j: int| 0 <= j < i ==> #[trigger] r@[j] == replicate_entry(self@.peers[j]),
            decreases old_peers.len() - i,
        {
            let mut player = self.players[i].player;
            let addr = self.players[i].addr;
            clamp_player_to_bounds(&mut player);
            self.players.set(i, PeerEntry { addr, player });
            r.push(BroadcastMessage { msg: Message::Replicate(player), excluded_client: Some(addr) });
            i += 1;
        }
        assert(self@.peers =~= old_peers.map_values(|e: PeerEntry| tick_entry(e)));
        assert(r@ =~= self@.peers.map_values(|e: PeerEntry| replicate_entry(e)));
        r
    }
}

/// A handshake sent again from the same address is answered with the same id
/// and color, and leaves the table as the first one left it.
pub proof fn lemma_handshake_idempotent(m: SessionModel, a: Endpoint, c1: Color, c2: Color)
    requires
        model_ok(m),
        lookup(m.peers, a) is Some || m.next_id < u64::MAX,
    ensures
        ({
            let (m1, r1) = handshake_step(m, a, c1);
            let (m2, r2) = handshake_step(m1, a, c2);
            &&& m2 == m1
            &&& m2.peers.len() == m1.peers.len()
            &&& r1.len() > 0
            &&& r1.last() is Reply
            &&& r2 == seq![r1.last()]
        }),
{
    let (m1, r1) = handshake_step(m, a, c1);
    if lookup(m.peers, a) is None {
        assert(m1.peers.last().addr == a);
        let p = fresh_player(m.next_id, c1);
        assert(lookup(m1.peers, a) == Some(p));
        assert(r1.last() == ServerAction::Reply(Message::Ack(p.id, c1)));
    }
}

/// Handshakes from new addresses, one after the other.
pub open spec fn join_all(m: SessionModel, addrs: Seq<Endpoint>, colors: Seq<Color>) -> SessionModel
    decreases addrs.len(),
{
    if addrs.len() == 0 {
        m
    } else {
        handshake_step(
            join_all(m, addrs.drop_last(), colors.drop_last()),
            addrs.last(),
            colors.last(),
        ).0
    }
}

/// Players that join one after the other get consecutive ids from the next
/// one, in the order they joined, and enter the table in that order.
pub proof fn lemma_ids_in_join_order(m: SessionModel, addrs: Seq<Endpoint>, colors: Seq<Color>)
    requires
        model_ok(m),
        colors.len() == addrs.len(),
        m.next_id + addrs.len() < u64::MAX,
        forall|i: int, j: int| 0 <= i < j < addrs.len() ==> addrs[i] != addrs[j],
        forall|i: int, j: int|
            0 <= i < addrs.len() && 0 <= j < m.peers.len() ==> addrs[i] != m.peers[j].addr,
    ensures
        ({
            let m2 = join_all(m, addrs, colors);
            &&& model_ok(m2)
            &&& m2.next_id == m.next_id + addrs.len()
            &&& m2.peers.len() == m.peers.len() + addrs.len()
            &&& m2.peers.take(m.peers.len() as int) == m.peers
            &&& forall|k: int|
                0 <= k < addrs.len() ==> #[trigger] m2.peers[m.peers.len() + k] == (PeerEntry {
                    addr: addrs[k],
                    player: fresh_player((m.next_id + k) as u64, colors[k]),
                })
        }),
    decreases addrs.len(),
{
    if addrs.len() == 0 {
        assert(m.peers.take(m.peers.len() as int) =~= m.peers);
    } else {
        let n = addrs.len() - 1;
        let pa = addrs.drop_last();
        let pc = colors.drop_last();
        lemma_ids_in_join_order(m, pa, pc);
        let m1 = join_all(m, pa, pc);
        let a = addrs.last();
        assert forall|j: int| 0 <= j < m1.peers.len() implies #[trigger] m1.peers[j].addr != a by {
            if j < m.peers.len() {
                assert(m1.peers.take(m.peers.len() as int)[j] == m.peers[j]);
            } else {
                assert(m1.peers[m.peers.len() + (j - m.peers.len())].addr == pa[j - m.peers.len()]);
            }
        }
        lemma_find_index(m1.peers, a);
        let m2 = join_all(m, addrs, colors);
        let e = PeerEntry { addr: a, player: fresh_player(m1.next_id, colors.last()) };
        assert(m2.peers == m1.peers.push(e));
        assert(m2.peers.take(m.peers.len() as int) =~= m1.peers.take(m.peers.len() as int));
        assert forall|k: int| 0 <= k < addrs.len() implies #[trigger] m2.peers[m.peers.len() + k] == (
        PeerEntry { addr: addrs[k], player: fresh_player((m.next_id + k) as u64, colors[k]) }) by {
            if k < n {
                assert(m2.peers[m.peers.len() + k] == m1.peers[m.peers.len() + k]);
                assert(pa[k] == addrs[k] && pc[k] == colors[k]);
            }
        }
        let peers = m2.peers;
        assert forall|i: int, j: int| 0 <= i < j < peers.len() implies #[trigger] peers[i].addr
            != #[trigger] peers[j].addr by {
            if j == peers.len() - 1 {
                assert(peers[i] == m1.peers[i]);
            }
        }
        assert forall|i: int, j: int| 0 <= i < j < peers.len() implies #[trigger] peers[i].player.id
            < #[trigger] peers[j].player.id by {
            if j == peers.len() - 1 {
                assert(peers[i] == m1.peers[i]);
            }
        }
        assert forall|i: int| 0 <= i < peers.len() implies 1 <= #[trigger] peers[i].player.id
            < m2.next_id by {
            if i < peers.len() - 1 {
                assert(peers[i] == m1.peers[i]);
            }
        }
    }
}

/// No datagram lowers the next id, so an id once handed out is never handed
/// out again, even after its player left; a new player gets an id above all
/// the ids in the table.
pub proof fn lemma_ids_never_reused(m: SessionModel, a: Endpoint, text: Seq<char>, c: Color)
    requires
        model_ok(m),
    ensures
        dispatch_step(m, a, text, c).0.next_id >= m.next_id,
        ({
            let m2 = dispatch_step(m, a, text, c).0;
            m2.peers.len() > m.peers.len() ==> m2.peers.last().player.id == m.next_id && forall|
                i: int,
            |
                0 <= i < m.peers.len() ==> #[trigger] m.peers[i].player.id < m2.peers.last().player.id
        }),
{
    lemma_find_index(m.peers, a);
}

/// A position report whose id is not that of the sender's entry, or from an
/// address that has not joined, changes nothing.
pub proof fn lemma_position_authorization(m: SessionModel, a: Endpoint, id: PlayerID, pos: Point)
    requires
        lookup(m.peers, a) is None || lookup(m.peers, a)->0.id != id,
    ensures
        position_step(m, a, id, pos) == m,
{
}

/// A report that is taken stores the reported position clamped into the
/// world; a tick leaves every player in bounds and replicates what it stored.
pub proof fn lemma_positions_clamped(m: SessionModel, a: Endpoint, id: PlayerID, pos: Point)
    requires
        lookup(m.peers, a) is Some && lookup(m.peers, a)->0.id == id,
    ensures
        lookup(position_step(m, a, id, pos).peers, a) is Some,
        lookup(position_step(m, a, id, pos).peers, a)->0.pos == clamp_point(pos),
        in_bounds(lookup(position_step(m, a, id, pos).peers, a)->0.pos),
        forall|i: int|
            0 <= i < m.peers.len() ==> in_bounds(#[trigger] tick_entry(m.peers[i]).player.pos)
                && replicate_entry(tick_entry(m.peers[i])).msg == Message::Replicate(
                tick_entry(m.peers[i]).player,
            ),
{
    lemma_find_index(m.peers, a);
    let i = find_index(m.peers, a);
    let peers = position_step(m, a, id, pos).peers;
    assert(peers[i].addr == a);
    assert forall|j: int| i < j < peers.len() implies #[trigger] peers[j].addr != a by {
        assert(peers[j] == m.peers[j]);
    }
    lemma_find_index_last(peers, a, i);
    lemma_clamp_point(pos, pos);
    assert forall|k: int| 0 <= k < m.peers.len() implies in_bounds(
        #[trigger] tick_entry(m.peers[k]).player.pos,
    ) by {
        lemma_clamp_point(m.peers[k].player.pos, m.peers[k].player.pos);
    }
}

/// An address is among the recipients exactly when a peer holds it and it
/// is not the excluded one.
pub proof fn lemma_recipients(peers: Seq<PeerEntry>, excluded: Option<Endpoint>, b: Endpoint)
    ensures
        recipients_of(peers, excluded).contains(b) <==> excluded != Some(b) && exists|j: int|
            0 <= j < peers.len() && #[trigger] peers[j].addr == b,
    decreases peers.len(),
{
    if peers.len() > 0 {
        let t = peers.drop_last();
        lemma_recipients(t, excluded, b);
        let rest = recipients_of(t, excluded);
        if exists|j: int| 0 <= j < peers.len() && #[trigger] peers[j].addr == b {
            let j = choose|j: int| 0 <= j < peers.len() && #[trigger] peers[j].addr == b;
            if j < peers.len() - 1 {
                assert(t[j].addr == b);
            }
        }
        if exists|j: int| 0 <= j < t.len() && #[trigger] t[j].addr == b {
            let j = choose|j: int| 0 <= j < t.len() && #[trigger] t[j].addr == b;
            assert(peers[j].addr == b);
        }
        if excluded != Some(peers.last().addr) {
            assert(rest.push(peers.last().addr)[rest.len() as int] == peers.last().addr);
            if rest.contains(b) {
                let k = choose|k: int| 0 <= k < rest.len() && rest[k] == b;
                assert(rest.push(peers.last().addr)[k] == b);
            }
        }
    }
}

/// After a leave notice from `a`, no entry holds `a`, and the notice goes to
/// every other joined peer and not to `a`.
pub proof fn lemma_leave_reaches_others(m: SessionModel, a: Endpoint, id: PlayerID, b: Endpoint)
    requires
        model_ok(m),
    ensures
        ({
            let (m2, actions) = leave_step(m, a, id);
            &&& lookup(m2.peers, a) is None
            &&& actions.contains(
                ServerAction::Broadcast(
                    BroadcastMessage { msg: Message::Leave(id), excluded_client: Some(a) },
                ),
            )
            &&& !recipients_of(m2.peers, Some(a)).contains(a)
            &&& (b != a && lookup(m.peers, b) is Some) ==> recipients_of(m2.peers, Some(a)).contains(b)
        }),
{
    let (m2, actions) = leave_step(m, a, id);
    lemma_find_index(m.peers, a);
    lemma_find_index(m.peers, b);
    let i = find_index(m.peers, a);
    assert(actions[1] == ServerAction::Broadcast(
        BroadcastMessage { msg: Message::Leave(id), excluded_client: Some(a) },
    ));
    assert forall|j: int| 0 <= j < m2.peers.len() implies #[trigger] m2.peers[j].addr != a by {
        if i >= 0 {
            let k = if j < i { j } else { j + 1 };
            assert(m2.peers[j] == m.peers[k]);
            if k != i {
                if k < i {
                    assert(m.peers[k].addr != m.peers[i].addr);
                } else {
                    assert(m.peers[i].addr != m.peers[k].addr);
                }
            }
        }
    }
    lemma_find_index(m2.peers, a);
    lemma_recipients(m2.peers, Some(a), a);
    lemma_recipients(m2.peers, Some(a), b);
    if b != a && lookup(m.peers, b) is Some {
        let jb = find_index(m.peers, b);
        let j2 = if i >= 0 && jb > i { jb - 1 } else { jb };
        assert(m2.peers[j2] == m.peers[jb]);
        assert(m2.peers[j2].addr == b);
    }
}

/// A session that has just started.
pub open spec fn fresh_session(m: SessionModel) -> bool {
    m.peers.len() == 0 && m.next_id == 1
}

/// In a session that has just started, the first handshake enters its
/// address with id 1 at the origin, and is answered with `ACK:1:` and the color.
pub proof fn lemma_first_handshake(m: SessionModel, a: Endpoint, c: Color)
    requires
        fresh_session(m),
    ensures
        ({
            let (m2, r) = handshake_step(m, a, c);
            &&& m2.peers == seq![PeerEntry { addr: a, player: fresh_player(1, c) }]
            &&& m2.next_id == 2
            &&& r.last() == ServerAction::Reply(Message::Ack(1, c))
            &&& forall|i: int| 0 <= i < r.len() - 1 ==> !(#[trigger] r[i] is Reply)
        }),
{
    let (m2, r) = handshake_step(m, a, c);
    assert(m2.peers =~= seq![PeerEntry { addr: a, player: fresh_player(1, c) }]);
    assert(r.len() <= 3);
}

/// From a session that has just started, N joins from distinct addresses get
/// the ids 1, 2, ..., N in the order they joined, and the table holds them all.
pub proof fn lemma_ids_from_fresh_session(m: SessionModel, addrs: Seq<Endpoint>, colors: Seq<Color>)
    requires
        fresh_session(m),
        colors.len() == addrs.len(),
        addrs.len() < u64::MAX - 1,
        forall|i: int, j: int| 0 <= i < j < addrs.len() ==> addrs[i] != addrs[j],
    ensures
        ({
            let m2 = join_all(m, addrs, colors);
            &&& m2.peers.len() == addrs.len()
            &&& m2.next_id == addrs.len() + 1
            &&& forall|k: int|
                0 <= k < addrs.len() ==> #[trigger] m2.peers[k] == (PeerEntry {
                    addr: addrs[k],
                    player: fresh_player((k + 1) as u64, colors[k]),
                })
        }),
{
    lemma_ids_in_join_order(m, addrs, colors);
    let m2 = join_all(m, addrs, colors);
    assert forall|k: int| 0 <= k < addrs.len() implies #[trigger] m2.peers[k] == (PeerEntry {
        addr: addrs[k],
        player: fresh_player((k + 1) as u64, colors[k]),
    }) by {
        assert(m2.peers[m.peers.len() + k] == m2.peers[k]);
    }
}

/// A leave notice or a position report never changes the next id, so a
/// player joining after others left gets the id after the last one handed
/// out, and no id of a player that left comes back.
pub proof fn lemma_rejoin_after_leaves(m: SessionModel, gone: Endpoint, id: PlayerID, a: Endpoint, c: Color)
    requires
        model_ok(m),
        m.next_id < u64::MAX,
        lookup(leave_step(m, gone, id).0.peers, a) is None,
    ensures
        ({
            let m1 = leave_step(m, gone, id).0;
            let (m2, r) = handshake_step(m1, a, c);
            &&& m1.next_id == m.next_id
            &&& m2.peers.last().player.id == m.next_id
            &&& m2.next_id == m.next_id + 1
            &&& r.last() == ServerAction::Reply(Message::Ack(m.next_id, c))
            &&& forall|i: int| 0 <= i < m.peers.len() ==> #[trigger] m.peers[i].player.id < m.next_id
        }),
{
}

} // verus!
