//! Session layer of a small networked multiplayer demo: the wire codec, the
//! client-side session state and the server's authoritative peer table.

use vstd::prelude::*;

pub mod client;
pub mod fsm;
pub mod globals;
pub mod message;
pub mod server;
pub mod wire;

verus! {

/// Player number handed out by the server, starting at 1.
pub type PlayerID = u64;

/// An RGB color quantized to 8 bits per channel, as it travels on the wire.
#[derive(PartialEq, Eq, Structural, Clone, Copy, Debug)]
pub struct Color {
    pub r: u8,
    pub g: u8,
    pub b: u8,
}

impl Color {
    /// The one color never handed to a player.
    pub open spec fn is_white(self) -> bool {
        self.r == 255 && self.g == 255 && self.b == 255
    }
}

/// A point or a displacement in whole world units.
#[derive(PartialEq, Eq, Structural, Clone, Copy, Debug)]
pub struct Point {
    pub x: i32,
    pub y: i32,
}

#[derive(PartialEq, Eq, Structural, Clone, Copy, Debug)]
pub struct Player {
    pub id: PlayerID,
    pub pos: Point,
    pub velocity: Point,
    pub color: Color,
}

/// A player at the origin, at rest, with the given identity.
pub open spec fn fresh_player(id: PlayerID, color: Color) -> Player {
    Player { id, pos: Point { x: 0, y: 0 }, velocity: Point { x: 0, y: 0 }, color }
}

impl Player {
    pub fn new(id: PlayerID, color: Color) -> (r: Player)
        ensures
            r == fresh_player(id, color),
    {
        Player { id, pos: Point { x: 0, y: 0 }, velocity: Point { x: 0, y: 0 }, color }
    }
}

impl Default for Player {
    fn default() -> (r: Player)
        ensures
            r == fresh_player(0, Color { r: 0, g: 0, b: 0 }),
    {
        Player::new(0, Color { r: 0, g: 0, b: 0 })
    }
}

/// A rectangle of the world, relative to the origin.
#[derive(PartialEq, Eq, Structural, Clone, Copy, Debug)]
pub struct WorldBounds {
    pub min_x: i32,
    pub min_y: i32,
    pub max_x: i32,
    pub max_y: i32,
}

} // verus!
