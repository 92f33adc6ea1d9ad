use vstd::prelude::*;

use crate::{Player, Point, WorldBounds};

verus! {

pub const DEFAULT_PORT: u16 = 8080;

/// Interval between two heartbeats sent by the server.
pub const PING_INTERVAL_MS: u64 = 20;

/// Window for joining a session, and for hearing from the server once joined.
pub const CONNECTION_TIMEOUT_MS: u64 = 5000;

/// Wait for an answer to one handshake before it is sent again.
pub const HANDSHAKE_RETRY_MS: u64 = 300;

/// Logic updates per second, on the server and in the client's game loop.
pub const MAX_LOGIC_UPDATE_PER_SEC: u64 = 60;

/// Side of the square that a player occupies.
pub const PLAYER_QUAD_SIZE: i32 = 24;

pub const WORLD_MIN_X: i32 = -1200;
pub const WORLD_MIN_Y: i32 = -1200;
pub const WORLD_MAX_X: i32 = 1200;
pub const WORLD_MAX_Y: i32 = 1200;

pub open spec fn spec_world_bounds() -> WorldBounds {
    WorldBounds { min_x: WORLD_MIN_X, min_y: WORLD_MIN_Y, max_x: WORLD_MAX_X, max_y: WORLD_MAX_Y }
}

/// The world, relative to the origin (0,0).
pub fn world_bounds() -> (r: WorldBounds)
    ensures
        r == spec_world_bounds(),
{
    WorldBounds { min_x: WORLD_MIN_X, min_y: WORLD_MIN_Y, max_x: WORLD_MAX_X, max_y: WORLD_MAX_Y }
}

pub open spec fn clamp(v: int, lo: int, hi: int) -> int {
    if v < lo {
        lo
    } else if v > hi {
        hi
    } else {
        v
    }
}

/// Where a player may stand: the world shrunk by half a player on every side.
pub open spec fn clamp_point(p: Point) -> Point {
    Point {
        x: clamp(p.x as int, WORLD_MIN_X + PLAYER_QUAD_SIZE / 2, WORLD_MAX_X - PLAYER_QUAD_SIZE / 2)
            as i32,
        y: clamp(p.y as int, WORLD_MIN_Y + PLAYER_QUAD_SIZE / 2, WORLD_MAX_Y - PLAYER_QUAD_SIZE / 2)
            as i32,
    }
}

pub open spec fn clamped(p: Player) -> Player {
    Player { pos: clamp_point(p.pos), ..p }
}

fn clamp_coordinate(v: i32, lo: i32, hi: i32) -> (r: i32)
    requires
        lo <= hi,
    ensures
        r == clamp(v as int, lo as int, hi as int),
{
    if v < lo {
        lo
    } else if v > hi {
        hi
    } else {
        v
    }
}

/// Keeps the whole of the player's square inside the world, each axis on its own.
pub fn clamp_player_to_bounds(player: &mut Player)
    ensures
        *final(player) == clamped(*old(player)),
{
    let half = PLAYER_QUAD_SIZE / 2;
    player.pos.x = clamp_coordinate(player.pos.x, WORLD_MIN_X + half, WORLD_MAX_X - half);
    player.pos.y = clamp_coordinate(player.pos.y, WORLD_MIN_Y + half, WORLD_MAX_Y - half);
}

/// Inside the world by at least half a player on every side.
pub open spec fn in_bounds(p: Point) -> bool {
    &&& WORLD_MIN_X + PLAYER_QUAD_SIZE / 2 <= p.x <= WORLD_MAX_X - PLAYER_QUAD_SIZE / 2
    &&& WORLD_MIN_Y + PLAYER_QUAD_SIZE / 2 <= p.y <= WORLD_MAX_Y - PLAYER_QUAD_SIZE / 2
}

/// Clamping puts a point in bounds, each axis by its own coordinate alone,
/// and leaves a point already in bounds where it is.
pub proof fn lemma_clamp_point(p: Point, q: Point)
    ensures
        in_bounds(clamp_point(p)),
        in_bounds(p) ==> clamp_point(p) == p,
        p.x == q.x ==> clamp_point(p).x == clamp_point(q).x,
        p.y == q.y ==> clamp_point(p).y == clamp_point(q).y,
        clamp_point(clamp_point(p)) == clamp_point(p),
{
}

} // verus!
