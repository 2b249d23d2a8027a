//! The player's pose, and movement that never ends in a wall.
//!
//! A move is tested at its target point only. A step longer than a cell can
//! therefore pass through a thin wall; keep steps shorter than a cell.

use vstd::prelude::*;
use crate::fixed::{clamp_i64, lemma_scaled_neg, mul_fixed, saturate, scaled, Direction};
use crate::maze::{blocked, blocked_at, grid, open_at};

verus! {

/// A point of the world in fixed-point coordinates.
#[derive(Clone, Copy, Debug, PartialEq, Eq, Structural)]
pub struct Point {
    pub x: i64,
    pub y: i64,
}

/// The player's pose: position, heading `a` and field of view `fov`, the
/// angles in fixed-point radians. The heading is never normalised.
#[derive(Clone, Copy, Debug, PartialEq, Eq, Structural)]
pub struct Player {
    pub pos: Point,
    pub a: i64,
    pub fov: i64,
}

/// The point at `distance` from `origin` along `dir`.
pub open spec fn point_along(origin: Point, dir: Direction, distance: int) -> (int, int) {
    (
        origin.x + scaled(distance, dir.cos as int),
        origin.y + scaled(distance, dir.sin as int),
    )
}

/// The pose after an attempt to step by `distance` along `dir`: at the
/// target if that lies in an empty cell, else where it was.
pub open spec fn moved(
    player: Player,
    grid: Seq<Seq<char>>,
    block_size: int,
    dir: Direction,
    distance: int,
) -> Player {
    let (x, y) = point_along(player.pos, dir, distance);
    if open_at(grid, block_size, x, y) {
        Player { pos: Point { x: x as i64, y: y as i64 }, ..player }
    } else {
        player
    }
}

/// A step forward and the same step back, neither of them stopped, end
/// where they began.
pub proof fn lemma_forward_then_backward(
    player: Player,
    grid: Seq<Seq<char>>,
    block_size: int,
    dir: Direction,
    distance: int,
)
    requires
        ({
            let (x, y) = point_along(player.pos, dir, distance);
            open_at(grid, block_size, x, y)
        }),
        ({
            let there = moved(player, grid, block_size, dir, distance);
            let (x, y) = point_along(there.pos, dir, -distance);
            open_at(grid, block_size, x, y)
        }),
    ensures
        moved(moved(player, grid, block_size, dir, distance), grid, block_size, dir, -distance)
            == player,
{
    lemma_scaled_neg(distance, dir.cos as int);
    lemma_scaled_neg(distance, dir.sin as int);
}

/// A player in an empty cell is in an empty cell after any step, taken or
/// not.
pub proof fn lemma_move_stays_open(
    player: Player,
    grid: Seq<Seq<char>>,
    block_size: int,
    dir: Direction,
    distance: int,
)
    requires
        open_at(grid, block_size, player.pos.x as int, player.pos.y as int),
    ensures
        ({
            let after = moved(player, grid, block_size, dir, distance);
            open_at(grid, block_size, after.pos.x as int, after.pos.y as int)
        }),
{
}

/// A step whose target lies in a wall, or outside the grid, changes nothing.
pub proof fn lemma_blocked_move_stays(
    player: Player,
    grid: Seq<Seq<char>>,
    block_size: int,
    dir: Direction,
    distance: int,
)
    requires
        ({
            let (x, y) = point_along(player.pos, dir, distance);
            blocked(grid, block_size, x, y)
        }),
    ensures
        moved(player, grid, block_size, dir, distance) == player,
{
}

impl Player {
    /// Steps `distance` along `dir`, the unit vector of the heading, unless
    /// the target lies in a wall or outside the grid.
    pub fn move_forward(
        &mut self,
        maze: &Vec<Vec<char>>,
        block_size: usize,
        dir: Direction,
        distance: i64,
    )
        requires
            block_size > 0,
        ensures
            *final(self) == moved(*old(self), grid(maze), block_size as int, dir, distance as int),
    {
        let x: i128 = self.pos.x as i128 + mul_fixed(distance, dir.cos);
        let y: i128 = self.pos.y as i128 + mul_fixed(distance, dir.sin);
        if !blocked_at(maze, block_size, x, y) {
            self.pos.x = x as i64;
            self.pos.y = y as i64;
        }
    }

    /// Steps `distance` against `dir`, the unit vector of the heading, unless
    /// the target lies in a wall or outside the grid.
    pub fn move_backward(
        &mut self,
        maze: &Vec<Vec<char>>,
        block_size: usize,
        dir: Direction,
        distance: i64,
    )
        requires
            block_size > 0,
        ensures
            *final(self) == moved(*old(self), grid(maze), block_size as int, dir, -(distance as int)),
    {
        let x: i128 = self.pos.x as i128 - mul_fixed(distance, dir.cos);
        let y: i128 = self.pos.y as i128 - mul_fixed(distance, dir.sin);
        proof {
            lemma_scaled_neg(distance as int, dir.cos as int);
            lemma_scaled_neg(distance as int, dir.sin as int);
        }
        if !blocked_at(maze, block_size, x, y) {
            self.pos.x = x as i64;
            self.pos.y = y as i64;
        }
    }

    /// Whether the point `(x, y)` lies in a wall or outside the grid.
    pub fn is_collision(&self, maze: &Vec<Vec<char>>, x: i64, y: i64, block_size: usize) -> (r:
        bool)
        requires
            block_size > 0,
        ensures
            r == blocked(grid(maze), block_size as int, x as int, y as int),
    {
        blocked_at(maze, block_size, x as i128, y as i128)
    }

    /// Turns the heading by `angle` toward smaller angles. The heading stops
    /// at the ends of `i64`.
    pub fn rotate_left(&mut self, angle: i64)
        ensures
            final(self).a == clamp_i64(old(self).a - angle),
            final(self).pos == old(self).pos,
            final(self).fov == old(self).fov,
    {
        self.a = saturate(self.a as i128 - angle as i128);
    }

    /// Turns the heading by `angle` toward larger angles. The heading stops
    /// at the ends of `i64`.
    pub fn rotate_right(&mut self, angle: i64)
        ensures
            final(self).a == clamp_i64(old(self).a + angle),
            final(self).pos == old(self).pos,
            final(self).fov == old(self).fov,
    {
        self.a = saturate(self.a as i128 + angle as i128);
    }
}

} // verus!
