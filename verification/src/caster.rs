//! Ray marching: samples taken at a fixed step along a ray until one lies
//! in a wall or outside the grid.

use vstd::prelude::*;
use crate::fixed::{clamp_i64, mul_fixed, saturate, Direction};
use crate::maze::{blocked, blocked_at, grid};
use crate::player::{point_along, Player, Point};

verus! {

/// The distance between two samples of a ray: a tenth of a world unit.
pub const STEP: i64 = 100_000;

/// Where a ray met a wall: the distance marched, and the sample point, each
/// coordinate held to the range of `i64`.
#[derive(Clone, Copy, Debug, PartialEq, Eq, Structural)]
pub struct Hit {
    pub distance: i64,
    pub x: i64,
    pub y: i64,
}

/// `distance` is one at which a ray is sampled: a multiple of `STEP` from 0 on.
pub open spec fn on_march(distance: int) -> bool {
    distance >= 0 && distance % (STEP as int) == 0
}

/// The sample at `distance` lies in a wall or outside the grid.
pub open spec fn hits_at(
    grid: Seq<Seq<char>>,
    block_size: int,
    origin: Point,
    dir: Direction,
    distance: int,
) -> bool {
    let (x, y) = point_along(origin, dir, distance);
    blocked(grid, block_size, x, y)
}

/// No sample nearer than `limit` hits.
pub open spec fn clear_before(
    grid: Seq<Seq<char>>,
    block_size: int,
    origin: Point,
    dir: Direction,
    limit: int,
) -> bool {
    forall|d: int| on_march(d) && d < limit ==> !#[trigger] hits_at(grid, block_size, origin, dir, d)
}

/// The hit record for the sample at `distance`.
pub open spec fn hit_of(origin: Point, dir: Direction, distance: int) -> Hit {
    let (x, y) = point_along(origin, dir, distance);
    Hit { distance: distance as i64, x: clamp_i64(x) as i64, y: clamp_i64(y) as i64 }
}

/// `r` is what a ray from `origin` along `dir` yields within `max_depth`:
/// the first sample that hits, or nothing when no sample nearer than
/// `max_depth` hits.
pub open spec fn is_ray_result(
    grid: Seq<Seq<char>>,
    block_size: int,
    origin: Point,
    dir: Direction,
    max_depth: int,
    r: Option<Hit>,
) -> bool {
    match r {
        Some(hit) => {
            &&& on_march(hit.distance as int)
            &&& hit.distance < max_depth
            &&& hits_at(grid, block_size, origin, dir, hit.distance as int)
            &&& clear_before(grid, block_size, origin, dir, hit.distance as int)
            &&& hit == hit_of(origin, dir, hit.distance as int)
        },
        None => clear_before(grid, block_size, origin, dir, max_depth),
    }
}

/// What a ray from `origin` along `dir` yields within `max_depth`: the one
/// value that `is_ray_result` holds of.
pub open spec fn ray_hit(
    grid: Seq<Seq<char>>,
    block_size: int,
    origin: Point,
    dir: Direction,
    max_depth: int,
) -> Option<Hit> {
    choose|r: Option<Hit>| is_ray_result(grid, block_size, origin, dir, max_depth, r)
}

/// At most one value is the result of a ray.
pub proof fn lemma_ray_result_unique(
    grid: Seq<Seq<char>>,
    block_size: int,
    origin: Point,
    dir: Direction,
    max_depth: int,
    r1: Option<Hit>,
    r2: Option<Hit>,
)
    requires
        is_ray_result(grid, block_size, origin, dir, max_depth, r1),
        is_ray_result(grid, block_size, origin, dir, max_depth, r2),
    ensures
        r1 == r2,
{
}

/// Every ray has a result, and `ray_hit` is it.
pub proof fn lemma_ray_hit(
    grid: Seq<Seq<char>>,
    block_size: int,
    origin: Point,
    dir: Direction,
    max_depth: i64,
)
    ensures
        is_ray_result(
            grid,
            block_size,
            origin,
            dir,
            max_depth as int,
            ray_hit(grid, block_size, origin, dir, max_depth as int),
        ),
    decreases
            (if max_depth > 0 {
                max_depth as int
            } else {
                0
            }),
{
    if max_depth <= 0 {
        assert(is_ray_result(grid, block_size, origin, dir, max_depth as int, None));
    } else {
        // The last sample below `max_depth`, and the ray that ends before it.
        let last = (((max_depth - 1) / (STEP as int)) * STEP) as i64;
        lemma_ray_hit(grid, block_size, origin, dir, last);
        let before = ray_hit(grid, block_size, origin, dir, last as int);
        if before is Some {
            assert(is_ray_result(grid, block_size, origin, dir, max_depth as int, before));
        } else if hits_at(grid, block_size, origin, dir, last as int) {
            assert(is_ray_result(
                grid,
                block_size,
                origin,
                dir,
                max_depth as int,
                Some(hit_of(origin, dir, last as int)),
            ));
        } else {
            assert(is_ray_result(grid, block_size, origin, dir, max_depth as int, None));
        }
    }
}

/// A ray that starts in a wall, or outside the grid, hits at distance 0.
pub proof fn lemma_origin_in_wall(
    grid: Seq<Seq<char>>,
    block_size: int,
    origin: Point,
    dir: Direction,
    max_depth: i64,
)
    requires
        blocked(grid, block_size, origin.x as int, origin.y as int),
        max_depth > 0,
    ensures
        ray_hit(grid, block_size, origin, dir, max_depth as int) == Some(
            Hit { distance: 0, x: origin.x, y: origin.y },
        ),
{
    lemma_ray_hit(grid, block_size, origin, dir, max_depth);
    assert(0 * (dir.cos as int) == 0 && 0 * (dir.sin as int) == 0);
    assert(hits_at(grid, block_size, origin, dir, 0));
    assert(on_march(0));
}

/// A ray all of whose samples within `max_depth` lie in empty cells hits
/// nothing.
pub proof fn lemma_open_space_misses(
    grid: Seq<Seq<char>>,
    block_size: int,
    origin: Point,
    dir: Direction,
    max_depth: i64,
)
    requires
        forall|d: int|
            on_march(d) && d < max_depth ==> !#[trigger] hits_at(grid, block_size, origin, dir, d),
    ensures
        ray_hit(grid, block_size, origin, dir, max_depth as int) is None,
{
    lemma_ray_hit(grid, block_size, origin, dir, max_depth);
}

/// The hit is the nearest: a ray one of whose samples within `max_depth`
/// hits has a hit, and no sample that hits lies nearer than it.
pub proof fn lemma_hit_is_first(
    grid: Seq<Seq<char>>,
    block_size: int,
    origin: Point,
    dir: Direction,
    max_depth: i64,
    other: int,
)
    requires
        on_march(other),
        other < max_depth,
        hits_at(grid, block_size, origin, dir, other),
    ensures
        ray_hit(grid, block_size, origin, dir, max_depth as int) matches Some(hit)
            && hit.distance <= other,
{
    lemma_ray_hit(grid, block_size, origin, dir, max_depth);
}

/// Marches from the player's position along `dir` in steps of `STEP` and
/// returns the first sample nearer than `max_depth` that lies in a wall or
/// outside the grid.
pub fn cast_ray(
    maze: &Vec<Vec<char>>,
    player: &Player,
    dir: Direction,
    block_size: usize,
    max_depth: i64,
) -> (r: Option<Hit>)
    requires
        block_size > 0,
    ensures
        is_ray_result(grid(maze), block_size as int, player.pos, dir, max_depth as int, r),
        r == ray_hit(grid(maze), block_size as int, player.pos, dir, max_depth as int),
{
    let r = march(maze, player, dir, block_size, max_depth);
    proof {
        lemma_ray_result_unique(
            grid(maze),
            block_size as int,
            player.pos,
            dir,
            max_depth as int,
            r,
            ray_hit(grid(maze), block_size as int, player.pos, dir, max_depth as int),
        );
    }
    r
}

/// The march itself.
fn march(
    maze: &Vec<Vec<char>>,
    player: &Player,
    dir: Direction,
    block_size: usize,
    max_depth: i64,
) -> (r: Option<Hit>)
    requires
        block_size > 0,
    ensures
        is_ray_result(grid(maze), block_size as int, player.pos, dir, max_depth as int, r),
{
    let mut distance: i64 = 0;
    while distance < max_depth
        invariant
            block_size > 0,
            on_march(distance as int),
            clear_before(grid(maze), block_size as int, player.pos, dir, distance as int),
        decreases max_depth - distance,
    {
        let x: i128 = player.pos.x as i128 + mul_fixed(distance, dir.cos);
        let y: i128 = player.pos.y as i128 + mul_fixed(distance, dir.sin);
        if blocked_at(maze, block_size, x, y) {
            return Some(Hit { distance, x: saturate(x), y: saturate(y) });
        }
        if max_depth - distance <= STEP {
            return None;
        }
        distance = distance + STEP;
    }
    None
}

} // verus!
