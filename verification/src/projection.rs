//! From a ray's hit distance to the wall's span in a screen column.
//!
//! Rays are spread evenly over the field of view, column 0 at its left edge.
//! The distance is corrected for the fish-eye effect by the cosine of half
//! the field of view, the same factor for every column: an approximation,
//! exact only for the rays at the edges of the view.

use vstd::prelude::*;
use crate::fixed::{clamp_i64, mul_fixed, saturate, scaled, trunc_div};

verus! {

/// How far a ray is followed when a view is drawn: 1000 world units.
pub const MAX_DEPTH: i64 = 1_000_000_000;

/// The factor between the inverse distance and the wall height, 6 in fixed
/// point.
pub const WALL_SCALE: u64 = 6_000_000;

/// The angle of the ray for column `index` of `count`.
pub open spec fn angle_of_ray(heading: int, fov: int, index: int, count: int) -> int {
    heading - trunc_div(fov, 2) + trunc_div(index * fov, count)
}

/// The height in pixels of a wall at the corrected distance `corrected` on a
/// screen `screen_height` pixels high.
pub open spec fn wall_height(screen_height: int, corrected: int, factor: int) -> int {
    (screen_height * factor) / corrected
}

/// `v` held to `0..=limit`.
pub open spec fn clip(v: int, limit: int) -> int {
    if v < 0 {
        0
    } else if v > limit {
        limit
    } else {
        v
    }
}

/// The rows `start..end` that a wall at `distance` covers in its column: the
/// wall's height, centred on the middle of the screen and cut off at the
/// screen's edges. Nothing where the corrected distance is not positive.
pub open spec fn span_of(screen_height: int, distance: int, cos_half_fov: int, factor: int)
    -> Option<(int, int)> {
    let corrected = scaled(distance, cos_half_fov);
    if corrected <= 0 {
        None
    } else {
        let height = wall_height(screen_height, corrected, factor);
        let top = screen_height / 2 - height / 2;
        Some((clip(top, screen_height), clip(top + height, screen_height)))
    }
}

/// The first ray runs along the left edge of the field of view, and with a
/// field of view that is not negative each ray lies at or right of the one
/// before it, none of them beyond the right edge.
pub proof fn lemma_rays_spread(heading: int, fov: int, index: int, count: int)
    requires
        count > 0,
        0 <= index < count,
        fov >= 0,
    ensures
        angle_of_ray(heading, fov, 0, count) == heading - trunc_div(fov, 2),
        angle_of_ray(heading, fov, index, count) <= angle_of_ray(heading, fov, index + 1, count),
        angle_of_ray(heading, fov, index + 1, count) <= heading - trunc_div(fov, 2) + fov,
{
    assert(0 * fov == 0);
    let a = index * fov;
    let b = (index + 1) * fov;
    let c = count * fov;
    assert(0 <= a <= b <= c) by (nonlinear_arith)
        requires
            a == index * fov,
            b == (index + 1) * fov,
            c == count * fov,
            0 <= index < count,
            fov >= 0,
    ;
    vstd::arithmetic::div_mod::lemma_div_is_ordered(a, b, count);
    vstd::arithmetic::div_mod::lemma_div_is_ordered(b, c, count);
    vstd::arithmetic::div_mod::lemma_div_multiples_vanish(fov, count);
    assert(c == fov * count) by (nonlinear_arith)
        requires
            c == count * fov,
    ;
}

/// A wall that fits on the screen is drawn at its full height, and a higher
/// one fills the column.
pub proof fn lemma_span_height(screen_height: int, distance: int, cos_half_fov: int, factor: int)
    requires
        screen_height >= 0,
        factor >= 0,
        scaled(distance, cos_half_fov) > 0,
    ensures
        ({
            let height = wall_height(screen_height, scaled(distance, cos_half_fov), factor);
            &&& height >= 0
            &&& span_of(screen_height, distance, cos_half_fov, factor) matches Some((start, end))
            &&& 0 <= start <= end <= screen_height
            &&& end - start == if height <= screen_height {
                height
            } else {
                screen_height
            }
        }),
{
    let corrected = scaled(distance, cos_half_fov);
    let product = screen_height * factor;
    assert(product >= 0) by (nonlinear_arith)
        requires
            product == screen_height * factor,
            screen_height >= 0,
            factor >= 0,
    ;
    vstd::arithmetic::div_mod::lemma_div_pos_is_pos(product, corrected);
}

/// The angle of the ray for column `index` of `count`, held to the range of
/// `i64`.
pub fn ray_angle(heading: i64, fov: i64, index: usize, count: usize) -> (angle: i64)
    requires
        count > 0,
    ensures
        angle == clamp_i64(angle_of_ray(heading as int, fov as int, index as int, count as int)),
{
    let half: i64 = fov / 2;
    let wide_index: i128 = index as i128;
    let wide_fov: i128 = fov as i128;
    assert(-0x7fff_ffff_ffff_ffff_8000_0000_0000_0000 <= wide_index * wide_fov
        <= 0x7fff_ffff_ffff_ffff_8000_0000_0000_0000) by (nonlinear_arith)
        requires
            0 <= wide_index <= 0xffff_ffff_ffff_ffff,
            -0x8000_0000_0000_0000 <= wide_fov <= 0x7fff_ffff_ffff_ffff,
    ;
    let product: i128 = wide_index * wide_fov;
    let sweep: i128 = product / (count as i128);
    proof {
        let c = count as int;
        let size = if product >= 0 {
            product as int
        } else {
            -(product as int)
        };
        vstd::arithmetic::div_mod::lemma_div_pos_is_pos(size, c);
        vstd::arithmetic::div_mod::lemma_div_is_ordered_by_denominator(size, 1, c);
        assert(size / 1 == size);
        assert(0 <= size / c <= size);
        assert(sweep == trunc_div(product as int, c));
    }
    if sweep > 0x2_0000_0000_0000_0000 {
        i64::MAX
    } else if sweep < -0x2_0000_0000_0000_0000 {
        i64::MIN
    } else {
        saturate(heading as i128 - half as i128 + sweep)
    }
}

/// The rows `start..end` that a wall at `distance` covers in a column of a
/// screen `screen_height` pixels high, if it covers any.
pub fn wall_span(screen_height: usize, distance: i64, cos_half_fov: i64, factor: u64) -> (r: Option<
    (usize, usize),
>)
    ensures
        match span_of(screen_height as int, distance as int, cos_half_fov as int, factor as int) {
            Some((start, end)) => r == Some((start as usize, end as usize)) && 0 <= start <= end
                <= screen_height,
            None => r is None,
        },
{
    let corrected: i128 = mul_fixed(distance, cos_half_fov);
    if corrected <= 0 {
        return None;
    }
    let wide_height: u128 = screen_height as u128;
    let wide_factor: u128 = factor as u128;
    assert(wide_height * wide_factor <= 0xffff_ffff_ffff_ffff * 0xffff_ffff_ffff_ffff)
        by (nonlinear_arith)
        requires
            wide_height <= 0xffff_ffff_ffff_ffff,
            wide_factor <= 0xffff_ffff_ffff_ffff,
    ;
    let height: u128 = (wide_height * wide_factor) / (corrected as u128);
    proof {
        lemma_span_height(screen_height as int, distance as int, cos_half_fov as int, factor as int);
    }
    let middle: usize = screen_height / 2;
    let above: u128 = height / 2;
    let below: u128 = height - above;
    let start: usize = if above >= middle as u128 {
        0
    } else {
        middle - above as usize
    };
    let end: usize = if below >= (screen_height - middle) as u128 {
        screen_height
    } else {
        middle + below as usize
    };
    Some((start, end))
}

} // verus!
