//! Fixed-point numbers with six decimal places, held in `i64`.
//!
//! A length of one world unit is `ONE`; an angle of one radian is `ONE` too.

use vstd::prelude::*;

verus! {

/// The fixed-point representation of 1.
pub const ONE: i64 = 1_000_000;

/// The quotient of `a` by a positive `b`, rounded toward zero.
pub open spec fn trunc_div(a: int, b: int) -> int {
    if a >= 0 {
        a / b
    } else {
        -((-a) / b)
    }
}

/// The fixed-point product of two fixed-point numbers, rounded toward zero.
pub open spec fn scaled(a: int, b: int) -> int {
    trunc_div(a * b, ONE as int)
}

/// `v` brought into the range of `i64`.
pub open spec fn clamp_i64(v: int) -> int {
    if v < i64::MIN {
        i64::MIN as int
    } else if v > i64::MAX {
        i64::MAX as int
    } else {
        v
    }
}

/// The pixel that holds the fixed-point coordinate `coord` when a pixel is
/// one world unit wide; coordinates below 0 go to pixel 0.
pub open spec fn pixel_of(coord: int) -> int {
    if coord < 0 {
        0
    } else {
        coord / (ONE as int)
    }
}

/// A heading as its vector `(cos, sin)` in fixed point. A unit vector has
/// components between `-ONE` and `ONE`; nothing here depends on that.
#[derive(Clone, Copy, Debug)]
pub struct Direction {
    pub cos: i64,
    pub sin: i64,
}

/// Rounding toward zero is odd: negating a factor negates the product.
pub proof fn lemma_scaled_neg(a: int, b: int)
    ensures
        scaled(-a, b) == -scaled(a, b),
        scaled(a, -b) == -scaled(a, b),
{
    assert((-a) * b == -(a * b)) by (nonlinear_arith);
    assert(a * (-b) == -(a * b)) by (nonlinear_arith);
}

/// The fixed-point product of `a` and `b`, exact in `i128`.
pub fn mul_fixed(a: i64, b: i64) -> (r: i128)
    ensures
        r == scaled(a as int, b as int),
        -0x4000_0000_0000_0000_0000_0000_0000_0000 <= r <= 0x4000_0000_0000_0000_0000_0000_0000_0000,
{
    let wide_a: i128 = a as i128;
    let wide_b: i128 = b as i128;
    assert(-0x4000_0000_0000_0000_0000_0000_0000_0000 <= wide_a * wide_b
        <= 0x4000_0000_0000_0000_0000_0000_0000_0000) by (nonlinear_arith)
        requires
            -0x8000_0000_0000_0000 <= wide_a <= 0x8000_0000_0000_0000,
            -0x8000_0000_0000_0000 <= wide_b <= 0x8000_0000_0000_0000,
    ;
    let product: i128 = wide_a * wide_b;
    product / (ONE as i128)
}

/// `v` brought into the range of `i64`.
pub fn saturate(v: i128) -> (r: i64)
    ensures
        r == clamp_i64(v as int),
{
    if v < i64::MIN as i128 {
        i64::MIN
    } else if v > i64::MAX as i128 {
        i64::MAX
    } else {
        v as i64
    }
}

/// `v` as a `usize`, held to its range.
pub fn to_pixel(v: i128) -> (r: usize)
    ensures
        r == if v < 0 {
            0
        } else if v > usize::MAX {
            usize::MAX as int
        } else {
            v as int
        },
{
    if v < 0 {
        0
    } else if v > usize::MAX as i128 {
        usize::MAX
    } else {
        v as usize
    }
}

} // verus!
