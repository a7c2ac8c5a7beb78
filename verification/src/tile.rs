//! Tile locator: maps per-zoom pixel coordinates to integer tile
//! coordinates, and plane coordinates to per-zoom pixel coordinates.
//!
//! A node's plane position (fixed point, [`crate::PLANE_SCALE`]) is scaled
//! by `TILE_SIZE * 2^zoom` to a pixel position on the zoomed plane; a pixel
//! position is divided by [`crate::TILE_SIZE`] to a tile coordinate. Both
//! steps truncate toward zero — pixels just left of the origin land in
//! tile 0, not tile -1 — and tile-boundary correctness depends on keeping
//! that rounding exact.

use vstd::arithmetic::div_mod::{lemma_div_is_ordered, lemma_div_plus_one};
use vstd::arithmetic::power2::pow2;
use vstd::bits::lemma_u64_shl_is_mul;
use vstd::prelude::*;

use crate::{MAX_ZOOM, PLANE_LIMIT, PLANE_SCALE, TILE_SIZE};

verus! {

/// Largest magnitude a per-zoom pixel coordinate produced by
/// [`scale_plane_to_pixel`] can have: `PLANE_LIMIT * TILE_SIZE *
/// 2^MAX_ZOOM / PLANE_SCALE`.
pub const PIXEL_LIMIT: i64 = 0x4000_0000;

/// Division that truncates toward zero, the rounding Rust's casts and
/// integer `/` use. It differs from Euclidean division only for negative
/// dividends.
pub open spec fn trunc_div(a: int, b: int) -> int
    recommends
        b > 0,
{
    if a >= 0 {
        a / b
    } else {
        -((-a) / b)
    }
}

/// The pixel scale factor of a zoom level: `TILE_SIZE * 2^zoom`.
pub open spec fn spec_zoom_factor(zoom: nat) -> int {
    TILE_SIZE * pow2(zoom)
}

/// The per-zoom pixel coordinate of a plane coordinate.
pub open spec fn spec_pixel(c: int, zoom: nat) -> int {
    trunc_div(c * spec_zoom_factor(zoom), PLANE_SCALE as int)
}

/// The tile coordinate a pixel coordinate falls into.
pub open spec fn spec_tile(px: int) -> int {
    trunc_div(px, TILE_SIZE as int)
}

/// The pixel scale factor of a zoom level.
fn zoom_factor(zoom: u8) -> (f: i64)
    requires
        zoom <= MAX_ZOOM,
    ensures
        f == spec_zoom_factor(zoom as nat),
        0 < f <= 0x1000_0000,
{
    proof {
        vstd::arithmetic::power2::lemma2_to64();
        if zoom < 20 {
            vstd::arithmetic::power2::lemma_pow2_strictly_increases(zoom as nat, 20);
        }
        vstd::arithmetic::power2::lemma_pow2_pos(zoom as nat);
        assert(pow2(zoom as nat) <= 0x100000);
        assert((TILE_SIZE as u64) * pow2(zoom as nat) <= 0x10000000) by (nonlinear_arith)
            requires
                0 < pow2(zoom as nat) <= 0x100000,
        ;
        lemma_u64_shl_is_mul(TILE_SIZE as u64, zoom as u64);
        assert((TILE_SIZE as u64) * pow2(zoom as nat) > 0) by (nonlinear_arith)
            requires
                pow2(zoom as nat) > 0,
        ;
    }
    (((TILE_SIZE as u64) << (zoom as u64)) as i64)
}

/// Scale a plane coordinate to the pixel plane of a zoom level.
pub fn scale_plane_to_pixel(c: i64, zoom: u8) -> (px: i64)
    requires
        -PLANE_LIMIT <= c <= PLANE_LIMIT,
        zoom <= MAX_ZOOM,
    ensures
        px == spec_pixel(c as int, zoom as nat),
        -PIXEL_LIMIT <= px <= PIXEL_LIMIT,
{
    let f = zoom_factor(zoom);
    if c >= 0 {
        proof {
            assert(c * f <= 0x4000_0000_0000_0000) by (nonlinear_arith)
                requires
                    0 <= c <= 0x4_0000_0000 && 0 < f <= 0x1000_0000,
            ;
            assert(c * f >= 0) by (nonlinear_arith)
                requires
                    c >= 0 && f > 0,
            ;
            lemma_div_is_ordered(c * f, 0x4000_0000_0000_0000, PLANE_SCALE as int);
        }
        (c * f) / PLANE_SCALE
    } else {
        let neg = -c;
        proof {
            assert(neg * f <= 0x4000_0000_0000_0000) by (nonlinear_arith)
                requires
                    0 <= neg <= 0x4_0000_0000 && 0 < f <= 0x1000_0000,
            ;
            assert(neg * f >= 0) by (nonlinear_arith)
                requires
                    neg >= 0 && f > 0,
            ;
            lemma_div_is_ordered(neg * f, 0x4000_0000_0000_0000, PLANE_SCALE as int);
            assert((-(c as int)) * (f as int) == -((c as int) * (f as int))) by (nonlinear_arith);
        }
        -((neg * f) / PLANE_SCALE)
    }
}

/// The tile coordinates of a pixel position: each axis divided by the tile
/// edge length, truncating toward zero. The bound on the inputs is what
/// makes the result fit a 32-bit tile coordinate.
pub fn convert_to_int_tile(px: i64, py: i64) -> (res: (i32, i32))
    requires
        -0x80_0000_0000 < px < 0x80_0000_0000,
        -0x80_0000_0000 < py < 0x80_0000_0000,
    ensures
        res.0 == spec_tile(px as int),
        res.1 == spec_tile(py as int),
{
    (tile_axis(px), tile_axis(py))
}

/// One axis of the tile locator.
fn tile_axis(v: i64) -> (t: i32)
    requires
        -0x80_0000_0000 < v < 0x80_0000_0000,
    ensures
        t == spec_tile(v as int),
{
    if v >= 0 {
        proof {
            lemma_div_is_ordered(v as int, 0x80_0000_0000 - 1, TILE_SIZE as int);
        }
        (v / (TILE_SIZE as i64)) as i32
    } else {
        let neg = -v;
        proof {
            lemma_div_is_ordered(neg as int, 0x80_0000_0000 - 1, TILE_SIZE as int);
        }
        -((neg / (TILE_SIZE as i64)) as i32)
    }
}

/// A plane coordinate within [`crate::PLANE_LIMIT`] scales to a pixel
/// coordinate within [`PIXEL_LIMIT`], at any accepted zoom.
pub proof fn lemma_spec_pixel_bounded(c: int, zoom: nat)
    requires
        -PLANE_LIMIT <= c <= PLANE_LIMIT,
        zoom <= MAX_ZOOM,
    ensures
        -PIXEL_LIMIT <= spec_pixel(c, zoom) <= PIXEL_LIMIT,
{
    vstd::arithmetic::power2::lemma2_to64();
    if zoom < 20 {
        vstd::arithmetic::power2::lemma_pow2_strictly_increases(zoom, 20);
    }
    vstd::arithmetic::power2::lemma_pow2_pos(zoom);
    let f = spec_zoom_factor(zoom);
    assert(0 < f <= 0x10000000) by (nonlinear_arith)
        requires
            0 < pow2(zoom) <= 0x100000 && f == 256 * pow2(zoom),
    ;
    let a = if c >= 0 {
        c
    } else {
        -c
    };
    assert(a * f <= 0x4000_0000_0000_0000) by (nonlinear_arith)
        requires
            0 <= a <= 0x4_0000_0000 && 0 < f <= 0x1000_0000,
    ;
    assert(a * f >= 0) by (nonlinear_arith)
        requires
            a >= 0 && f > 0,
    ;
    lemma_div_is_ordered(a * f, 0x4000_0000_0000_0000, PLANE_SCALE as int);
    vstd::arithmetic::div_mod::lemma_div_pos_is_pos(a * f, PLANE_SCALE as int);
    if c < 0 {
        assert((c * f) == -(a * f)) by (nonlinear_arith)
            requires
                a == -c,
        ;
    }
}

/// A pixel coordinate within [`PIXEL_LIMIT`] lies in a tile within
/// [`crate::index::TILE_BOUND`].
pub proof fn lemma_spec_tile_bounded(px: int)
    requires
        -PIXEL_LIMIT <= px <= PIXEL_LIMIT,
    ensures
        -0x40_0000 <= spec_tile(px) <= 0x40_0000,
{
    let a = if px >= 0 {
        px
    } else {
        -px
    };
    lemma_div_is_ordered(a, PIXEL_LIMIT as int, TILE_SIZE as int);
    vstd::arithmetic::div_mod::lemma_div_pos_is_pos(a, TILE_SIZE as int);
}

/// Tile locator monotonicity: moving a pixel position right by exactly one
/// tile edge length moves the tile coordinate up by exactly one. Because
/// the locator truncates toward zero, the step that straddles the origin
/// (`-TILE_SIZE < px < 0`) is the one exception, and the hypothesis leaves
/// that band out.
pub proof fn lemma_tile_locator_monotonic(px: int)
    requires
        px >= 0 || px + TILE_SIZE <= 0,
    ensures
        spec_tile(px + TILE_SIZE) == spec_tile(px) + 1,
{
    let t = TILE_SIZE as int;
    if px >= 0 {
        lemma_div_plus_one(px, t);
    } else if px + t == 0 {
        assert(spec_tile(px) == -((t) / t));
        lemma_div_plus_one(0, t);
        assert(t / t == 1) by {
            vstd::arithmetic::div_mod::lemma_div_by_self(t);
        }
    } else {
        let a = -px - t;
        assert(a > 0);
        lemma_div_plus_one(a, t);
        assert((-px) / t == a / t + 1);
        assert(spec_tile(px + t) == -(a / t));
        assert(spec_tile(px) == -((-px) / t));
    }
}

} // verus!
