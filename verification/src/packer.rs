//! Packing rasterised glyphs into one grayscale atlas image.
use vstd::prelude::*;
use crate::raster::{Bitmap, bitmap_width, bitmap_height, bitmap_pixels, lemma_put_pixel_frame};
use crate::glyph::GlyphData;

verus! {

/// Width and height of an atlas image.
#[derive(Debug)]
pub struct AtlasDimensions {
    pub x: u32,
    pub y: u32,
}

/// Bottom-right end of the glyph written last.
#[derive(Debug, Clone, Copy)]
pub struct LastWrittenEnd {
    pub x_pos: u32,
    pub y_pos: u32,
}

/// Top-left corner at which a glyph is written.
#[derive(Debug, Clone, Copy)]
pub struct GlyphStart {
    pub x_pos: u32,
    pub top_row_y: u32,
}

/// Bottom-right end of a written glyph and its height.
#[derive(Debug, Clone, Copy)]
pub struct GlyphEnd {
    pub x_pos: u32,
    pub y_pos: u32,
    pub height: u32,
}

/// Where the next glyph goes.
#[derive(Debug)]
pub struct Cursor {
    pub atlas_width: u32,
    pub last_written: LastWrittenEnd,
    pub padding: u32,
    pub current_top_row_y: u32,
    pub current_row_height: u32,
}

pub open spec fn u32_max() -> int {
    0xffff_ffff
}

pub open spec fn max(a: int, b: int) -> int {
    if a >= b { a } else { b }
}

/// `n` is `2^k` for some `k >= 0`.
pub open spec fn is_power_of_two(n: int) -> bool
    decreases n,
{
    if n <= 0 {
        false
    } else if n == 1 {
        true
    } else {
        n % 2 == 0 && is_power_of_two(n / 2)
    }
}

/// Doubling `p` until it reaches `n`.
pub open spec fn next_power_of_two_from(n: int, p: int) -> int
    decreases (if n > p { n - p } else { 0 }),
{
    if p <= 0 || p >= n {
        p
    } else {
        next_power_of_two_from(n, 2 * p)
    }
}

/// Smallest power of two that is at least `n` (1 for `n <= 1`).
pub open spec fn spec_next_power_of_two(n: int) -> int {
    next_power_of_two_from(n, 1)
}

/// Counting `r` up until `r * r` reaches `n`.
pub open spec fn ceil_sqrt_from(n: int, r: int) -> int
    decreases n - r,
{
    if r < 0 || r * r >= n {
        r
    } else {
        proof {
            assert(r <= r * r) by (nonlinear_arith)
                requires
                    r >= 0,
            ;
        }
        ceil_sqrt_from(n, r + 1)
    }
}

/// The spacing of `f32` values around `n >= 0`, searched from `u` upward by
/// doubling: the first `u` for which `n / u` fits in the 24 significant bits
/// of an `f32`.
pub open spec fn ulp_from(n: int, u: int) -> int
    decreases n - u,
{
    if u <= 0 || n < 0 || n / u < 0x100_0000 {
        u
    } else {
        proof {
            assert(n >= 2 * u) by (nonlinear_arith)
                requires
                    u > 0,
                    n / u >= 0x100_0000,
            ;
        }
        ulp_from(n, 2 * u)
    }
}

/// The spacing of `f32` values around `n >= 0` (1 below `2^24`).
pub open spec fn f32_ulp(n: int) -> int {
    ulp_from(n, 1)
}

/// `n as f32` for an integer `n >= 0`: the nearest multiple of the spacing,
/// an even multiple on a tie (round to nearest, ties to even).
pub open spec fn round_f32(n: int) -> int {
    let u = f32_ulp(n);
    let q = n / u;
    let r = n % u;
    if 2 * r < u {
        q * u
    } else if 2 * r > u {
        (q + 1) * u
    } else if q % 2 == 0 {
        q * u
    } else {
        (q + 1) * u
    }
}

/// `(total_area as f32 * 6.0).ceil() as u32`: the area as an `f32`, times
/// six rounded to an `f32` again, saturating at `u32::MAX`.
pub open spec fn area_with_overhead(total_area: int) -> int {
    let p = round_f32(6 * round_f32(total_area));
    if p > u32_max() {
        u32_max()
    } else {
        p
    }
}

/// `area_with_overhead(total_area) as f32`.
pub open spec fn overhead_f32(total_area: int) -> int {
    round_f32(area_with_overhead(total_area))
}

/// The smallest power of two `d`, searched from `d` upward by doubling, with
/// `k * d >= 2^24`.
pub open spec fn scale_from(k: int, d: int) -> int
    decreases 0x200_0000 - d,
{
    if k <= 0 || d <= 0 || k * d >= 0x100_0000 {
        d
    } else {
        proof {
            assert(d < 0x100_0000) by (nonlinear_arith)
                requires
                    k >= 1,
                    d >= 1,
                    k * d < 0x100_0000,
            ;
        }
        scale_from(k, 2 * d)
    }
}

/// Whether `sqrt(m)` rounds down to the integer `k >= 1` as an `f32`. With
/// `d = scale_from(k, 1)` (that is `2^(24 - floor(log2 k))`), the next `f32`
/// above `k` is `k + 2 / d`, so `sqrt(m)` rounds to `k` when it lies below
/// the midpoint `k + 1 / d`: when `(k * d + 1)^2 > m * d^2`. The square root
/// of an integer that is not a square is irrational and never equals the
/// midpoint.
pub open spec fn sqrt_rounds_down(m: int, k: int) -> bool {
    let d = scale_from(k, 1);
    k >= 1 && (k * d + 1) * (k * d + 1) > m * d * d
}

/// `(m as f32).sqrt().ceil()` for an integer `m` that is an `f32`: the square
/// root rounded to the nearest `f32`, then up to an integer.
pub open spec fn sqrt_ceil_f32(m: int) -> int {
    let s = spec_ceil_sqrt(m);
    if s * s == m {
        s
    } else if sqrt_rounds_down(m, s - 1) {
        s - 1
    } else {
        s
    }
}

/// Smallest `r >= 0` with `r * r >= n`.
pub open spec fn spec_ceil_sqrt(n: int) -> int {
    ceil_sqrt_from(n, 0)
}

/// `a / b` rounded up.
pub open spec fn ceil_div(a: int, b: int) -> int {
    (a + b - 1) / b
}

/// Width of the atlas for `total_area` pixels of glyphs:
/// `((with_overhead as f32).sqrt().ceil() as u32).next_power_of_two()`.
pub open spec fn atlas_width_for(total_area: int) -> int {
    spec_next_power_of_two(sqrt_ceil_f32(overhead_f32(total_area)))
}

/// Height of the atlas for `total_area` pixels of glyphs:
/// `((with_overhead as f32 / width as f32).ceil() as u32).next_power_of_two()`;
/// dividing by a power of two is exact in `f32`.
pub open spec fn atlas_height_for(total_area: int) -> int {
    spec_next_power_of_two(ceil_div(overhead_f32(total_area), atlas_width_for(total_area)))
}

proof fn lemma_next_power_of_two_from(n: int, p: int)
    requires
        p >= 1,
        is_power_of_two(p),
        p == 1 || p < 2 * n,
    ensures
        is_power_of_two(next_power_of_two_from(n, p)),
        next_power_of_two_from(n, p) >= n,
        next_power_of_two_from(n, p) >= p,
        next_power_of_two_from(n, p) == 1 || next_power_of_two_from(n, p) < 2 * n,
        next_power_of_two_from(n, p) == p || next_power_of_two_from(n, p) / 2 < n,
    decreases (if n > p { n - p } else { 0 }),
{
    if p < n {
        assert((2 * p) / 2 == p);
        assert(is_power_of_two(2 * p));
        lemma_next_power_of_two_from(n, 2 * p);
    }
}

/// The smallest power of two not below `n`: a power of two, at least `n`,
/// and its half is below `n` unless it is 1.
pub proof fn lemma_next_power_of_two(n: int)
    ensures
        is_power_of_two(spec_next_power_of_two(n)),
        spec_next_power_of_two(n) >= n,
        spec_next_power_of_two(n) >= 1,
        spec_next_power_of_two(n) == 1 || spec_next_power_of_two(n) / 2 < n,
        spec_next_power_of_two(n) == 1 || spec_next_power_of_two(n) < 2 * n,
{
    lemma_next_power_of_two_from(n, 1);
}

proof fn lemma_ceil_sqrt_from(n: int, r: int)
    requires
        r >= 0,
        r == 0 || (r - 1) * (r - 1) < n,
    ensures
        ceil_sqrt_from(n, r) >= r,
        ceil_sqrt_from(n, r) * ceil_sqrt_from(n, r) >= n,
        ceil_sqrt_from(n, r) == 0 || (ceil_sqrt_from(n, r) - 1) * (ceil_sqrt_from(n, r) - 1)
            < n,
    decreases n - r,
{
    if r * r < n {
        assert(r <= r * r) by (nonlinear_arith)
            requires
                r >= 0,
        ;
        lemma_ceil_sqrt_from(n, r + 1);
    }
}

/// `spec_ceil_sqrt(n)` is the least `r >= 0` with `r * r >= n`.
pub proof fn lemma_ceil_sqrt(n: int)
    ensures
        spec_ceil_sqrt(n) >= 0,
        spec_ceil_sqrt(n) * spec_ceil_sqrt(n) >= n,
        spec_ceil_sqrt(n) == 0 || (spec_ceil_sqrt(n) - 1) * (spec_ceil_sqrt(n) - 1) < n,
{
    lemma_ceil_sqrt_from(n, 0);
}

/// Smallest power of two that is at least `n`, as `u32::next_power_of_two`
/// computes it. That method overflows for `n > 2^31`.
pub fn next_power_of_two(n: u32) -> (r: u32)
    requires
        n <= 0x8000_0000,
    ensures
        r == spec_next_power_of_two(n as int),
{
    let mut p: u64 = 1;
    proof {
        assert(is_power_of_two(1));
    }
    while p < n as u64
        invariant
            1 <= p,
            p == 1 || p < 2 * n,
            is_power_of_two(p as int),
            next_power_of_two_from(n as int, p as int) == spec_next_power_of_two(n as int),
        decreases (if n > p { n - p } else { 0 }),
    {
        proof {
            assert((2 * p) / 2 == p as int);
            assert(is_power_of_two(2 * p as int));
        }
        p = p * 2;
    }
    p as u32
}

/// Smallest `r` with `r * r >= n`: the square root of `n`, rounded up.
pub fn ceil_sqrt(n: u64) -> (r: u64)
    requires
        n <= 0x1_0000_0000,
    ensures
        r == spec_ceil_sqrt(n as int),
        r <= 0x1_0000,
{
    let mut r: u64 = 0;
    while r * r < n
        invariant
            n <= 0x1_0000_0000,
            r <= 0x1_0000,
            r * r <= 0x1_0000_0000,
            ceil_sqrt_from(n as int, r as int) == spec_ceil_sqrt(n as int),
        decreases 0x1_0000 - r,
    {
        assert(r < 0x1_0000) by (nonlinear_arith)
            requires
                r * r < n,
                n <= 0x1_0000_0000,
        ;
        assert((r + 1) * (r + 1) <= 0x1_0000_0000) by (nonlinear_arith)
            requires
                r < 0x1_0000,
        ;
        r = r + 1;
    }
    r
}

proof fn lemma_ulp_from(n: int, u: int)
    requires
        n >= 0,
        u >= 1,
        is_power_of_two(u),
        u == 1 || n >= 0x100_0000 * (u / 2),
    ensures
        ulp_from(n, u) >= u,
        is_power_of_two(ulp_from(n, u)),
        n / ulp_from(n, u) < 0x100_0000,
        ulp_from(n, u) == 1 || n >= 0x100_0000 * (ulp_from(n, u) / 2),
    decreases n - u,
{
    if n / u >= 0x100_0000 {
        assert(n >= 0x100_0000 * u) by (nonlinear_arith)
            requires
                u > 0,
                n / u >= 0x100_0000,
        ;
        assert((2 * u) / 2 == u);
        assert(is_power_of_two(2 * u));
        lemma_ulp_from(n, 2 * u);
    }
}

/// An integer `n < 2^32` converted to `f32` is at most `2^32`.
proof fn lemma_round_f32_bound(n: int)
    requires
        0 <= n < 0x1_0000_0000,
    ensures
        0 <= round_f32(n) <= 0x1_0000_0000,
        n < 0x100_0000 ==> round_f32(n) == n,
{
    assert(is_power_of_two(1));
    lemma_ulp_from(n, 1);
    let v = f32_ulp(n);
    let q = n / v;
    let r = n % v;
    assert(0 <= r < v);
    assert(q >= 0);
    assert(q * v + r == n) by (nonlinear_arith)
        requires
            v >= 1,
            q == n / v,
            r == n % v,
    ;
    if v == 1 {
        assert(r == 0);
        assert(q == n);
    } else {
        assert(v / 2 < 256) by (nonlinear_arith)
            requires
                n >= 0x100_0000 * (v / 2),
                n < 0x1_0000_0000,
        ;
        assert(is_power_of_two(v / 2));
        assert(is_power_of_two(256)) by {
            reveal_with_fuel(is_power_of_two, 10);
        }
        lemma_powers_of_two_ordered(256, v / 2);
        assert(v <= 256);
        assert((q + 1) * v <= 0x1_0000_0000) by (nonlinear_arith)
            requires
                q < 0x100_0000,
                1 <= v <= 256,
        ;
        assert(q * v <= (q + 1) * v) by (nonlinear_arith)
            requires
                v >= 1,
        ;
        assert(n >= 0x100_0000);
    }
}

/// `n as f32` for an integer `n < 2^40`, as an integer.
pub fn round_to_f32(n: u64) -> (r: u64)
    requires
        n < 0x100_0000_0000,
    ensures
        r == round_f32(n as int),
{
    let mut u: u64 = 1;
    while n / u >= 0x100_0000
        invariant
            n < 0x100_0000_0000,
            u >= 1,
            u == 1 || u <= n,
            ulp_from(n as int, u as int) == f32_ulp(n as int),
        decreases n - u,
    {
        assert(n >= 2 * u) by (nonlinear_arith)
            requires
                u > 0,
                n / u >= 0x100_0000,
        ;
        u = 2 * u;
    }
    let q = n / u;
    let r = n % u;
    assert(q * u <= n) by (nonlinear_arith)
        requires
            u >= 1,
            q == n / u,
    ;
    assert((q + 1) * u <= n + u) by (nonlinear_arith)
        requires
            q * u <= n,
    ;
    if 2 * r < u {
        q * u
    } else if 2 * r > u {
        (q + 1) * u
    } else if q % 2 == 0 {
        q * u
    } else {
        (q + 1) * u
    }
}

proof fn lemma_scale_from(k: int, d: int)
    requires
        k >= 1,
        d >= 1,
        is_power_of_two(d),
        d == 1 || k * (d / 2) < 0x100_0000,
    ensures
        scale_from(k, d) >= 1,
        is_power_of_two(scale_from(k, d)),
        k * scale_from(k, d) >= 0x100_0000,
        scale_from(k, d) <= 0x200_0000,
    decreases 0x200_0000 - d,
{
    if k * d < 0x100_0000 {
        assert(d < 0x100_0000) by (nonlinear_arith)
            requires
                k >= 1,
                d >= 1,
                k * d < 0x100_0000,
        ;
        assert((2 * d) / 2 == d);
        assert(is_power_of_two(2 * d));
        lemma_scale_from(k, 2 * d);
    } else {
        if d > 1 {
            assert(d % 2 == 0);
            assert(d / 2 < 0x100_0000) by (nonlinear_arith)
                requires
                    k >= 1,
                    k * (d / 2) < 0x100_0000,
                    d / 2 >= 0,
            ;
        }
    }
}

/// When the square root of `m` rounds down to `k` as an `f32`, `m` is at most
/// `2 * k * k`.
proof fn lemma_rounds_down_bound(m: int, k: int)
    requires
        m >= 0,
        sqrt_rounds_down(m, k),
    ensures
        m <= 2 * k * k,
{
    assert(is_power_of_two(1));
    lemma_scale_from(k, 1);
    let d = scale_from(k, 1);
    let x = k * d;
    assert(x >= 0x100_0000);
    if m > 2 * k * k {
        assert(m * d * d >= (2 * k * k + 1) * d * d) by (nonlinear_arith)
            requires
                m >= 2 * k * k + 1,
                d >= 1,
        ;
        assert((2 * k * k + 1) * d * d == 2 * x * x + d * d) by (nonlinear_arith)
            requires
                x == k * d,
        ;
        assert(2 * x * x + d * d >= (x + 1) * (x + 1)) by (nonlinear_arith)
            requires
                x >= 0x100_0000,
                d >= 1,
        ;
    }
}

/// When `m < 2^24` is not a perfect square, its square root as an `f32` does
/// not round down to `k`, the integer below it.
proof fn lemma_small_no_round_down(m: int, k: int)
    requires
        k >= 1,
        k * k < m < 0x100_0000,
    ensures
        !sqrt_rounds_down(m, k),
{
    assert(is_power_of_two(1));
    lemma_scale_from(k, 1);
    let d = scale_from(k, 1);
    assert(k < 4096) by (nonlinear_arith)
        requires
            k >= 1,
            k * k < 0x100_0000,
    ;
    assert(d > 4096) by (nonlinear_arith)
        requires
            k * d >= 0x100_0000,
            1 <= k < 4096,
    ;
    assert(is_power_of_two(4096)) by {
        reveal_with_fuel(is_power_of_two, 14);
    }
    lemma_powers_of_two_ordered(d, 4096);
    assert(d >= 2 * k + 1);
    assert((k * d + 1) * (k * d + 1) <= m * d * d) by (nonlinear_arith)
        requires
            m >= k * k + 1,
            d >= 2 * k + 1,
            k >= 1,
    ;
}

/// Whether the square root of `m` rounds down to `k` as an `f32`.
pub fn sqrt_rounds_down_to(m: u64, k: u64) -> (r: bool)
    requires
        m <= 0x1_0000_0000,
        1 <= k <= 0x1_0000,
    ensures
        r == sqrt_rounds_down(m as int, k as int),
{
    let mut d: u64 = 1;
    let mut kd: u64 = k;
    proof {
        assert(is_power_of_two(1));
        lemma_scale_from(k as int, 1);
    }
    while kd < 0x100_0000
        invariant
            1 <= k <= 0x1_0000,
            1 <= d <= kd,
            kd == k * d,
            kd <= 0x200_0000,
            is_power_of_two(d as int),
            d == 1 || k * (d / 2) < 0x100_0000,
            scale_from(k as int, d as int) == scale_from(k as int, 1),
        decreases 0x200_0000 - d,
    {
        proof {
            assert((2 * d) / 2 == d as int);
            assert(is_power_of_two(2 * d as int));
        }
        d = 2 * d;
        kd = 2 * kd;
        assert(kd == k * d) by (nonlinear_arith)
            requires
                kd == 2 * (k * (d / 2)),
                d % 2 == 0,
        ;
    }
    assert(d * d <= 0x4_0000_0000_0000) by (nonlinear_arith)
        requires
            1 <= d <= 0x200_0000,
    ;
    let dd: u128 = (d as u128) * (d as u128);
    assert((kd + 1) * (kd + 1) <= 0x4_0000_0000_0000 * 2) by (nonlinear_arith)
        requires
            kd <= 0x200_0000,
    ;
    let lhs: u128 = ((kd + 1) as u128) * ((kd + 1) as u128);
    assert(m * dd <= 0x1_0000_0000 * 0x4_0000_0000_0000) by (nonlinear_arith)
        requires
            m <= 0x1_0000_0000,
            dd <= 0x4_0000_0000_0000,
    ;
    let rhs: u128 = (m as u128) * dd;
    assert(rhs == m * d * d) by (nonlinear_arith)
        requires
            rhs == m * dd,
            dd == d * d,
    ;
    assert(lhs == (k * d + 1) * (k * d + 1));
    lhs > rhs
}

proof fn lemma_ceil_div_le(a: int, x: int)
    requires
        x >= 1,
        0 <= a <= x * x,
    ensures
        0 <= ceil_div(a, x) <= x,
{
    assert((a + x - 1) / x <= x) by (nonlinear_arith)
        requires
            x >= 1,
            0 <= a <= x * x,
    ;
    assert((a + x - 1) / x >= 0) by (nonlinear_arith)
        requires
            x >= 1,
            0 <= a,
    ;
}

proof fn lemma_ceil_div_covers(a: int, x: int)
    requires
        x >= 1,
        0 <= a,
    ensures
        x * ceil_div(a, x) >= a,
{
    assert(x * ((a + x - 1) / x) >= a) by (nonlinear_arith)
        requires
            x >= 1,
            0 <= a,
    ;
}

proof fn lemma_next_power_of_two_monotone(a: int, b: int)
    requires
        a <= b,
        is_power_of_two(b),
    ensures
        spec_next_power_of_two(a) <= b,
{
    lemma_next_power_of_two(a);
    let r = spec_next_power_of_two(a);
    if r > b {
        lemma_powers_of_two_ordered(r, b);
    }
}

/// Of two powers of two, the larger is at least twice the smaller.
proof fn lemma_powers_of_two_ordered(r: int, b: int)
    requires
        is_power_of_two(r),
        is_power_of_two(b),
        r > b,
    ensures
        r / 2 >= b,
    decreases b,
{
    if b == 1 {
        assert(r % 2 == 0);
    } else {
        assert(r != 1);
        lemma_powers_of_two_ordered(r / 2, b / 2);
    }
}

/// The atlas is a power of two in each direction, no wider than 65536
/// pixels, at most twice as high as wide, and holds at least the glyph area
/// with its overhead (as an `f32`). While six times the area stays below
/// `2^24`, no rounding happens and the atlas is no higher than wide.
pub proof fn lemma_atlas_dimensions(total_area: int)
    requires
        0 <= total_area <= u32_max(),
    ensures
        is_power_of_two(atlas_width_for(total_area)),
        is_power_of_two(atlas_height_for(total_area)),
        1 <= atlas_width_for(total_area) <= 0x1_0000,
        1 <= atlas_height_for(total_area) <= 2 * atlas_width_for(total_area),
        atlas_width_for(total_area) * atlas_height_for(total_area) >= overhead_f32(total_area),
        6 * total_area < 0x100_0000 ==> atlas_height_for(total_area) <= atlas_width_for(
            total_area,
        ),
        0 <= overhead_f32(total_area) <= 0x1_0000_0000,
        0 <= ceil_div(overhead_f32(total_area), atlas_width_for(total_area)) <= 2
            * atlas_width_for(total_area),
{
    let a = total_area;
    lemma_round_f32_bound(a);
    let ra = round_f32(a);
    let p = round_f32(6 * ra);
    let wo = area_with_overhead(a);
    assert(0 <= wo <= u32_max()) by {
        assert(is_power_of_two(1));
        lemma_ulp_from(6 * ra, 1);
    }
    lemma_round_f32_bound(wo);
    let m = overhead_f32(a);
    let s = spec_ceil_sqrt(m);
    lemma_ceil_sqrt(m);
    assert(s <= 0x1_0000) by (nonlinear_arith)
        requires
            s >= 0,
            s == 0 || (s - 1) * (s - 1) < m,
            m <= 0x1_0000_0000,
    ;
    let root = sqrt_ceil_f32(m);
    let x = atlas_width_for(a);
    lemma_next_power_of_two(root);
    lemma_pow2_65536();
    lemma_next_power_of_two_monotone(root, 0x1_0000);
    if s * s == m || !sqrt_rounds_down(m, s - 1) {
        assert(root == s);
        assert(m <= x * x) by (nonlinear_arith)
            requires
                x >= s,
                s >= 0,
                s * s >= m,
        ;
    } else {
        assert(root == s - 1);
        lemma_rounds_down_bound(m, s - 1);
        assert(m <= 2 * x * x) by (nonlinear_arith)
            requires
                x >= s - 1,
                s - 1 >= 1,
                m <= 2 * (s - 1) * (s - 1),
        ;
    }
    assert(m <= 2 * x * x) by (nonlinear_arith)
        requires
            m <= x * x || m <= 2 * x * x,
            x >= 1,
    ;
    assert(ceil_div(m, x) <= 2 * x) by (nonlinear_arith)
        requires
            x >= 1,
            0 <= m <= 2 * x * x,
    ;
    assert(ceil_div(m, x) >= 0) by (nonlinear_arith)
        requires
            x >= 1,
            0 <= m,
    ;
    let c = ceil_div(m, x);
    let y = atlas_height_for(a);
    assert((2 * x) / 2 == x);
    assert(is_power_of_two(2 * x));
    lemma_next_power_of_two(c);
    lemma_next_power_of_two_monotone(c, 2 * x);
    lemma_ceil_div_covers(m, x);
    assert(x * y >= x * c) by (nonlinear_arith)
        requires
            y >= c,
            x >= 0,
    ;
    if 6 * a < 0x100_0000 {
        assert(ra == a);
        lemma_round_f32_bound(6 * a);
        assert(p == 6 * a);
        assert(wo == 6 * a);
        assert(m == 6 * a);
        if s * s != m {
            assert(s >= 1);
            if s - 1 >= 1 {
                lemma_small_no_round_down(m, s - 1);
            }
        }
        assert(m <= x * x) by (nonlinear_arith)
            requires
                x >= s,
                s >= 0,
                s * s >= m,
        ;
        lemma_ceil_div_le(m, x);
        lemma_next_power_of_two_monotone(c, x);
    }
}

proof fn lemma_pow2_65536()
    ensures
        is_power_of_two(0x1_0000),
{
    reveal_with_fuel(is_power_of_two, 18);
}

impl AtlasDimensions {
    /// A power-of-two atlas for glyphs covering `total_area` pixels, computed
    /// as `f32` arithmetic does: six times the area, rounded up, gives the
    /// area with overhead; the width is the next power of two above its
    /// square root rounded up, the height the next power of two above the
    /// area divided by the width, rounded up.
    pub fn new(total_area: u32) -> (r: AtlasDimensions)
        ensures
            r.x == atlas_width_for(total_area as int),
            r.y == atlas_height_for(total_area as int),
    {
        proof {
            lemma_atlas_dimensions(total_area as int);
            lemma_round_f32_bound(total_area as int);
        }
        let a = round_to_f32(total_area as u64);
        let p = round_to_f32(6 * a);
        let with_overhead: u64 = if p > 0xffff_ffff {
            0xffff_ffff
        } else {
            p
        };
        proof {
            lemma_round_f32_bound(with_overhead as int);
        }
        let m = round_to_f32(with_overhead);
        let s = ceil_sqrt(m);
        proof {
            lemma_ceil_sqrt(m as int);
        }
        assert(s * s <= 0x1_0000_0000) by (nonlinear_arith)
            requires
                s <= 0x1_0000,
        ;
        let root: u64 = if s * s == m {
            s
        } else if s >= 2 && sqrt_rounds_down_to(m, s - 1) {
            s - 1
        } else {
            s
        };
        assert(root == sqrt_ceil_f32(m as int));
        proof {
            lemma_next_power_of_two(root as int);
            lemma_pow2_65536();
            lemma_next_power_of_two_monotone(root as int, 0x1_0000);
        }
        let width = next_power_of_two(root as u32);
        let needed: u64 = (m + width as u64 - 1) / (width as u64);
        assert(needed <= 2 * width);
        let height = next_power_of_two(needed as u32);
        AtlasDimensions { x: width, y: height }
    }
}

/// Mathematical state of the cursor between glyphs.
pub struct PackState {
    pub last_x: int,
    pub last_y: int,
    pub top: int,
    pub row_height: int,
}

/// A point in the atlas.
pub struct PlacePoint {
    pub x: int,
    pub y: int,
}

/// Where a glyph `w` pixels wide starts when the cursor is in state `s`.
pub open spec fn start_of(s: PackState, padding: int, atlas_width: int, w: int) -> PlacePoint {
    if s.last_x + padding + w > atlas_width {
        PlacePoint { x: padding, y: s.top + s.row_height + padding }
    } else {
        PlacePoint { x: s.last_x + padding, y: s.top }
    }
}

/// The cursor state after a glyph of `w` x `h` pixels has been written.
pub open spec fn after_glyph(s: PackState, padding: int, atlas_width: int, w: int, h: int) -> PackState {
    let p = start_of(s, padding, atlas_width, w);
    PackState {
        last_x: p.x + w,
        last_y: p.y + h,
        top: max(s.top, p.y),
        row_height: max(s.row_height, h),
    }
}

pub open spec fn glyph_w(g: GlyphData) -> int {
    bitmap_width(g.spec_image()) as int
}

pub open spec fn glyph_h(g: GlyphData) -> int {
    bitmap_height(g.spec_image()) as int
}

/// Cursor state after writing all of `glyphs`, starting in state `s0`.
pub open spec fn state_after(
    s0: PackState,
    padding: int,
    atlas_width: int,
    glyphs: Seq<GlyphData>,
) -> PackState
    decreases glyphs.len(),
{
    if glyphs.len() == 0 {
        s0
    } else {
        after_glyph(
            state_after(s0, padding, atlas_width, glyphs.drop_last()),
            padding,
            atlas_width,
            glyph_w(glyphs.last()),
            glyph_h(glyphs.last()),
        )
    }
}

/// Top-left corner of glyph `i` when `glyphs` are written starting in state `s0`.
pub open spec fn start_at(
    s0: PackState,
    padding: int,
    atlas_width: int,
    glyphs: Seq<GlyphData>,
    i: int,
) -> PlacePoint {
    start_of(state_after(s0, padding, atlas_width, glyphs.take(i)), padding, atlas_width, glyph_w(glyphs[i]))
}

impl Cursor {
    pub open spec fn state(self) -> PackState {
        PackState {
            last_x: self.last_written.x_pos as int,
            last_y: self.last_written.y_pos as int,
            top: self.current_top_row_y as int,
            row_height: self.current_row_height as int,
        }
    }

    /// Where a glyph `glyph_width` pixels wide starts.
    pub open spec fn spec_next_glyph_start(self, glyph_width: u32) -> PlacePoint {
        start_of(self.state(), self.padding as int, self.atlas_width as int, glyph_width as int)
    }

    /// Computing the next start stays within `u32`.
    pub open spec fn start_in_u32(self, glyph_width: u32) -> bool {
        let s = self.state();
        &&& s.last_x + self.padding + glyph_width <= u32_max()
        &&& s.last_x + self.padding + glyph_width > self.atlas_width ==> s.top + s.row_height
            + self.padding <= u32_max()
    }

    /// A cursor at the top-left corner of an atlas of the given dimensions.
    pub fn new(dimensions: &AtlasDimensions, padding: u32) -> (r: Cursor)
        ensures
            r.atlas_width == dimensions.x,
            r.last_written.x_pos == 0,
            r.last_written.y_pos == 0,
            r.padding == padding,
            r.current_top_row_y == 0,
            r.current_row_height == 0,
    {
        Cursor {
            atlas_width: dimensions.x,
            last_written: LastWrittenEnd { x_pos: 0, y_pos: 0 },
            padding,
            current_top_row_y: 0,
            current_row_height: 0,
        }
    }

    /// Start of the next glyph: right of the last one, or at the start of a
    /// new row when it would reach past the atlas width.
    pub fn next_glyph_start(&self, glyph_width: u32, glyph_height: u32) -> (r: GlyphStart)
        requires
            self.start_in_u32(glyph_width),
        ensures
            r.x_pos == self.spec_next_glyph_start(glyph_width).x,
            r.top_row_y == self.spec_next_glyph_start(glyph_width).y,
    {
        if self.is_out_of_width(glyph_width) {
            self.move_to_next_row(glyph_height)
        } else {
            self.add_x_padding()
        }
    }

    /// Records a written glyph: its end becomes the last written end, the row
    /// grows to hold it and the row top moves down to its start if needed.
    pub fn advance(&mut self, start_pos: GlyphStart, ending_pos: GlyphEnd)
        ensures
            final(self).atlas_width == old(self).atlas_width,
            final(self).padding == old(self).padding,
            final(self).last_written.x_pos == ending_pos.x_pos,
            final(self).last_written.y_pos == ending_pos.y_pos,
            final(self).current_row_height == max(
                old(self).current_row_height as int,
                ending_pos.height as int,
            ),
            final(self).current_top_row_y == max(
                old(self).current_top_row_y as int,
                start_pos.top_row_y as int,
            ),
    {
        self.last_written.x_pos = ending_pos.x_pos;
        self.last_written.y_pos = ending_pos.y_pos;
        if ending_pos.height > self.current_row_height {
            self.current_row_height = ending_pos.height;
        }
        if start_pos.top_row_y > self.current_top_row_y {
            self.current_top_row_y = start_pos.top_row_y;
        }
    }

    /// Start right of the last written glyph, in the current row.
    pub fn add_x_padding(&self) -> (r: GlyphStart)
        requires
            self.last_written.x_pos + self.padding <= u32_max(),
        ensures
            r.x_pos == self.last_written.x_pos + self.padding,
            r.top_row_y == self.current_top_row_y,
    {
        GlyphStart {
            x_pos: self.last_written.x_pos + self.padding,
            top_row_y: self.current_top_row_y,
        }
    }

    /// Whether a glyph `glyph_width` pixels wide reaches past the atlas
    /// width when put right of the last written glyph.
    pub fn is_out_of_width(&self, glyph_width: u32) -> (r: bool)
        requires
            self.last_written.x_pos + self.padding + glyph_width <= u32_max(),
        ensures
            r == (self.last_written.x_pos + self.padding + glyph_width > self.atlas_width),
    {
        self.last_written.x_pos + self.padding + glyph_width > self.atlas_width
    }

    /// Start of a new row, below the tallest glyph written so far.
    pub fn move_to_next_row(&self, _glyph_height: u32) -> (r: GlyphStart)
        requires
            self.current_top_row_y + self.current_row_height + self.padding <= u32_max(),
        ensures
            r.x_pos == self.padding,
            r.top_row_y == self.current_top_row_y + self.current_row_height + self.padding,
    {
        GlyphStart {
            x_pos: self.padding,
            top_row_y: self.current_top_row_y + self.current_row_height + self.padding,
        }
    }
}

/// Pixel `(px, py)` lies in the `w` x `h` rectangle whose top-left corner is `(x, y)`.
pub open spec fn covers(x: int, y: int, w: int, h: int, px: int, py: int) -> bool {
    x <= px < x + w && y <= py < y + h
}

/// Writing glyph `i` (starting from state `s0`) stays within `u32` and within
/// an image of `image_width` x `image_height` pixels.
pub open spec fn step_fits(
    s0: PackState,
    padding: int,
    atlas_width: int,
    glyphs: Seq<GlyphData>,
    image_width: int,
    image_height: int,
    i: int,
) -> bool {
    let s = state_after(s0, padding, atlas_width, glyphs.take(i));
    let w = glyph_w(glyphs[i]);
    let h = glyph_h(glyphs[i]);
    let p = start_of(s, padding, atlas_width, w);
    &&& glyphs[i].spec_image().wf()
    &&& s.last_x + padding + w <= u32_max()
    &&& s.last_x + padding + w > atlas_width ==> s.top + s.row_height + padding <= u32_max()
    &&& p.x + w <= image_width
    &&& p.y + h <= image_height
}

/// Some glyph among the first `n` covers pixel `(px, py)`.
pub open spec fn covered_by_some(
    s0: PackState,
    padding: int,
    atlas_width: int,
    glyphs: Seq<GlyphData>,
    n: int,
    px: int,
    py: int,
) -> bool {
    exists|k: int|
        0 <= k < n && covers(
            #[trigger] start_at(s0, padding, atlas_width, glyphs, k).x,
            start_at(s0, padding, atlas_width, glyphs, k).y,
            glyph_w(glyphs[k]),
            glyph_h(glyphs[k]),
            px,
            py,
        )
}

/// The state after `n + 1` glyphs is the state after `n` advanced by glyph `n`.
pub proof fn lemma_state_step(
    s0: PackState,
    padding: int,
    atlas_width: int,
    glyphs: Seq<GlyphData>,
    n: int,
)
    requires
        0 <= n < glyphs.len(),
    ensures
        state_after(s0, padding, atlas_width, glyphs.take(n + 1)) == after_glyph(
            state_after(s0, padding, atlas_width, glyphs.take(n)),
            padding,
            atlas_width,
            glyph_w(glyphs[n]),
            glyph_h(glyphs[n]),
        ),
{
    let t = glyphs.take(n + 1);
    assert(t.drop_last() =~= glyphs.take(n));
    assert(t.last() == glyphs[n]);
}

/// Cursor state after writing glyphs of the given `(width, height)` sizes in
/// order, starting in state `s0`.
pub open spec fn state_after_sizes(
    s0: PackState,
    padding: int,
    atlas_width: int,
    sizes: Seq<(u32, u32)>,
) -> PackState
    decreases sizes.len(),
{
    if sizes.len() == 0 {
        s0
    } else {
        after_glyph(
            state_after_sizes(s0, padding, atlas_width, sizes.drop_last()),
            padding,
            atlas_width,
            sizes.last().0 as int,
            sizes.last().1 as int,
        )
    }
}

/// Top-left corner of glyph `i` when glyphs of `sizes` are written starting
/// in state `s0`.
pub open spec fn start_at_sizes(
    s0: PackState,
    padding: int,
    atlas_width: int,
    sizes: Seq<(u32, u32)>,
    i: int,
) -> PlacePoint {
    start_of(
        state_after_sizes(s0, padding, atlas_width, sizes.take(i)),
        padding,
        atlas_width,
        sizes[i].0 as int,
    )
}

/// The `(width, height)` sizes of `glyphs`, in order.
pub open spec fn glyph_sizes(glyphs: Seq<GlyphData>) -> Seq<(u32, u32)> {
    Seq::new(
        glyphs.len(),
        |i: int| (bitmap_width(glyphs[i].spec_image()), bitmap_height(glyphs[i].spec_image())),
    )
}

/// What holds of the first `n` glyphs written and the cursor after them.
pub open spec fn layout_invariant(
    s0: PackState,
    padding: int,
    atlas_width: int,
    sizes: Seq<(u32, u32)>,
    n: int,
) -> bool {
    let s = state_after_sizes(s0, padding, atlas_width, sizes.take(n));
    &&& 0 <= s.last_x
    &&& 0 <= s.top
    &&& 0 <= s.row_height
    &&& forall|k: int|
        0 <= k < n ==> {
            let q = #[trigger] start_at_sizes(s0, padding, atlas_width, sizes, k);
            &&& 0 <= q.x
            &&& 0 <= q.y
            &&& q.y + sizes[k].1 <= s.top + s.row_height
            &&& (q.y + sizes[k].1 <= s.top || q.x + sizes[k].0 <= s.last_x)
        }
}

proof fn lemma_state_step_sizes(
    s0: PackState,
    padding: int,
    atlas_width: int,
    sizes: Seq<(u32, u32)>,
    n: int,
)
    requires
        0 <= n < sizes.len(),
    ensures
        state_after_sizes(s0, padding, atlas_width, sizes.take(n + 1)) == after_glyph(
            state_after_sizes(s0, padding, atlas_width, sizes.take(n)),
            padding,
            atlas_width,
            sizes[n].0 as int,
            sizes[n].1 as int,
        ),
{
    let t = sizes.take(n + 1);
    assert(t.drop_last() =~= sizes.take(n));
    assert(t.last() == sizes[n]);
}

proof fn lemma_layout_invariant(
    s0: PackState,
    padding: int,
    atlas_width: int,
    sizes: Seq<(u32, u32)>,
    n: int,
)
    requires
        0 <= n <= sizes.len(),
        0 <= padding,
        0 <= s0.last_x,
        0 <= s0.top,
        0 <= s0.row_height,
    ensures
        layout_invariant(s0, padding, atlas_width, sizes, n),
    decreases n,
{
    if n == 0 {
        assert(sizes.take(0) =~= Seq::<(u32, u32)>::empty());
    } else {
        let m = n - 1;
        lemma_layout_invariant(s0, padding, atlas_width, sizes, m);
        lemma_state_step_sizes(s0, padding, atlas_width, sizes, m);
        let s = state_after_sizes(s0, padding, atlas_width, sizes.take(m));
        let s2 = state_after_sizes(s0, padding, atlas_width, sizes.take(n));
        assert forall|k: int| 0 <= k < n implies {
            let q = #[trigger] start_at_sizes(s0, padding, atlas_width, sizes, k);
            &&& 0 <= q.x
            &&& 0 <= q.y
            &&& q.y + sizes[k].1 <= s2.top + s2.row_height
            &&& (q.y + sizes[k].1 <= s2.top || q.x + sizes[k].0 <= s2.last_x)
        } by {
            let q = start_at_sizes(s0, padding, atlas_width, sizes, k);
            if k < m {
                assert(q.y + sizes[k].1 <= s.top + s.row_height);
            }
        }
    }
}

/// One `next_glyph_start` call followed by `advance` with the glyph's end
/// (start plus the glyph's width and height) moves the cursor state by
/// `after_glyph`.
pub proof fn lemma_cursor_call_step(c: Cursor, w: u32, h: u32)
    ensures
        ({
            let st = c.spec_next_glyph_start(w);
            PackState {
                last_x: st.x + w,
                last_y: st.y + h,
                top: max(c.state().top, st.y),
                row_height: max(c.state().row_height, h as int),
            } == after_glyph(c.state(), c.padding as int, c.atlas_width as int, w as int, h as int)
        }),
{
}

/// Glyphs placed by any sequence of cursor calls never share a pixel. After
/// glyphs of `sizes` have been placed from cursor `c0` (each by
/// `next_glyph_start` and then `advance` with the glyph's end), the next
/// glyph of `w` x `h` pixels starts at or right of the padding, lies within
/// the atlas width when `w` plus the padding does, and covers no pixel of
/// any earlier glyph.
pub proof fn lemma_cursor_placements_disjoint(c0: Cursor, sizes: Seq<(u32, u32)>, w: u32, h: u32)
    ensures
        ({
            let s0 = c0.state();
            let pad = c0.padding as int;
            let aw = c0.atlas_width as int;
            let q = start_of(state_after_sizes(s0, pad, aw, sizes), pad, aw, w as int);
            &&& pad <= q.x
            &&& w + pad <= aw ==> q.x + w <= aw
            &&& forall|k: int, px: int, py: int|
                #![trigger start_at_sizes(s0, pad, aw, sizes, k), covers(q.x, q.y, w as int, h as int, px, py)]
                0 <= k < sizes.len() ==> !(covers(
                    start_at_sizes(s0, pad, aw, sizes, k).x,
                    start_at_sizes(s0, pad, aw, sizes, k).y,
                    sizes[k].0 as int,
                    sizes[k].1 as int,
                    px,
                    py,
                ) && covers(q.x, q.y, w as int, h as int, px, py))
        }),
{
    let s0 = c0.state();
    let pad = c0.padding as int;
    let aw = c0.atlas_width as int;
    let n = sizes.len() as int;
    lemma_layout_invariant(s0, pad, aw, sizes, n);
    assert(sizes.take(n) =~= sizes);
    let s = state_after_sizes(s0, pad, aw, sizes);
    let q = start_of(s, pad, aw, w as int);
    assert forall|k: int, px: int, py: int|
        #![trigger start_at_sizes(s0, pad, aw, sizes, k), covers(q.x, q.y, w as int, h as int, px, py)]
        0 <= k < n implies !(covers(
        start_at_sizes(s0, pad, aw, sizes, k).x,
        start_at_sizes(s0, pad, aw, sizes, k).y,
        sizes[k].0 as int,
        sizes[k].1 as int,
        px,
        py,
    ) && covers(q.x, q.y, w as int, h as int, px, py)) by {
        let qk = start_at_sizes(s0, pad, aw, sizes, k);
        assert(qk.y + sizes[k].1 <= s.top + s.row_height);
        assert(qk.y + sizes[k].1 <= s.top || qk.x + sizes[k].0 <= s.last_x);
    }
}

/// The cursor state after `glyphs` is the state after their sizes.
proof fn lemma_state_after_glyph_sizes(
    s0: PackState,
    padding: int,
    atlas_width: int,
    glyphs: Seq<GlyphData>,
)
    ensures
        state_after(s0, padding, atlas_width, glyphs) == state_after_sizes(
            s0,
            padding,
            atlas_width,
            glyph_sizes(glyphs),
        ),
    decreases glyphs.len(),
{
    if glyphs.len() > 0 {
        lemma_state_after_glyph_sizes(s0, padding, atlas_width, glyphs.drop_last());
        assert(glyph_sizes(glyphs.drop_last()) =~= glyph_sizes(glyphs).drop_last());
    } else {
        assert(glyph_sizes(glyphs).len() == 0);
    }
}

/// Two glyphs written by one `pack_to_atlas` call cover no common pixel.
pub proof fn lemma_glyphs_disjoint(
    s0: PackState,
    padding: int,
    atlas_width: int,
    glyphs: Seq<GlyphData>,
    k: int,
    i: int,
    px: int,
    py: int,
)
    requires
        0 <= k < i < glyphs.len(),
        0 <= padding,
        0 <= s0.last_x,
        0 <= s0.top,
        0 <= s0.row_height,
    ensures
        !(covers(
            start_at(s0, padding, atlas_width, glyphs, k).x,
            start_at(s0, padding, atlas_width, glyphs, k).y,
            glyph_w(glyphs[k]),
            glyph_h(glyphs[k]),
            px,
            py,
        ) && covers(
            start_at(s0, padding, atlas_width, glyphs, i).x,
            start_at(s0, padding, atlas_width, glyphs, i).y,
            glyph_w(glyphs[i]),
            glyph_h(glyphs[i]),
            px,
            py,
        )),
        0 <= start_at(s0, padding, atlas_width, glyphs, k).x,
        0 <= start_at(s0, padding, atlas_width, glyphs, k).y,
{
    let sz = glyph_sizes(glyphs);
    lemma_layout_invariant(s0, padding, atlas_width, sz, i);
    lemma_state_after_glyph_sizes(s0, padding, atlas_width, glyphs.take(k));
    lemma_state_after_glyph_sizes(s0, padding, atlas_width, glyphs.take(i));
    assert(glyph_sizes(glyphs.take(k)) =~= sz.take(k));
    assert(glyph_sizes(glyphs.take(i)) =~= sz.take(i));
    let qk = start_at_sizes(s0, padding, atlas_width, sz, k);
    assert(start_at(s0, padding, atlas_width, glyphs, k) == qk);
    assert(start_at(s0, padding, atlas_width, glyphs, i) == start_of(
        state_after_sizes(s0, padding, atlas_width, sz.take(i)),
        padding,
        atlas_width,
        glyph_w(glyphs[i]),
    ));
    assert(0 <= qk.x);
}


/// `p` records glyph `i` of `glyphs` written from cursor `c0`.
pub open spec fn packed_matches(p: PackedGlyph, c0: Cursor, glyphs: Seq<GlyphData>, i: int) -> bool {
    let q = start_at(c0.state(), c0.padding as int, c0.atlas_width as int, glyphs, i);
    let w = glyph_w(glyphs[i]);
    let h = glyph_h(glyphs[i]);
    &&& p.ch == glyphs[i].spec_ch()
    &&& p.width == w
    &&& p.height == h
    &&& p.start.x_pos == q.x
    &&& p.start.top_row_y == q.y
    &&& p.end.x_pos == q.x + w
    &&& p.end.y_pos == q.y + h
    &&& p.end.height == h
}

/// Packs rasterised glyphs into one grayscale image.
pub struct Packer {
    image: Bitmap,
    cursor: Cursor,
}

/// A glyph as placed by the packer.
pub struct PackedGlyph {
    pub ch: char,
    pub width: u32,
    pub height: u32,
    pub start: GlyphStart,
    pub end: GlyphEnd,
}

/// The packed image and where each glyph went, in the order given.
pub struct AtlasLayout {
    pub image: Bitmap,
    pub glyphs: Vec<PackedGlyph>,
}

impl Packer {
    pub closed spec fn atlas(self) -> Bitmap {
        self.image
    }

    pub closed spec fn cursor(self) -> Cursor {
        self.cursor
    }

    /// The image is well formed and the cursor wraps rows at its width.
    pub open spec fn wf(self) -> bool {
        &&& self.atlas().wf()
        &&& self.cursor().atlas_width == bitmap_width(self.atlas())
    }

    /// Every glyph of `glyphs`, written from the current cursor, fits in
    /// the image and in `u32` arithmetic.
    pub open spec fn fits(self, glyphs: Seq<GlyphData>) -> bool {
        forall|i: int|
            0 <= i < glyphs.len() ==> #[trigger] step_fits(
                self.cursor().state(),
                self.cursor().padding as int,
                self.cursor().atlas_width as int,
                glyphs,
                bitmap_width(self.atlas()) as int,
                bitmap_height(self.atlas()) as int,
                i,
            )
    }

    /// A packer with an empty atlas sized for `area` pixels of glyphs and
    /// two pixels of padding between glyphs.
    pub fn new(area: u32) -> (r: Packer)
        requires
            atlas_width_for(area as int) * atlas_height_for(area as int) <= usize::MAX,
        ensures
            r.wf(),
            bitmap_width(r.atlas()) == atlas_width_for(area as int),
            bitmap_height(r.atlas()) == atlas_height_for(area as int),
            forall|i: int| 0 <= i < bitmap_pixels(r.atlas()).len() ==> bitmap_pixels(r.atlas())[i] == 0,
            r.cursor().padding == 2,
            r.cursor().state() == (PackState { last_x: 0, last_y: 0, top: 0, row_height: 0 }),
    {
        let dimensions = AtlasDimensions::new(area);
        let image = Bitmap::new(dimensions.x, dimensions.y);
        let padding: u32 = 2;
        let cursor = Cursor::new(&dimensions, padding);
        Packer { image, cursor }
    }

    /// Packs `glyphs` in order, row by row from the current cursor, copying
    /// each glyph's pixels into the atlas. Returns a copy of the atlas and
    /// where each glyph went. Every glyph's pixels can be read back at its
    /// place; pixels that no glyph covers keep their value.
    pub fn pack_to_atlas(&mut self, glyphs: &[GlyphData]) -> (r: AtlasLayout)
        requires
            old(self).wf(),
            old(self).fits(glyphs@),
        ensures
            final(self).wf(),
            bitmap_width(final(self).atlas()) == bitmap_width(old(self).atlas()),
            bitmap_height(final(self).atlas()) == bitmap_height(old(self).atlas()),
            final(self).cursor().atlas_width == old(self).cursor().atlas_width,
            final(self).cursor().padding == old(self).cursor().padding,
            final(self).cursor().state() == state_after(
                old(self).cursor().state(),
                old(self).cursor().padding as int,
                old(self).cursor().atlas_width as int,
                glyphs@,
            ),
            r.glyphs.len() == glyphs.len(),
            forall|i: int|
                0 <= i < glyphs.len() ==> packed_matches(
                    #[trigger] r.glyphs[i],
                    old(self).cursor(),
                    glyphs@,
                    i,
                ),
            forall|i: int, gx: int, gy: int|
                0 <= i < glyphs.len() && 0 <= gx < glyph_w(glyphs@[i]) && 0 <= gy < glyph_h(
                    glyphs@[i],
                ) ==> final(self).atlas().at(
                    start_at(
                        old(self).cursor().state(),
                        old(self).cursor().padding as int,
                        old(self).cursor().atlas_width as int,
                        glyphs@,
                        i,
                    ).x + gx,
                    start_at(
                        old(self).cursor().state(),
                        old(self).cursor().padding as int,
                        old(self).cursor().atlas_width as int,
                        glyphs@,
                        i,
                    ).y + gy,
                ) == #[trigger] glyphs@[i].spec_image().at(gx, gy),
            forall|px: int, py: int|
                0 <= px < bitmap_width(old(self).atlas()) && 0 <= py < bitmap_height(
                    old(self).atlas(),
                ) && !covered_by_some(
                    old(self).cursor().state(),
                    old(self).cursor().padding as int,
                    old(self).cursor().atlas_width as int,
                    glyphs@,
                    glyphs.len() as int,
                    px,
                    py,
                ) ==> #[trigger] final(self).atlas().at(px, py) == old(self).atlas().at(px, py),
            bitmap_width(r.image) == bitmap_width(final(self).atlas()),
            bitmap_height(r.image) == bitmap_height(final(self).atlas()),
            bitmap_pixels(r.image) == bitmap_pixels(final(self).atlas()),
    {
        let ghost g = glyphs@;
        let ghost c0 = self.cursor;
        let ghost s0 = self.cursor.state();
        let ghost pad = self.cursor.padding as int;
        let ghost aw = self.cursor.atlas_width as int;
        let ghost before = self.image;
        let ghost iw = bitmap_width(before) as int;
        let ghost ih = bitmap_height(before) as int;
        let mut placed: Vec<PackedGlyph> = Vec::new();
        let mut i: usize = 0;
        assert(g.take(0) =~= Seq::<GlyphData>::empty());
        while i < glyphs.len()
            invariant
                g == glyphs@,
                c0 == old(self).cursor,
                s0 == c0.state(),
                pad == c0.padding,
                aw == c0.atlas_width,
                before == old(self).image,
                iw == bitmap_width(before),
                ih == bitmap_height(before),
                old(self).fits(g),
                self.wf(),
                bitmap_width(self.image) == iw,
                bitmap_height(self.image) == ih,
                self.cursor.padding == c0.padding,
                self.cursor.atlas_width == c0.atlas_width,
                0 <= i <= g.len(),
                self.cursor.state() == state_after(s0, pad, aw, g.take(i as int)),
                placed.len() == i,
                forall|k: int| 0 <= k < i ==> packed_matches(#[trigger] placed[k], c0, g, k),
                forall|k: int, gx: int, gy: int|
                    0 <= k < i && 0 <= gx < glyph_w(g[k]) && 0 <= gy < glyph_h(g[k])
                        ==> self.image.at(
                        start_at(s0, pad, aw, g, k).x + gx,
                        start_at(s0, pad, aw, g, k).y + gy,
                    ) == #[trigger] g[k].spec_image().at(gx, gy),
                forall|px: int, py: int|
                    0 <= px < iw && 0 <= py < ih && !covered_by_some(s0, pad, aw, g, i as int, px, py)
                        ==> #[trigger] self.image.at(px, py) == before.at(px, py),
            decreases g.len() - i,
        {
            let glyph = &glyphs[i];
            let glyph_width: u32 = glyph.image().width();
            let glyph_height: u32 = glyph.image().height();
            proof {
                assert(old(self).cursor() == c0);
                assert(old(self).atlas() == before);
                assert(old(self).fits(g));
                assert(step_fits(s0, pad, aw, g, iw, ih, i as int));
                lemma_state_step(s0, pad, aw, g, i as int);
            }
            let start = self.cursor.next_glyph_start(glyph_width, glyph_height);
            let ghost mid = self.image;
            let end = self.write_glyph(glyph, &start);
            self.cursor.advance(start, end);
            placed.push(
                PackedGlyph {
                    ch: glyph.character(),
                    width: glyph_width,
                    height: glyph_height,
                    start,
                    end,
                },
            );
            proof {
                let q = start_at(s0, pad, aw, g, i as int);
                assert(q.x == start.x_pos && q.y == start.top_row_y);
                assert forall|k: int, gx: int, gy: int|
                    0 <= k < i + 1 && 0 <= gx < glyph_w(g[k]) && 0 <= gy < glyph_h(g[k])
                        implies self.image.at(
                        start_at(s0, pad, aw, g, k).x + gx,
                        start_at(s0, pad, aw, g, k).y + gy,
                    ) == #[trigger] g[k].spec_image().at(gx, gy) by {
                    let qk = start_at(s0, pad, aw, g, k);
                    assert(step_fits(s0, pad, aw, g, iw, ih, k));
                    if k < i {
                        lemma_glyphs_disjoint(
                            s0,
                            pad,
                            aw,
                            g,
                            k,
                            i as int,
                            qk.x + gx,
                            qk.y + gy,
                        );
                        assert(mid.at(qk.x + gx, qk.y + gy) == g[k].spec_image().at(gx, gy));
                        assert(self.image.at(qk.x + gx, qk.y + gy) == mid.at(qk.x + gx, qk.y + gy));
                    } else {
                        assert(qk == q);
                        assert(covers(q.x, q.y, glyph_w(g[k]), glyph_h(g[k]), qk.x + gx, qk.y + gy));
                        assert(self.image.at(qk.x + gx, qk.y + gy) == glyph.spec_image().at(gx, gy));
                    }
                }
                assert forall|px: int, py: int|
                    0 <= px < iw && 0 <= py < ih && !covered_by_some(
                        s0,
                        pad,
                        aw,
                        g,
                        i + 1,
                        px,
                        py,
                    ) implies #[trigger] self.image.at(px, py) == before.at(px, py) by {
                    assert(!covers(q.x, q.y, glyph_w(g[i as int]), glyph_h(g[i as int]), px, py));
                    assert(!covered_by_some(s0, pad, aw, g, i as int, px, py));
                    assert(mid.at(px, py) == before.at(px, py));
                }
                lemma_state_step(s0, pad, aw, g, i as int);
            }
            i = i + 1;
        }
        assert(g.take(g.len() as int) =~= g);
        let image = self.image.duplicate();
        AtlasLayout { image, glyphs: placed }
    }

    /// Whether `pack_to_atlas` can write all of `glyphs` from the current
    /// cursor: every glyph image is well formed, lands inside the atlas, and
    /// the cursor arithmetic stays within `u32`.
    pub fn can_pack(&self, glyphs: &[GlyphData]) -> (r: bool)
        ensures
            r == self.fits(glyphs@),
    {
        let ghost g = glyphs@;
        let ghost s0 = self.cursor.state();
        let ghost pad = self.cursor.padding as int;
        let ghost aw = self.cursor.atlas_width as int;
        let ghost wi: int = bitmap_width(self.atlas()) as int;
        let ghost hi: int = bitmap_height(self.atlas()) as int;
        let iw: u64 = self.image.width() as u64;
        let ih: u64 = self.image.height() as u64;
        let padding: u64 = self.cursor.padding as u64;
        let atlas_width: u64 = self.cursor.atlas_width as u64;
        let mut last_x: u64 = self.cursor.last_written.x_pos as u64;
        let mut last_y: u64 = self.cursor.last_written.y_pos as u64;
        let mut top: u64 = self.cursor.current_top_row_y as u64;
        let mut row_height: u64 = self.cursor.current_row_height as u64;
        let mut i: usize = 0;
        assert(g.take(0) =~= Seq::<GlyphData>::empty());
        while i < glyphs.len()
            invariant
                g == glyphs@,
                s0 == self.cursor.state(),
                pad == padding,
                aw == atlas_width,
                pad == self.cursor.padding,
                aw == self.cursor.atlas_width,
                iw == bitmap_width(self.image),
                ih == bitmap_height(self.image),
                wi == iw,
                hi == ih,
                s0 == self.cursor().state(),
                wi == bitmap_width(self.atlas()),
                hi == bitmap_height(self.atlas()),
                0 <= i <= g.len(),
                last_x <= u32_max(),
                last_y <= u32_max(),
                top <= u32_max(),
                row_height <= u32_max(),
                padding <= u32_max(),
                atlas_width <= u32_max(),
                state_after(s0, pad, aw, g.take(i as int)) == (PackState {
                    last_x: last_x as int,
                    last_y: last_y as int,
                    top: top as int,
                    row_height: row_height as int,
                }),
                forall|k: int| 0 <= k < i ==> #[trigger] step_fits(s0, pad, aw, g, wi, hi, k),
            decreases g.len() - i,
        {
            let glyph = &glyphs[i];
            let ok = glyph.image().is_well_formed();
            let w: u64 = glyph.image().width() as u64;
            let h: u64 = glyph.image().height() as u64;
            proof {
                lemma_state_step(s0, pad, aw, g, i as int);
            }
            if !ok || last_x + padding + w > 0xffff_ffff {
                assert(!step_fits(s0, pad, aw, g, wi, hi, i as int));
                return false;
            }
            let wraps = last_x + padding + w > atlas_width;
            if wraps && top + row_height + padding > 0xffff_ffff {
                assert(!step_fits(s0, pad, aw, g, wi, hi, i as int));
                return false;
            }
            let x: u64 = if wraps { padding } else { last_x + padding };
            let y: u64 = if wraps { top + row_height + padding } else { top };
            if x + w > iw || y + h > ih {
                assert(!step_fits(s0, pad, aw, g, wi, hi, i as int));
                return false;
            }
            assert(step_fits(s0, pad, aw, g, wi, hi, i as int));
            last_x = x + w;
            last_y = y + h;
            if y > top {
                top = y;
            }
            if h > row_height {
                row_height = h;
            }
            i = i + 1;
        }
        true
    }

    /// Copies the pixels of `glyph` into the atlas with its top-left corner at `start`.
    fn write_glyph(&mut self, glyph: &GlyphData, start: &GlyphStart) -> (r: GlyphEnd)
        requires
            old(self).wf(),
            glyph.spec_image().wf(),
            start.x_pos + glyph_w(*glyph) <= bitmap_width(old(self).image),
            start.top_row_y + glyph_h(*glyph) <= bitmap_height(old(self).image),
        ensures
            final(self).wf(),
            final(self).cursor == old(self).cursor,
            bitmap_width(final(self).image) == bitmap_width(old(self).image),
            bitmap_height(final(self).image) == bitmap_height(old(self).image),
            r.x_pos == start.x_pos + glyph_w(*glyph),
            r.y_pos == start.top_row_y + glyph_h(*glyph),
            r.height == glyph_h(*glyph),
            forall|px: int, py: int|
                0 <= px < bitmap_width(old(self).image) && 0 <= py < bitmap_height(
                    old(self).image,
                ) ==> #[trigger] final(self).image.at(px, py) == if covers(
                    start.x_pos as int,
                    start.top_row_y as int,
                    glyph_w(*glyph),
                    glyph_h(*glyph),
                    px,
                    py,
                ) {
                    glyph.spec_image().at(px - start.x_pos, py - start.top_row_y)
                } else {
                    old(self).image.at(px, py)
                },
    {
        let ghost before = self.image;
        let ghost aw = bitmap_width(before) as int;
        let ghost ah = bitmap_height(before) as int;
        let ghost sx = start.x_pos as int;
        let ghost sy = start.top_row_y as int;
        let w: u32 = glyph.image().width();
        let h: u32 = glyph.image().height();
        let mut gy: u32 = 0;
        while gy < h
            invariant
                self.wf(),
                self.cursor == old(self).cursor,
                bitmap_width(self.image) == aw,
                bitmap_height(self.image) == ah,
                glyph.spec_image().wf(),
                w == glyph_w(*glyph),
                h == glyph_h(*glyph),
                sx == start.x_pos,
                sy == start.top_row_y,
                sx + w <= aw,
                sy + h <= ah,
                0 <= gy <= h,
                forall|px: int, py: int|
                    0 <= px < aw && 0 <= py < ah ==> #[trigger] self.image.at(px, py) == if covers(
                        sx,
                        sy,
                        w as int,
                        gy as int,
                        px,
                        py,
                    ) {
                        glyph.spec_image().at(px - sx, py - sy)
                    } else {
                        before.at(px, py)
                    },
            decreases h - gy,
        {
            let mut gx: u32 = 0;
            while gx < w
                invariant
                    self.wf(),
                    self.cursor == old(self).cursor,
                    bitmap_width(self.image) == aw,
                    bitmap_height(self.image) == ah,
                    glyph.spec_image().wf(),
                    w == glyph_w(*glyph),
                    h == glyph_h(*glyph),
                    sx == start.x_pos,
                    sy == start.top_row_y,
                    sx + w <= aw,
                    sy + h <= ah,
                    0 <= gy < h,
                    0 <= gx <= w,
                    forall|px: int, py: int|
                        0 <= px < aw && 0 <= py < ah ==> #[trigger] self.image.at(px, py) == if covers(
                            sx,
                            sy,
                            w as int,
                            gy as int,
                            px,
                            py,
                        ) || (py == sy + gy && sx <= px < sx + gx) {
                            glyph.spec_image().at(px - sx, py - sy)
                        } else {
                            before.at(px, py)
                        },
                decreases w - gx,
            {
                let value: u8 = glyph.image().get_pixel(gx, gy);
                let ghost prev = self.image;
                self.image.put_pixel(start.x_pos + gx, start.top_row_y + gy, value);
                proof {
                    lemma_put_pixel_frame(
                        prev,
                        self.image,
                        sx + gx,
                        sy + gy,
                        value,
                    );
                }
                gx = gx + 1;
            }
            gy = gy + 1;
        }
        GlyphEnd {
            x_pos: start.x_pos + w,
            y_pos: start.top_row_y + h,
            height: h,
        }
    }
}

} // verus!
