//! Copying a glyph's pixels into a raw row-major atlas buffer.
use vstd::prelude::*;
use crate::raster::lemma_pixel_index;

verus! {

/// The atlas after the first `n` pixel copies of a glyph `width` pixels wide
/// placed at `(x0, y0)`. Copy `k` takes source pixel `k` (row `k / width`,
/// column `k % width`) to row `y0 + k / width`, column `x0 + k % width`; a
/// copy whose source or destination index lies outside its buffer is skipped.
pub open spec fn blit_upto(
    atlas: Seq<u8>,
    atlas_width: int,
    x0: int,
    y0: int,
    width: int,
    pixels: Seq<u8>,
    n: int,
) -> Seq<u8>
    decreases n,
{
    if n <= 0 {
        atlas
    } else {
        let prev = blit_upto(atlas, atlas_width, x0, y0, width, pixels, n - 1);
        let k = n - 1;
        let d = blit_target(atlas_width, x0, y0, width, k);
        if k < pixels.len() && 0 <= d < prev.len() {
            prev.update(d, pixels[k])
        } else {
            prev
        }
    }
}

/// Destination index of copy `k`.
pub open spec fn blit_target(atlas_width: int, x0: int, y0: int, width: int, k: int) -> int {
    (y0 + k / width) * atlas_width + (x0 + k % width)
}

/// Every index computed while copying a `width` x `height` glyph stays
/// within `u32`.
pub open spec fn blit_in_u32(atlas_width: int, x0: int, y0: int, width: int, height: int) -> bool {
    width == 0 || height == 0 || (height * width - 1 <= 0xffff_ffff && y0 + height - 1
        <= 0xffff_ffff && x0 + width - 1 <= 0xffff_ffff && (y0 + height - 1) * atlas_width + (x0
        + width - 1) <= 0xffff_ffff)
}

/// Whether copying a `width` x `height` glyph to `(x0, y0)` of an atlas with
/// rows of `atlas_width` bytes keeps every index within `u32`, which
/// `blit_glyph` requires.
pub fn blit_fits(atlas_width: u32, x0: u32, y0: u32, width: u32, height: u32) -> (r: bool)
    ensures
        r == blit_in_u32(atlas_width as int, x0 as int, y0 as int, width as int, height as int),
{
    if width == 0 || height == 0 {
        return true;
    }
    let aw = atlas_width as u128;
    let w = width as u128;
    let h = height as u128;
    let last_row = y0 as u128 + h - 1;
    let last_col = x0 as u128 + w - 1;
    assert(1 <= h * w <= 0xffff_ffff * 0xffff_ffff) by (nonlinear_arith)
        requires
            1 <= h <= 0xffff_ffff,
            1 <= w <= 0xffff_ffff,
    ;
    assert(last_row * aw <= 0x2_0000_0000 * 0xffff_ffff) by (nonlinear_arith)
        requires
            last_row <= 0x2_0000_0000,
            aw <= 0xffff_ffff,
    ;
    h * w - 1 <= 0xffff_ffff && last_row <= 0xffff_ffff && last_col <= 0xffff_ffff && last_row
        * aw + last_col <= 0xffff_ffff
}

/// Copies a `width` x `height` glyph, stored row by row in `pixels`, into
/// `atlas` (rows of `atlas_width` bytes) with its top-left corner at
/// `(x0, y0)`, row by row. Copies whose source or destination index falls
/// outside its buffer are skipped.
pub fn blit_glyph(
    atlas: &mut Vec<u8>,
    atlas_width: u32,
    x0: u32,
    y0: u32,
    width: u32,
    height: u32,
    pixels: &[u8],
)
    requires
        blit_in_u32(atlas_width as int, x0 as int, y0 as int, width as int, height as int),
    ensures
        final(atlas)@ == blit_upto(
            old(atlas)@,
            atlas_width as int,
            x0 as int,
            y0 as int,
            width as int,
            pixels@,
            width * height,
        ),
{
    let ghost start = atlas@;
    let ghost aw = atlas_width as int;
    let mut y: u32 = 0;
    while y < height
        invariant
            0 <= y <= height,
            aw == atlas_width,
            width > 0 ==> blit_in_u32(aw, x0 as int, y0 as int, width as int, height as int),
            height > 0 ==> blit_in_u32(aw, x0 as int, y0 as int, width as int, height as int),
            atlas@ == blit_upto(start, aw, x0 as int, y0 as int, width as int, pixels@, y * width),
        decreases height - y,
    {
        let mut x: u32 = 0;
        while x < width
            invariant
                0 <= y < height,
                0 <= x <= width,
                aw == atlas_width,
                blit_in_u32(aw, x0 as int, y0 as int, width as int, height as int),
                atlas@ == blit_upto(
                    start,
                    aw,
                    x0 as int,
                    y0 as int,
                    width as int,
                    pixels@,
                    y * width + x,
                ),
            decreases width - x,
        {
            proof {
                assert(y * width + x <= height * width - 1) by (nonlinear_arith)
                    requires
                        y < height,
                        x < width,
                ;
                assert((y0 + y) * atlas_width + (x0 + x) <= (y0 + height - 1) * atlas_width + (x0
                    + width - 1)) by (nonlinear_arith)
                    requires
                        y < height,
                        x < width,
                        atlas_width >= 0,
                ;
                let k = y * width + x;
                assert(k / (width as int) == y && k % (width as int) == x) by (nonlinear_arith)
                    requires
                        k == y * width + x,
                        x < width,
                        0 <= y,
                ;
            }
            let src_idx: u32 = y * width + x;
            let dst_idx: u32 = (y0 + y) * atlas_width + (x0 + x);
            if (src_idx as usize) < pixels.len() && (dst_idx as usize) < atlas.len() {
                atlas.set(dst_idx as usize, pixels[src_idx as usize]);
            }
            proof {
                assert(y * width + x + 1 == y * width + (x + 1));
            }
            x = x + 1;
        }
        proof {
            assert(y * width + width == (y + 1) * width) by (nonlinear_arith);
        }
        y = y + 1;
    }
}

/// A glyph that lies inside the atlas, with exactly `width * height`
/// pixels, can be read back at its place after copying; every other byte
/// of the atlas is unchanged.
pub proof fn lemma_blit_fits(
    atlas: Seq<u8>,
    atlas_width: int,
    atlas_height: int,
    x0: int,
    y0: int,
    width: int,
    height: int,
    pixels: Seq<u8>,
)
    requires
        0 <= x0,
        0 <= y0,
        1 <= width,
        0 <= height,
        x0 + width <= atlas_width,
        y0 + height <= atlas_height,
        atlas.len() == atlas_width * atlas_height,
        pixels.len() == width * height,
    ensures
        ({
            let r = blit_upto(atlas, atlas_width, x0, y0, width, pixels, width * height);
            &&& r.len() == atlas.len()
            &&& forall|gx: int, gy: int|
                0 <= gx < width && 0 <= gy < height ==> r[(y0 + gy) * atlas_width + (x0 + gx)]
                    == #[trigger] pixels[gy * width + gx]
            &&& forall|i: int|
                0 <= i < atlas.len() && !(exists|k: int|
                    0 <= k < width * height && #[trigger] blit_target(
                        atlas_width,
                        x0,
                        y0,
                        width,
                        k,
                    ) == i) ==> #[trigger] r[i] == atlas[i]
        }),
{
    lemma_blit_prefix(atlas, atlas_width, atlas_height, x0, y0, width, height, pixels, width * height);
    let r = blit_upto(atlas, atlas_width, x0, y0, width, pixels, width * height);
    assert forall|gx: int, gy: int| 0 <= gx < width && 0 <= gy < height implies r[(y0 + gy)
        * atlas_width + (x0 + gx)] == #[trigger] pixels[gy * width + gx] by {
        let k = gy * width + gx;
        assert(k < width * height && k / width == gy && k % width == gx) by (nonlinear_arith)
            requires
                k == gy * width + gx,
                0 <= gx < width,
                0 <= gy < height,
        ;
        assert(blit_target(atlas_width, x0, y0, width, k) == (y0 + gy) * atlas_width + (x0 + gx));
    }
}

/// What the first `n` copies of a fitting glyph leave in the atlas.
proof fn lemma_blit_prefix(
    atlas: Seq<u8>,
    atlas_width: int,
    atlas_height: int,
    x0: int,
    y0: int,
    width: int,
    height: int,
    pixels: Seq<u8>,
    n: int,
)
    requires
        0 <= x0,
        0 <= y0,
        1 <= width,
        0 <= height,
        x0 + width <= atlas_width,
        y0 + height <= atlas_height,
        atlas.len() == atlas_width * atlas_height,
        pixels.len() == width * height,
        0 <= n <= width * height,
    ensures
        ({
            let r = blit_upto(atlas, atlas_width, x0, y0, width, pixels, n);
            &&& r.len() == atlas.len()
            &&& forall|k: int|
                0 <= k < n ==> r[#[trigger] blit_target(atlas_width, x0, y0, width, k)]
                    == pixels[k]
            &&& forall|i: int|
                0 <= i < atlas.len() && !(exists|k: int|
                    0 <= k < n && #[trigger] blit_target(atlas_width, x0, y0, width, k) == i)
                    ==> #[trigger] r[i] == atlas[i]
        }),
    decreases n,
{
    if n > 0 {
        lemma_blit_prefix(atlas, atlas_width, atlas_height, x0, y0, width, height, pixels, n - 1);
        let prev = blit_upto(atlas, atlas_width, x0, y0, width, pixels, n - 1);
        let r = blit_upto(atlas, atlas_width, x0, y0, width, pixels, n);
        let k = n - 1;
        let d = blit_target(atlas_width, x0, y0, width, k);
        lemma_target_in_atlas(atlas_width, atlas_height, x0, y0, width, height, k);
        assert(r == prev.update(d, pixels[k]));
        assert forall|j: int| 0 <= j < n implies r[#[trigger] blit_target(
            atlas_width,
            x0,
            y0,
            width,
            j,
        )] == pixels[j] by {
            lemma_target_in_atlas(atlas_width, atlas_height, x0, y0, width, height, j);
            if j < k {
                lemma_targets_distinct(atlas_width, atlas_height, x0, y0, width, height, j, k);
            }
        }
        assert forall|i: int|
            0 <= i < atlas.len() && !(exists|j: int|
                0 <= j < n && #[trigger] blit_target(atlas_width, x0, y0, width, j) == i)
                implies #[trigger] r[i] == atlas[i] by {
            assert(blit_target(atlas_width, x0, y0, width, k) != i);
            assert(!(exists|j: int|
                0 <= j < n - 1 && #[trigger] blit_target(atlas_width, x0, y0, width, j) == i));
        }
    }
}

/// Copy `k` of a fitting glyph lands inside the atlas.
proof fn lemma_target_in_atlas(
    atlas_width: int,
    atlas_height: int,
    x0: int,
    y0: int,
    width: int,
    height: int,
    k: int,
)
    requires
        0 <= x0,
        0 <= y0,
        1 <= width,
        x0 + width <= atlas_width,
        y0 + height <= atlas_height,
        0 <= k < width * height,
    ensures
        0 <= blit_target(atlas_width, x0, y0, width, k) < atlas_width * atlas_height,
{
    let gy = k / width;
    let gx = k % width;
    assert(0 <= gy < height && 0 <= gx < width) by (nonlinear_arith)
        requires
            gy == k / width,
            gx == k % width,
            width >= 1,
            0 <= k < width * height,
    ;
    lemma_pixel_index(atlas_width, atlas_height, x0 + gx, y0 + gy, x0 + gx, y0 + gy);
}

/// Two different copies of a fitting glyph land on different bytes.
proof fn lemma_targets_distinct(
    atlas_width: int,
    atlas_height: int,
    x0: int,
    y0: int,
    width: int,
    height: int,
    j: int,
    k: int,
)
    requires
        0 <= x0,
        0 <= y0,
        1 <= width,
        x0 + width <= atlas_width,
        y0 + height <= atlas_height,
        0 <= j < k < width * height,
    ensures
        blit_target(atlas_width, x0, y0, width, j) != blit_target(atlas_width, x0, y0, width, k),
{
    let gyj = j / width;
    let gxj = j % width;
    let gyk = k / width;
    let gxk = k % width;
    assert(0 <= gyj < height && 0 <= gxj < width && j == gyj * width + gxj) by (nonlinear_arith)
        requires
            gyj == j / width,
            gxj == j % width,
            width >= 1,
            0 <= j < width * height,
    ;
    assert(0 <= gyk < height && 0 <= gxk < width && k == gyk * width + gxk) by (nonlinear_arith)
        requires
            gyk == k / width,
            gxk == k % width,
            width >= 1,
            0 <= k < width * height,
    ;
    lemma_pixel_index(atlas_width, atlas_height, x0 + gxj, y0 + gyj, x0 + gxk, y0 + gyk);
}

} // verus!
