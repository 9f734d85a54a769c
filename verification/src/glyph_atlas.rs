//! Row packing of glyph boxes into an atlas of fixed width.
//!
//! Glyphs are placed left to right; when the next glyph would reach past the
//! atlas width a new row starts one pixel below the tallest glyph of the
//! current row. One pixel of padding separates neighbouring glyphs.
use vstd::prelude::*;
use std::collections::HashMap;

verus! {

broadcast use vstd::std_specs::hash::group_hash_axioms;

/// Pixel size of one glyph to be packed.
#[derive(Clone, Copy, Debug, PartialEq, Eq)]
pub struct GlyphData {
    pub ch: char,
    pub width: u32,
    pub height: u32,
}

/// Position of one glyph inside the atlas (top-left corner) with its size.
#[derive(Clone, Copy, Debug, PartialEq, Eq)]
pub struct GlyphPlacement {
    pub ch: char,
    pub x: u32,
    pub y: u32,
    pub width: u32,
    pub height: u32,
}

/// Cursor of the row packer: next free x, top of the current row and the
/// height of the tallest glyph placed in the current row.
#[derive(Clone, Copy, Debug, Default)]
pub struct PackingCursor {
    pub x: u32,
    pub y: u32,
    pub row_height: u32,
}

/// Integer layout of an atlas: where each glyph goes, keyed by its character
/// (as a `u32` code point), and how tall the atlas is.
pub struct AtlasMetaData {
    pub glyphs: HashMap<u32, GlyphPlacement>,
    pub atlas_width: u32,
    pub atlas_height: u32,
}

/// Mathematical state of the row packer.
pub struct RowCursor {
    pub x: int,
    pub y: int,
    pub row_height: int,
}

pub open spec fn max(a: int, b: int) -> int {
    if a >= b { a } else { b }
}

pub open spec fn u32_max() -> int {
    0xffff_ffff
}

/// Where a glyph of width `w` is put when the packer stands at `c`.
pub open spec fn place(c: RowCursor, w: int, atlas_width: int) -> RowCursor {
    if c.x + w > atlas_width {
        RowCursor { x: 0, y: c.y + c.row_height + 1, row_height: 0 }
    } else {
        c
    }
}

/// The packer after a glyph of size `w` x `h` has been placed.
pub open spec fn advance(c: RowCursor, w: int, h: int, atlas_width: int) -> RowCursor {
    let p = place(c, w, atlas_width);
    RowCursor { x: p.x + w + 1, y: p.y, row_height: max(p.row_height, h) }
}

/// The packer after all of `glyphs` have been placed, starting at the origin.
pub open spec fn cursor_after(glyphs: Seq<GlyphData>, atlas_width: int) -> RowCursor
    decreases glyphs.len(),
{
    if glyphs.len() == 0 {
        RowCursor { x: 0, y: 0, row_height: 0 }
    } else {
        let last = glyphs.last();
        advance(
            cursor_after(glyphs.drop_last(), atlas_width),
            last.width as int,
            last.height as int,
            atlas_width,
        )
    }
}

/// Top-left corner of glyph `i`.
pub open spec fn placement(glyphs: Seq<GlyphData>, atlas_width: int, i: int) -> RowCursor {
    place(cursor_after(glyphs.take(i), atlas_width), glyphs[i].width as int, atlas_width)
}

/// Height of the atlas that holds all of `glyphs`.
pub open spec fn atlas_height(glyphs: Seq<GlyphData>, atlas_width: int) -> int {
    let c = cursor_after(glyphs, atlas_width);
    c.y + c.row_height
}

/// Placing glyph `i` computes nothing beyond `u32::MAX`.
pub open spec fn step_in_u32(glyphs: Seq<GlyphData>, atlas_width: int, i: int) -> bool {
    let c = cursor_after(glyphs.take(i), atlas_width);
    let w = glyphs[i].width as int;
    let p = place(c, w, atlas_width);
    &&& c.x + w <= u32_max()
    &&& c.x + w > atlas_width ==> c.y + c.row_height + 1 <= u32_max()
    &&& p.x + w + 1 <= u32_max()
}

/// Packing all of `glyphs` computes nothing beyond `u32::MAX`.
pub open spec fn packing_in_u32(glyphs: Seq<GlyphData>, atlas_width: int) -> bool {
    &&& forall|i: int| 0 <= i < glyphs.len() ==> #[trigger] step_in_u32(glyphs, atlas_width, i)
    &&& atlas_height(glyphs, atlas_width) <= u32_max()
}

/// The placement of glyph `i` as a record.
pub open spec fn placement_record(glyphs: Seq<GlyphData>, atlas_width: int, i: int) -> GlyphPlacement {
    let q = placement(glyphs, atlas_width, i);
    GlyphPlacement {
        ch: glyphs[i].ch,
        x: q.x as u32,
        y: q.y as u32,
        width: glyphs[i].width,
        height: glyphs[i].height,
    }
}

/// The table of the first `n` glyphs: each glyph's placement under its
/// character, a later glyph replacing an earlier one of the same character.
pub open spec fn metrics_upto(glyphs: Seq<GlyphData>, atlas_width: int, n: int) -> Map<
    u32,
    GlyphPlacement,
>
    decreases n,
{
    if n <= 0 {
        Map::empty()
    } else {
        metrics_upto(glyphs, atlas_width, n - 1).insert(
            glyphs[n - 1].ch as u32,
            placement_record(glyphs, atlas_width, n - 1),
        )
    }
}

/// The table of all of `glyphs`.
pub open spec fn metrics_table(glyphs: Seq<GlyphData>, atlas_width: int) -> Map<u32, GlyphPlacement> {
    metrics_upto(glyphs, atlas_width, glyphs.len() as int)
}

/// Looking a character up in the table gives the placement of the last
/// glyph with that character, and only characters of glyphs are in it.
pub proof fn lemma_metrics_lookup(glyphs: Seq<GlyphData>, atlas_width: int, n: int, i: int)
    requires
        0 <= i < n <= glyphs.len(),
        forall|j: int| i < j < n ==> #[trigger] glyphs[j].ch != glyphs[i].ch,
    ensures
        metrics_upto(glyphs, atlas_width, n).contains_key(glyphs[i].ch as u32),
        metrics_upto(glyphs, atlas_width, n)[glyphs[i].ch as u32] == placement_record(
            glyphs,
            atlas_width,
            i,
        ),
        forall|key: u32|
            #[trigger] metrics_upto(glyphs, atlas_width, n).contains_key(key) ==> exists|j: int|
                0 <= j < n && key == #[trigger] glyphs[j].ch as u32,
    decreases n,
{
    lemma_metrics_domain(glyphs, atlas_width, n);
    if n - 1 > i {
        lemma_metrics_lookup(glyphs, atlas_width, n - 1, i);
        assert(glyphs[n - 1].ch != glyphs[i].ch);
        assert(glyphs[n - 1].ch as u32 != glyphs[i].ch as u32);
    }
}

/// Only characters of the first `n` glyphs are keys of their table.
pub proof fn lemma_metrics_domain(glyphs: Seq<GlyphData>, atlas_width: int, n: int)
    requires
        0 <= n <= glyphs.len(),
    ensures
        forall|key: u32|
            #[trigger] metrics_upto(glyphs, atlas_width, n).contains_key(key) ==> exists|j: int|
                0 <= j < n && key == #[trigger] glyphs[j].ch as u32,
    decreases n,
{
    if n > 0 {
        lemma_metrics_domain(glyphs, atlas_width, n - 1);
        assert forall|key: u32|
            #[trigger] metrics_upto(glyphs, atlas_width, n).contains_key(key) implies exists|j: int|
                0 <= j < n && key == #[trigger] glyphs[j].ch as u32 by {
            if key != glyphs[n - 1].ch as u32 {
                assert(metrics_upto(glyphs, atlas_width, n - 1).contains_key(key));
                let j = choose|j: int| 0 <= j < n - 1 && key == #[trigger] glyphs[j].ch as u32;
                assert(0 <= j < n && key == glyphs[j].ch as u32);
            } else {
                assert(key == glyphs[n - 1].ch as u32);
            }
        }
    }
}

/// Two placed rectangles share no pixel.
pub open spec fn rects_disjoint(
    ax: int,
    ay: int,
    aw: int,
    ah: int,
    bx: int,
    by: int,
    bw: int,
    bh: int,
) -> bool {
    ||| ax + aw <= bx
    ||| bx + bw <= ax
    ||| ay + ah <= by
    ||| by + bh <= ay
}

/// What holds of the first `n` placements and the cursor after them.
pub open spec fn prefix_invariant(glyphs: Seq<GlyphData>, atlas_width: int, n: int) -> bool {
    let c = cursor_after(glyphs.take(n), atlas_width);
    &&& 0 <= c.x
    &&& 0 <= c.y
    &&& 0 <= c.row_height
    &&& forall|i: int|
        0 <= i < n ==> {
            let q = #[trigger] placement(glyphs, atlas_width, i);
            let w = glyphs[i].width as int;
            let h = glyphs[i].height as int;
            &&& 0 <= q.x
            &&& 0 <= q.y <= c.y
            &&& q.y == c.y ==> q.x + w + 1 <= c.x && h <= c.row_height
            &&& q.y < c.y ==> q.y + h + 1 <= c.y
        }
}

proof fn lemma_take_take(glyphs: Seq<GlyphData>, n: int, i: int)
    requires
        0 <= i <= n <= glyphs.len(),
    ensures
        glyphs.take(n).take(i) == glyphs.take(i),
{
    assert(glyphs.take(n).take(i) =~= glyphs.take(i));
}

/// The cursor after `n + 1` glyphs is the cursor after `n` glyphs advanced by glyph `n`.
pub proof fn lemma_cursor_step(glyphs: Seq<GlyphData>, atlas_width: int, n: int)
    requires
        0 <= n < glyphs.len(),
    ensures
        cursor_after(glyphs.take(n + 1), atlas_width) == advance(
            cursor_after(glyphs.take(n), atlas_width),
            glyphs[n].width as int,
            glyphs[n].height as int,
            atlas_width,
        ),
{
    let t = glyphs.take(n + 1);
    assert(t.drop_last() =~= glyphs.take(n));
    assert(t.last() == glyphs[n]);
}

proof fn lemma_prefix_invariant(glyphs: Seq<GlyphData>, atlas_width: int, n: int)
    requires
        0 <= n <= glyphs.len(),
    ensures
        prefix_invariant(glyphs, atlas_width, n),
    decreases n,
{
    if n == 0 {
        assert(glyphs.take(0) =~= Seq::<GlyphData>::empty());
    } else {
        let m = n - 1;
        lemma_prefix_invariant(glyphs, atlas_width, m);
        lemma_cursor_step(glyphs, atlas_width, m);
        let c = cursor_after(glyphs.take(m), atlas_width);
        let c2 = cursor_after(glyphs.take(n), atlas_width);
        let wm = glyphs[m].width as int;
        let hm = glyphs[m].height as int;
        let p = place(c, wm, atlas_width);
        assert(placement(glyphs, atlas_width, m) == p);
        assert forall|i: int| 0 <= i < n implies {
            let q = #[trigger] placement(glyphs, atlas_width, i);
            let w = glyphs[i].width as int;
            let h = glyphs[i].height as int;
            &&& 0 <= q.x
            &&& 0 <= q.y <= c2.y
            &&& q.y == c2.y ==> q.x + w + 1 <= c2.x && h <= c2.row_height
            &&& q.y < c2.y ==> q.y + h + 1 <= c2.y
        } by {
            if i < m {
                let q = placement(glyphs, atlas_width, i);
                assert(0 <= q.y <= c.y);
            }
        }
    }
}

/// Glyphs placed by the row packer never share a pixel.
pub proof fn lemma_placements_disjoint(glyphs: Seq<GlyphData>, atlas_width: int, i: int, j: int)
    requires
        0 <= i < j < glyphs.len(),
    ensures
        ({
            let a = placement(glyphs, atlas_width, i);
            let b = placement(glyphs, atlas_width, j);
            rects_disjoint(
                a.x,
                a.y,
                glyphs[i].width as int,
                glyphs[i].height as int,
                b.x,
                b.y,
                glyphs[j].width as int,
                glyphs[j].height as int,
            )
        }),
{
    lemma_prefix_invariant(glyphs, atlas_width, j);
    let c = cursor_after(glyphs.take(j), atlas_width);
    let a = placement(glyphs, atlas_width, i);
    let b = placement(glyphs, atlas_width, j);
    assert(b == place(c, glyphs[j].width as int, atlas_width));
}

/// Every glyph placed by the row packer lies within the atlas height, and the
/// height is reached by some glyph whenever there is one.
pub proof fn lemma_height_is_tight(glyphs: Seq<GlyphData>, atlas_width: int)
    ensures
        forall|i: int|
            0 <= i < glyphs.len() ==> #[trigger] placement(glyphs, atlas_width, i).y
                + glyphs[i].height <= atlas_height(glyphs, atlas_width),
        glyphs.len() == 0 ==> atlas_height(glyphs, atlas_width) == 0,
        glyphs.len() > 0 ==> exists|i: int|
            0 <= i < glyphs.len() && #[trigger] placement(glyphs, atlas_width, i).y
                + glyphs[i].height == atlas_height(glyphs, atlas_width),
{
    let n = glyphs.len() as int;
    assert(glyphs.take(n) =~= glyphs);
    lemma_prefix_invariant(glyphs, atlas_width, n);
    let c = cursor_after(glyphs, atlas_width);
    assert forall|i: int| 0 <= i < n implies #[trigger] placement(glyphs, atlas_width, i).y
        + glyphs[i].height <= atlas_height(glyphs, atlas_width) by {
        let q = placement(glyphs, atlas_width, i);
        assert(0 <= q.y <= c.y);
    }
    if n > 0 {
        lemma_tallest_in_last_row(glyphs, atlas_width, n);
        let k = choose|k: int|
            0 <= k < n && placement(glyphs, atlas_width, k).y == c.y
                && glyphs[k].height == c.row_height;
        assert(placement(glyphs, atlas_width, k).y + glyphs[k].height == atlas_height(
            glyphs,
            atlas_width,
        ));
    } else {
        assert(glyphs =~= Seq::<GlyphData>::empty());
    }
}

/// After `n > 0` glyphs, some glyph of the current row has the row's height.
proof fn lemma_tallest_in_last_row(glyphs: Seq<GlyphData>, atlas_width: int, n: int)
    requires
        0 < n <= glyphs.len(),
    ensures
        ({
            let c = cursor_after(glyphs.take(n), atlas_width);
            exists|k: int|
                0 <= k < n && placement(glyphs, atlas_width, k).y == c.y && glyphs[k].height
                    == c.row_height
        }),
    decreases n,
{
    let m = n - 1;
    lemma_cursor_step(glyphs, atlas_width, m);
    let c = cursor_after(glyphs.take(m), atlas_width);
    let c2 = cursor_after(glyphs.take(n), atlas_width);
    let wm = glyphs[m].width as int;
    let hm = glyphs[m].height as int;
    let p = place(c, wm, atlas_width);
    assert(placement(glyphs, atlas_width, m) == p);
    if hm >= p.row_height {
        assert(placement(glyphs, atlas_width, m).y == c2.y && glyphs[m].height == c2.row_height);
    } else {
        // the row was not restarted, since a fresh row has height 0
        assert(p == c);
        assert(m > 0) by {
            if m == 0 {
                assert(glyphs.take(0) =~= Seq::<GlyphData>::empty());
            }
        }
        lemma_tallest_in_last_row(glyphs, atlas_width, m);
        let k = choose|k: int|
            0 <= k < m && placement(glyphs, atlas_width, k).y == c.y && glyphs[k].height
                == c.row_height;
        assert(placement(glyphs, atlas_width, k).y == c2.y && glyphs[k].height == c2.row_height);
    }
}

/// A glyph no wider than the atlas is placed entirely inside the atlas width.
pub proof fn lemma_fits_width(glyphs: Seq<GlyphData>, atlas_width: int, i: int)
    requires
        0 <= i < glyphs.len(),
        glyphs[i].width <= atlas_width,
    ensures
        placement(glyphs, atlas_width, i).x + glyphs[i].width <= atlas_width,
{
}

impl AtlasMetaData {
    /// Packs `glyph_bounds` into rows of `atlas_width` pixels: the height the
    /// atlas needs and the place of every glyph, computed by the same row
    /// packing.
    pub fn new(glyph_bounds: &[GlyphData], atlas_width: u32) -> (r: AtlasMetaData)
        requires
            packing_in_u32(glyph_bounds@, atlas_width as int),
        ensures
            r.atlas_width == atlas_width,
            r.atlas_height == atlas_height(glyph_bounds@, atlas_width as int),
            r.atlas_height == Self::spec_compute_atlas_height(glyph_bounds@, atlas_width),
            r.glyphs@ == metrics_table(glyph_bounds@, atlas_width as int),
    {
        let atlas_height = Self::compute_atlas_height(glyph_bounds, atlas_width);
        let glyphs = Self::create_metrics_table(glyph_bounds, atlas_width);
        AtlasMetaData { glyphs, atlas_width, atlas_height }
    }

    pub open spec fn spec_compute_atlas_height(glyph_bounds: Seq<GlyphData>, atlas_width: u32) -> int {
        atlas_height(glyph_bounds, atlas_width as int)
    }

    /// Whether packing `glyph_bounds` into rows of `atlas_width` pixels stays
    /// within `u32` arithmetic, which the packing functions require.
    pub fn packing_fits(glyph_bounds: &[GlyphData], atlas_width: u32) -> (r: bool)
        ensures
            r == packing_in_u32(glyph_bounds@, atlas_width as int),
    {
        let ghost glyphs = glyph_bounds@;
        let ghost aw = atlas_width as int;
        let mut x: u64 = 0;
        let mut y: u64 = 0;
        let mut row_height: u64 = 0;
        let mut i: usize = 0;
        assert(glyphs.take(0) =~= Seq::<GlyphData>::empty());
        while i < glyph_bounds.len()
            invariant
                glyphs == glyph_bounds@,
                aw == atlas_width as int,
                0 <= i <= glyphs.len(),
                forall|k: int| 0 <= k < i ==> #[trigger] step_in_u32(glyphs, aw, k),
                x <= u32_max(),
                y <= u32_max(),
                row_height <= u32_max(),
                cursor_after(glyphs.take(i as int), aw) == (RowCursor {
                    x: x as int,
                    y: y as int,
                    row_height: row_height as int,
                }),
            decreases glyphs.len() - i,
        {
            let w = glyph_bounds[i].width as u64;
            let h = glyph_bounds[i].height as u64;
            proof {
                lemma_cursor_step(glyphs, aw, i as int);
            }
            if x + w > 0xffff_ffff {
                assert(!step_in_u32(glyphs, aw, i as int));
                return false;
            }
            if x + w > atlas_width as u64 {
                if y + row_height + 1 > 0xffff_ffff {
                    assert(!step_in_u32(glyphs, aw, i as int));
                    return false;
                }
                y = y + row_height + 1;
                x = 0;
                row_height = 0;
            }
            if x + w + 1 > 0xffff_ffff {
                assert(!step_in_u32(glyphs, aw, i as int));
                return false;
            }
            if h > row_height {
                row_height = h;
            }
            x = x + w + 1;
            i = i + 1;
        }
        assert(glyphs.take(glyphs.len() as int) =~= glyphs);
        y + row_height <= 0xffff_ffff
    }

    /// Height of the atlas needed to pack `glyph_bounds` into rows of
    /// `atlas_width` pixels.
    pub fn compute_atlas_height(glyph_bounds: &[GlyphData], atlas_width: u32) -> (r: u32)
        requires
            packing_in_u32(glyph_bounds@, atlas_width as int),
        ensures
            r == atlas_height(glyph_bounds@, atlas_width as int),
    {
        let ghost glyphs = glyph_bounds@;
        let ghost aw = atlas_width as int;
        let mut cursor = PackingCursor { x: 0, y: 0, row_height: 0 };
        let mut i: usize = 0;
        assert(glyphs.take(0) =~= Seq::<GlyphData>::empty());
        while i < glyph_bounds.len()
            invariant
                glyphs == glyph_bounds@,
                aw == atlas_width as int,
                0 <= i <= glyphs.len(),
                packing_in_u32(glyphs, aw),
                cursor_after(glyphs.take(i as int), aw) == (RowCursor {
                    x: cursor.x as int,
                    y: cursor.y as int,
                    row_height: cursor.row_height as int,
                }),
            decreases glyphs.len() - i,
        {
            let entry = glyph_bounds[i];
            proof {
                assert(step_in_u32(glyphs, aw, i as int));
                lemma_cursor_step(glyphs, aw, i as int);
            }
            if cursor.x + entry.width > atlas_width {
                cursor.y = cursor.y + cursor.row_height + 1;
                cursor.x = 0;
                cursor.row_height = 0;
            }
            if entry.height > cursor.row_height {
                cursor.row_height = entry.height;
            }
            cursor.x = cursor.x + entry.width + 1;
            i = i + 1;
        }
        assert(glyphs.take(glyphs.len() as int) =~= glyphs);
        cursor.y + cursor.row_height
    }

    /// Top-left corner and size of every glyph when packed into rows of
    /// `atlas_width` pixels, keyed by the glyph's character (as a `u32` code
    /// point). Where two glyphs share a character, the later one is kept.
    pub fn create_metrics_table(glyph_bounds: &[GlyphData], atlas_width: u32) -> (r: HashMap<
        u32,
        GlyphPlacement,
    >)
        requires
            packing_in_u32(glyph_bounds@, atlas_width as int),
        ensures
            r@ == metrics_table(glyph_bounds@, atlas_width as int),
    {
        let ghost glyphs = glyph_bounds@;
        let ghost aw = atlas_width as int;
        let mut cursor = PackingCursor { x: 0, y: 0, row_height: 0 };
        let mut metrics: HashMap<u32, GlyphPlacement> = HashMap::new();
        let mut i: usize = 0;
        assert(glyphs.take(0) =~= Seq::<GlyphData>::empty());
        while i < glyph_bounds.len()
            invariant
                glyphs == glyph_bounds@,
                aw == atlas_width as int,
                0 <= i <= glyphs.len(),
                packing_in_u32(glyphs, aw),
                cursor_after(glyphs.take(i as int), aw) == (RowCursor {
                    x: cursor.x as int,
                    y: cursor.y as int,
                    row_height: cursor.row_height as int,
                }),
                metrics@ == metrics_upto(glyphs, aw, i as int),
            decreases glyphs.len() - i,
        {
            let entry = glyph_bounds[i];
            proof {
                assert(step_in_u32(glyphs, aw, i as int));
                lemma_cursor_step(glyphs, aw, i as int);
            }
            if cursor.x + entry.width > atlas_width {
                cursor.y = cursor.y + cursor.row_height + 1;
                cursor.x = 0;
                cursor.row_height = 0;
            }
            let placed = GlyphPlacement {
                ch: entry.ch,
                x: cursor.x,
                y: cursor.y,
                width: entry.width,
                height: entry.height,
            };
            assert(placed == placement_record(glyphs, aw, i as int));
            metrics.insert(entry.ch as u32, placed);
            if entry.height > cursor.row_height {
                cursor.row_height = entry.height;
            }
            cursor.x = cursor.x + entry.width + 1;
            i = i + 1;
        }
        metrics
    }
}

} // verus!
