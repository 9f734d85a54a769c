//! Rasterised glyphs waiting to be packed into an atlas.
use vstd::prelude::*;
use crate::raster::{Bitmap, bitmap_width, bitmap_height};

verus! {

/// One rasterised character.
pub struct GlyphData {
    ch: char,
    image: Bitmap,
}

/// All rasterised characters of a font.
pub struct Glyphs {
    pub data: Vec<GlyphData>,
}

/// Pixel area of a glyph.
pub open spec fn glyph_area(g: GlyphData) -> int {
    bitmap_width(g.spec_image()) * bitmap_height(g.spec_image())
}

/// Sum of the pixel areas of `glyphs`.
pub open spec fn total_area_of(glyphs: Seq<GlyphData>) -> int
    decreases glyphs.len(),
{
    if glyphs.len() == 0 {
        0
    } else {
        total_area_of(glyphs.drop_last()) + glyph_area(glyphs.last())
    }
}

impl GlyphData {
    pub closed spec fn spec_ch(self) -> char {
        self.ch
    }

    pub closed spec fn spec_image(self) -> Bitmap {
        self.image
    }

    /// A glyph for `ch` with the given rasterised image.
    pub fn new(ch: char, image: Bitmap) -> (r: GlyphData)
        ensures
            r.spec_ch() == ch,
            r.spec_image() == image,
    {
        GlyphData { ch, image }
    }

    pub fn character(&self) -> (r: char)
        ensures
            r == self.spec_ch(),
    {
        self.ch
    }

    pub fn image(&self) -> (r: &Bitmap)
        ensures
            *r == self.spec_image(),
    {
        &self.image
    }
}

proof fn lemma_area_nonneg(g: GlyphData)
    ensures
        glyph_area(g) >= 0,
{
    let w = bitmap_width(g.spec_image()) as int;
    let h = bitmap_height(g.spec_image()) as int;
    assert(w * h >= 0) by (nonlinear_arith)
        requires
            w >= 0,
            h >= 0,
    ;
}

proof fn lemma_total_area_monotone(glyphs: Seq<GlyphData>, n: int)
    requires
        0 <= n <= glyphs.len(),
    ensures
        0 <= total_area_of(glyphs.take(n)) <= total_area_of(glyphs),
    decreases glyphs.len() - n,
{
    if n == glyphs.len() {
        assert(glyphs.take(n) =~= glyphs);
        lemma_total_area_nonneg(glyphs);
    } else {
        lemma_total_area_monotone(glyphs, n + 1);
        let t = glyphs.take(n + 1);
        assert(t.drop_last() =~= glyphs.take(n));
        lemma_area_nonneg(t.last());
        lemma_total_area_nonneg(glyphs.take(n));
    }
}

proof fn lemma_total_area_nonneg(glyphs: Seq<GlyphData>)
    ensures
        total_area_of(glyphs) >= 0,
    decreases glyphs.len(),
{
    if glyphs.len() > 0 {
        lemma_total_area_nonneg(glyphs.drop_last());
        lemma_area_nonneg(glyphs.last());
    }
}

impl Glyphs {
    pub fn get_glyphs(&self) -> (r: &[GlyphData])
        ensures
            r@ == self.data@,
    {
        self.data.as_slice()
    }

    /// Sum of `width * height` over all glyphs. The sum is a `u32`, so it
    /// must not exceed `u32::MAX`.
    pub fn total_area(&self) -> (r: u32)
        requires
            total_area_of(self.data@) <= u32::MAX,
        ensures
            r == total_area_of(self.data@),
    {
        let ghost glyphs = self.data@;
        let mut sum: u32 = 0;
        let mut i: usize = 0;
        assert(glyphs.take(0) =~= Seq::<GlyphData>::empty());
        while i < self.data.len()
            invariant
                glyphs == self.data@,
                0 <= i <= glyphs.len(),
                total_area_of(glyphs) <= u32::MAX,
                sum == total_area_of(glyphs.take(i as int)),
            decreases glyphs.len() - i,
        {
            let g = &self.data[i];
            let w: u32 = g.image().width();
            let h: u32 = g.image().height();
            proof {
                let t = glyphs.take(i + 1);
                assert(t.drop_last() =~= glyphs.take(i as int));
                assert(t.last() == glyphs[i as int]);
                lemma_total_area_monotone(glyphs, i + 1);
                lemma_total_area_nonneg(glyphs.take(i as int));
            }
            let area: u64 = (w as u64) * (h as u64);
            sum = sum + (area as u32);
            i = i + 1;
        }
        assert(glyphs.take(glyphs.len() as int) =~= glyphs);
        sum
    }
}

} // verus!
