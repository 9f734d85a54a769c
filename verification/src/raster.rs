//! A grayscale bitmap backed by `image::GrayImage`.
use vstd::prelude::*;
use image::{GrayImage, Luma};

verus! {

/// An 8-bit grayscale image, stored row by row.
///
/// The pixels live in an `image::GrayImage`; Verus sees them through
/// `bitmap_pixels`, `bitmap_width` and `bitmap_height`.
#[verifier::external_body]
pub struct Bitmap {
    image: GrayImage,
}

/// Row-major pixel values of a bitmap (pixel `(x, y)` at index `y * width + x`).
pub uninterp spec fn bitmap_pixels(b: Bitmap) -> Seq<u8>;

/// Width the bitmap was made with.
pub uninterp spec fn bitmap_width(b: Bitmap) -> u32;

/// Height the bitmap was made with.
pub uninterp spec fn bitmap_height(b: Bitmap) -> u32;

/// Index of pixel `(x, y)` in the row-major buffer of an image `width` pixels wide.
pub open spec fn pixel_index(width: int, x: int, y: int) -> int {
    y * width + x
}

impl Bitmap {
    /// The buffer holds exactly `width * height` pixels.
    pub open spec fn wf(self) -> bool {
        bitmap_pixels(self).len() == bitmap_width(self) * bitmap_height(self)
    }

    pub open spec fn pixels(self) -> Seq<u8> {
        bitmap_pixels(self)
    }

    pub open spec fn spec_width(self) -> u32 {
        bitmap_width(self)
    }

    pub open spec fn spec_height(self) -> u32 {
        bitmap_height(self)
    }

    /// Value of pixel `(x, y)`.
    pub open spec fn at(self, x: int, y: int) -> u8 {
        bitmap_pixels(self)[pixel_index(bitmap_width(self) as int, x, y)]
    }

    /// `ImageBuffer::new`: an all-zero image of the given size. The crate
    /// panics when `width * height` does not fit in `usize`.
    #[verifier::external_body]
    pub fn new(width: u32, height: u32) -> (r: Bitmap)
        requires
            width * height <= usize::MAX,
        ensures
            bitmap_width(r) == width,
            bitmap_height(r) == height,
            bitmap_pixels(r) == Seq::new((width * height) as nat, |_i: int| 0u8),
    {
        Bitmap { image: GrayImage::new(width, height) }
    }

    /// `ImageBuffer::width`.
    #[verifier::external_body]
    pub fn width(&self) -> (r: u32)
        ensures
            r == bitmap_width(*self),
    {
        self.image.width()
    }

    /// `ImageBuffer::height`.
    #[verifier::external_body]
    pub fn height(&self) -> (r: u32)
        ensures
            r == bitmap_height(*self),
    {
        self.image.height()
    }

    /// `ImageBuffer::get_pixel`: the single channel of pixel `(x, y)`. The
    /// crate panics outside the image.
    #[verifier::external_body]
    pub fn get_pixel(&self, x: u32, y: u32) -> (r: u8)
        requires
            self.wf(),
            x < bitmap_width(*self),
            y < bitmap_height(*self),
        ensures
            r == self.at(x as int, y as int),
    {
        self.image.get_pixel(x, y).0[0]
    }

    /// `ImageBuffer::put_pixel`: sets pixel `(x, y)` and nothing else. The
    /// crate panics outside the image.
    #[verifier::external_body]
    pub fn put_pixel(&mut self, x: u32, y: u32, value: u8)
        requires
            old(self).wf(),
            x < bitmap_width(*old(self)),
            y < bitmap_height(*old(self)),
        ensures
            bitmap_width(*final(self)) == bitmap_width(*old(self)),
            bitmap_height(*final(self)) == bitmap_height(*old(self)),
            bitmap_pixels(*final(self)) == bitmap_pixels(*old(self)).update(
                pixel_index(bitmap_width(*old(self)) as int, x as int, y as int),
                value,
            ),
    {
        self.image.put_pixel(x, y, Luma([value]))
    }

    /// Length of `ImageBuffer::as_raw`: the number of stored pixels.
    #[verifier::external_body]
    pub fn pixel_count(&self) -> (r: usize)
        ensures
            r == bitmap_pixels(*self).len(),
    {
        self.image.as_raw().len()
    }

    /// Whether the buffer holds exactly `width * height` pixels.
    pub fn is_well_formed(&self) -> (r: bool)
        ensures
            r == self.wf(),
    {
        let n = self.pixel_count();
        let w: u64 = self.width() as u64;
        let h: u64 = self.height() as u64;
        assert(w * h <= 0xffff_ffff_ffff_ffff) by (nonlinear_arith)
            requires
                w <= 0xffff_ffff,
                h <= 0xffff_ffff,
        ;
        let expected: u64 = w * h;
        n as u64 == expected
    }

    /// `ImageBuffer::as_raw`, copied: the pixels row by row.
    #[verifier::external_body]
    pub fn to_raw(&self) -> (r: Vec<u8>)
        ensures
            r@ == bitmap_pixels(*self),
    {
        self.image.as_raw().clone()
    }

    /// `Clone::clone` of the image: same size, same pixels.
    #[verifier::external_body]
    pub fn duplicate(&self) -> (r: Bitmap)
        ensures
            bitmap_width(r) == bitmap_width(*self),
            bitmap_height(r) == bitmap_height(*self),
            bitmap_pixels(r) == bitmap_pixels(*self),
    {
        Bitmap { image: self.image.clone() }
    }
}

/// Distinct in-bounds pixels have distinct indices, and every in-bounds
/// pixel has an index inside the buffer.
pub proof fn lemma_pixel_index(width: int, height: int, x1: int, y1: int, x2: int, y2: int)
    requires
        0 <= x1 < width,
        0 <= x2 < width,
        0 <= y1 < height,
        0 <= y2 < height,
    ensures
        0 <= pixel_index(width, x1, y1) < width * height,
        pixel_index(width, x1, y1) == pixel_index(width, x2, y2) <==> (x1 == x2 && y1 == y2),
{
    assert(0 <= y1 * width + x1 < width * height) by (nonlinear_arith)
        requires
            0 <= x1 < width,
            0 <= y1 < height,
    ;
    if y1 < y2 {
        assert(y1 * width + x1 < y2 * width + x2) by (nonlinear_arith)
            requires
                0 <= x1 < width,
                0 <= x2,
                y1 < y2,
        ;
    } else if y2 < y1 {
        assert(y2 * width + x2 < y1 * width + x1) by (nonlinear_arith)
            requires
                0 <= x2 < width,
                0 <= x1,
                y2 < y1,
        ;
    }
}

/// Setting one pixel leaves every other pixel as it was.
pub proof fn lemma_put_pixel_frame(before: Bitmap, after: Bitmap, x: int, y: int, value: u8)
    requires
        before.wf(),
        0 <= x < bitmap_width(before),
        0 <= y < bitmap_height(before),
        bitmap_width(after) == bitmap_width(before),
        bitmap_height(after) == bitmap_height(before),
        bitmap_pixels(after) == bitmap_pixels(before).update(
            pixel_index(bitmap_width(before) as int, x, y),
            value,
        ),
    ensures
        after.wf(),
        forall|px: int, py: int|
            0 <= px < bitmap_width(before) && 0 <= py < bitmap_height(before) ==> #[trigger] after.at(
                px,
                py,
            ) == if px == x && py == y {
                value
            } else {
                before.at(px, py)
            },
{
    let w = bitmap_width(before) as int;
    let h = bitmap_height(before) as int;
    lemma_pixel_index(w, h, x, y, x, y);
    assert forall|px: int, py: int| 0 <= px < w && 0 <= py < h implies #[trigger] after.at(
        px,
        py,
    ) == if px == x && py == y {
        value
    } else {
        before.at(px, py)
    } by {
        lemma_pixel_index(w, h, px, py, x, y);
        lemma_pixel_index(w, h, x, y, px, py);
    }
}

} // verus!
