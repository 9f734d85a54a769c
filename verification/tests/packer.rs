use cube::glyph::{GlyphData, Glyphs};
use cube::packer::{ceil_sqrt, next_power_of_two, round_to_f32, sqrt_rounds_down_to, AtlasDimensions, Cursor, GlyphEnd, GlyphStart, Packer};
use cube::raster::Bitmap;

fn glyph(ch: char, width: u32, height: u32, seed: u8) -> GlyphData {
    let mut image = Bitmap::new(width, height);
    for y in 0..height {
        for x in 0..width {
            image.put_pixel(x, y, seed.wrapping_add((y * width + x) as u8));
        }
    }
    GlyphData::new(ch, image)
}

#[test]
fn next_power_of_two_matches_std() {
    for n in [0u32, 1, 2, 3, 4, 5, 17, 64, 65, 1000, 65536, 0x8000_0000] {
        assert_eq!(next_power_of_two(n), n.next_power_of_two());
    }
}

#[test]
fn ceil_sqrt_rounds_up() {
    assert_eq!(ceil_sqrt(0), 0);
    assert_eq!(ceil_sqrt(1), 1);
    assert_eq!(ceil_sqrt(2), 2);
    assert_eq!(ceil_sqrt(600), 25);
    assert_eq!(ceil_sqrt(625), 25);
    assert_eq!(ceil_sqrt(626), 26);
    assert_eq!(ceil_sqrt(u32::MAX as u64), 65536);
    assert_eq!(ceil_sqrt(1u64 << 32), 65536);
}

#[test]
fn atlas_dimensions_for_areas() {
    let d = AtlasDimensions::new(100);
    assert_eq!((d.x, d.y), (32, 32));
    let d = AtlasDimensions::new(1000);
    assert_eq!((d.x, d.y), (128, 64));
    let d = AtlasDimensions::new(0);
    assert_eq!((d.x, d.y), (1, 1));
    let d = AtlasDimensions::new(u32::MAX);
    assert_eq!((d.x, d.y), (65536, 65536));
}

#[test]
fn cursor_starts_at_origin() {
    let c = Cursor::new(&AtlasDimensions { x: 64, y: 32 }, 2);
    assert_eq!(c.atlas_width, 64);
    assert_eq!(c.padding, 2);
    assert_eq!((c.last_written.x_pos, c.last_written.y_pos), (0, 0));
    assert_eq!((c.current_top_row_y, c.current_row_height), (0, 0));
}

#[test]
fn cursor_moves_right_then_wraps() {
    let mut c = Cursor::new(&AtlasDimensions { x: 20, y: 64 }, 2);
    let s = c.next_glyph_start(8, 5);
    assert_eq!((s.x_pos, s.top_row_y), (2, 0));
    c.advance(s, GlyphEnd { x_pos: 10, y_pos: 5, height: 5 });
    let s = c.next_glyph_start(8, 7);
    assert_eq!((s.x_pos, s.top_row_y), (12, 0));
    c.advance(s, GlyphEnd { x_pos: 20, y_pos: 7, height: 7 });
    assert_eq!(c.current_row_height, 7);
    // 20 + 2 + 1 > 20: next row, below the tallest glyph so far
    let s = c.next_glyph_start(1, 3);
    assert_eq!((s.x_pos, s.top_row_y), (2, 9));
    c.advance(s, GlyphEnd { x_pos: 3, y_pos: 12, height: 3 });
    assert_eq!(c.current_top_row_y, 9);
    assert_eq!(c.current_row_height, 7);
}

#[test]
fn cursor_helpers() {
    let c = Cursor {
        atlas_width: 10,
        last_written: cube::packer::LastWrittenEnd { x_pos: 6, y_pos: 4 },
        padding: 1,
        current_top_row_y: 3,
        current_row_height: 4,
    };
    assert!(!c.is_out_of_width(3));
    assert!(c.is_out_of_width(4));
    let s: GlyphStart = c.add_x_padding();
    assert_eq!((s.x_pos, s.top_row_y), (7, 3));
    let s = c.move_to_next_row(9);
    assert_eq!((s.x_pos, s.top_row_y), (1, 8));
}

#[test]
fn total_area_sums_glyphs() {
    let glyphs = Glyphs { data: vec![glyph('a', 3, 4, 0), glyph('b', 5, 2, 0), glyph('c', 0, 9, 0)] };
    assert_eq!(glyphs.total_area(), 22);
    assert_eq!(glyphs.get_glyphs().len(), 3);
    assert_eq!(glyphs.get_glyphs()[1].character(), 'b');
}

#[test]
fn packer_writes_glyphs_where_it_reports() {
    let glyphs = vec![glyph('a', 5, 3, 10), glyph('b', 4, 6, 50), glyph('c', 6, 2, 90)];
    let area: u32 = 5 * 3 + 4 * 6 + 6 * 2;
    let mut packer = Packer::new(area);
    assert!(packer.can_pack(&glyphs));
    let layout = packer.pack_to_atlas(&glyphs);
    let w = layout.image.width();
    assert_eq!((w, layout.image.height()), (32, 16));
    assert_eq!(layout.glyphs.len(), 3);
    let starts: Vec<(char, u32, u32)> =
        layout.glyphs.iter().map(|g| (g.ch, g.start.x_pos, g.start.top_row_y)).collect();
    assert_eq!(starts, vec![('a', 2, 0), ('b', 9, 0), ('c', 15, 0)]);
    let raw = layout.image.to_raw();
    for (g, placed) in glyphs.iter().zip(layout.glyphs.iter()) {
        assert_eq!(placed.end.x_pos, placed.start.x_pos + placed.width);
        assert_eq!(placed.end.y_pos, placed.start.top_row_y + placed.height);
        for y in 0..placed.height {
            for x in 0..placed.width {
                let at = ((placed.start.top_row_y + y) * w + placed.start.x_pos + x) as usize;
                assert_eq!(raw[at], g.image().get_pixel(x, y));
            }
        }
    }
    // untouched pixels stay zero
    assert_eq!(raw[0], 0);
    assert_eq!(raw[(w * 10 + 31) as usize], 0);
}

#[test]
fn packer_wraps_to_new_rows() {
    let glyphs: Vec<GlyphData> = [2u32, 3, 2].iter().map(|&h| glyph('x', 9, h, h as u8)).collect();
    let mut packer = Packer::new(40);
    let d = AtlasDimensions::new(40);
    assert_eq!((d.x, d.y), (16, 16));
    assert!(packer.can_pack(&glyphs));
    let layout = packer.pack_to_atlas(&glyphs);
    let starts: Vec<(u32, u32)> = layout.glyphs.iter().map(|g| (g.start.x_pos, g.start.top_row_y)).collect();
    assert_eq!(starts, vec![(2, 0), (2, 4), (2, 9)]);
    // five growing glyphs would reach past the 16 rows of this atlas
    let taller: Vec<GlyphData> = (0..5).map(|i| glyph('x', 9, 4 + i, 0)).collect();
    assert!(!Packer::new(40).can_pack(&taller));
}

#[test]
fn can_pack_refuses_glyphs_outside_the_atlas() {
    let packer = Packer::new(4);
    let too_wide = vec![glyph('w', 40, 2, 0)];
    assert!(!packer.can_pack(&too_wide));
    let fine = vec![glyph('f', 2, 2, 0)];
    assert!(packer.can_pack(&fine));
}

#[test]
fn bitmap_pixels() {
    let mut b = Bitmap::new(3, 2);
    assert!(b.is_well_formed());
    assert_eq!(b.pixel_count(), 6);
    b.put_pixel(2, 1, 200);
    assert_eq!(b.get_pixel(2, 1), 200);
    assert_eq!(b.to_raw(), vec![0, 0, 0, 0, 0, 200]);
    let c = b.duplicate();
    assert_eq!(c.to_raw(), b.to_raw());
}

#[test]
fn cursor_placements_never_overlap() {
    let mut c = Cursor::new(&AtlasDimensions { x: 24, y: 64 }, 2);
    let sizes = [(5u32, 7u32), (9, 3), (6, 10), (4, 4), (20, 2), (3, 8)];
    let mut placed: Vec<(u32, u32, u32, u32)> = Vec::new();
    for &(w, h) in sizes.iter() {
        let s = c.next_glyph_start(w, h);
        assert!(s.x_pos >= 2);
        assert!(s.x_pos + w <= 24);
        for &(x, y, pw, ph) in placed.iter() {
            let apart = x + pw <= s.x_pos || s.x_pos + w <= x || y + ph <= s.top_row_y || s.top_row_y + h <= y;
            assert!(apart);
        }
        placed.push((s.x_pos, s.top_row_y, w, h));
        let end = GlyphEnd { x_pos: s.x_pos + w, y_pos: s.top_row_y + h, height: h };
        c.advance(s, end);
    }
    assert_eq!(placed[0], (2, 0, 5, 7));
    assert_eq!(placed[1], (9, 0, 9, 3));
    assert_eq!(placed[2], (2, 9, 6, 10));
    assert_eq!(placed[3], (10, 9, 4, 4));
    assert_eq!(placed[4], (2, 21, 20, 2));
    assert_eq!(placed[5], (2, 33, 3, 8));
}

/// The atlas size as `f32` arithmetic computes it.
fn float_dimensions(total_area: u32) -> (u32, u32) {
    let with_overhead = (total_area as f32 * 6.0).ceil() as u32;
    let width = ((with_overhead as f32).sqrt().ceil() as u32).next_power_of_two();
    let height = ((with_overhead as f32 / width as f32).ceil() as u32).next_power_of_two();
    (width, height)
}

#[test]
fn atlas_dimensions_follow_float_arithmetic() {
    let mut areas: Vec<u32> = vec![0, 1, 2, 3, 5, 100, 1000, 2796202, 2796203, 2796204, 16777215, 16777216, 16777217];
    areas.extend([u32::MAX, u32::MAX - 1, 715827882, 715827883, 1 << 31, (1 << 31) - 1, 11184810, 11184811]);
    let mut a: u64 = 7;
    while a < u32::MAX as u64 {
        areas.push(a as u32);
        areas.push((a + 1) as u32);
        a = a * 21 / 20 + 3;
    }
    for k in [4096u64, 5000, 8191, 8192, 30000, 46341, 65535] {
        for delta in [0u64, 1, 2, 3] {
            let m = k * k + delta;
            if m / 6 <= u32::MAX as u64 {
                areas.push((m / 6) as u32);
                areas.push((m / 6 + 1) as u32);
            }
        }
    }
    for area in areas {
        let d = AtlasDimensions::new(area);
        assert_eq!((d.x, d.y), float_dimensions(area), "area {area}");
    }
    let d = AtlasDimensions::new(2796203);
    assert_eq!((d.x, d.y), (4096, 8192));
}

#[test]
fn integer_f32_rounding() {
    for n in [0u64, 1, 16777215, 16777216, 16777217, 16777218, 16777219, 33554431, 33554433, 33554435, 4294967295, 4294967040, 4294967168, 4294967169, 25769803770, 0xff_ffff_ffff] {
        assert_eq!(round_to_f32(n), (n as f32) as u64, "{n}");
    }
    assert!(sqrt_rounds_down_to(16777217, 4096));
    assert!(!sqrt_rounds_down_to(16777216 + 8193, 4096));
    assert!(!sqrt_rounds_down_to(26, 5));
}
