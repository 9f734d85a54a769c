use cube::glyph_atlas::{AtlasMetaData, GlyphData};

fn make_glyph(ch: char, width: u32, height: u32) -> GlyphData {
    GlyphData { ch, width, height }
}

#[test]
fn empty_input_returns_zero() {
    let height = AtlasMetaData::compute_atlas_height(&[], 512);
    assert_eq!(height, 0);
}

#[test]
fn single_glyph_returns_its_height() {
    let glyphs = vec![make_glyph('A', 10, 20)];
    let height = AtlasMetaData::compute_atlas_height(&glyphs, 100);
    assert_eq!(height, 20);
}

#[test]
fn multiple_glyphs_in_one_row_use_tallest_height() {
    let glyphs = vec![make_glyph('A', 20, 10), make_glyph('B', 15, 25)];
    let height = AtlasMetaData::compute_atlas_height(&glyphs, 100);
    assert_eq!(height, 25);
}

#[test]
fn glyphs_wrap_to_next_row_when_width_exceeded() {
    let glyphs = vec![make_glyph('A', 10, 5), make_glyph('B', 12, 8)];
    let height = AtlasMetaData::compute_atlas_height(&glyphs, 20);
    assert_eq!(height, 14);
}

#[test]
fn multiple_rows_with_varying_heights() {
    let glyphs = vec![
        make_glyph('A', 6, 10),
        make_glyph('B', 5, 3),
        make_glyph('C', 8, 7),
        make_glyph('D', 4, 12),
    ];
    let height = AtlasMetaData::compute_atlas_height(&glyphs, 15);
    assert_eq!(height, 23);
}

#[test]
fn glyph_exactly_at_width_boundary_does_not_wrap() {
    let glyphs = vec![make_glyph('A', 10, 5), make_glyph('B', 10, 8)];
    let height = AtlasMetaData::compute_atlas_height(&glyphs, 21);
    assert_eq!(height, 8);
}

#[test]
fn glyph_one_pixel_over_boundary_wraps() {
    let glyphs = vec![make_glyph('A', 10, 5), make_glyph('B', 10, 8)];
    let height = AtlasMetaData::compute_atlas_height(&glyphs, 20);
    assert_eq!(height, 14);
}

#[test]
fn metrics_table_places_glyphs_row_by_row() {
    let glyphs = vec![
        make_glyph('A', 6, 10),
        make_glyph('B', 5, 3),
        make_glyph('C', 8, 7),
        make_glyph('D', 4, 12),
    ];
    let table = AtlasMetaData::create_metrics_table(&glyphs, 15);
    assert_eq!(table.len(), 4);
    let mut places: Vec<(char, u32, u32)> = table.values().map(|p| (p.ch, p.x, p.y)).collect();
    places.sort();
    assert_eq!(places, vec![('A', 0, 0), ('B', 7, 0), ('C', 0, 11), ('D', 9, 11)]);
    let d = table[&('D' as u32)];
    assert_eq!(d.width, 4);
    assert_eq!(d.height, 12);
}

#[test]
fn metrics_table_keeps_last_glyph_of_a_character() {
    let glyphs = vec![make_glyph('A', 6, 10), make_glyph('B', 5, 3), make_glyph('A', 2, 2)];
    let table = AtlasMetaData::create_metrics_table(&glyphs, 15);
    assert_eq!(table.len(), 2);
    let a = table[&('A' as u32)];
    assert_eq!((a.x, a.y, a.width, a.height), (13, 0, 2, 2));
    assert!(!table.contains_key(&('C' as u32)));
}

#[test]
fn metadata_uses_one_layout_for_height_and_places() {
    let glyphs = vec![make_glyph('A', 10, 5), make_glyph('B', 12, 8), make_glyph('C', 3, 9)];
    let meta = AtlasMetaData::new(&glyphs, 20);
    assert_eq!(meta.atlas_width, 20);
    assert_eq!(meta.atlas_height, AtlasMetaData::compute_atlas_height(&glyphs, 20));
    assert_eq!(meta.atlas_height, 15);
    // every glyph lies inside the atlas, none overlap
    for p in meta.glyphs.values() {
        assert!(p.x + p.width <= 20);
        assert!(p.y + p.height <= meta.atlas_height);
    }
    let (b, c) = (meta.glyphs[&('B' as u32)], meta.glyphs[&('C' as u32)]);
    assert_eq!((b.x, b.y), (0, 6));
    assert_eq!((c.x, c.y), (13, 6));
}

#[test]
fn wide_glyph_starts_a_row_at_zero() {
    let glyphs = vec![make_glyph('A', 5, 5), make_glyph('W', 30, 4)];
    let table = AtlasMetaData::create_metrics_table(&glyphs, 20);
    let w = table[&('W' as u32)];
    assert_eq!((w.x, w.y), (0, 6));
    assert_eq!(AtlasMetaData::compute_atlas_height(&glyphs, 20), 10);
}

#[test]
fn packing_fits_detects_u32_overflow() {
    let ok = vec![make_glyph('A', 10, 5)];
    assert!(AtlasMetaData::packing_fits(&ok, 20));
    let huge = vec![make_glyph('A', u32::MAX, 5)];
    assert!(!AtlasMetaData::packing_fits(&huge, 20));
    let tall = vec![make_glyph('A', 10, u32::MAX), make_glyph('B', 15, 1)];
    assert!(!AtlasMetaData::packing_fits(&tall, 20));
}
