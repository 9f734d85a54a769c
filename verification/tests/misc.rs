use cube::atlas_buffer::{blit_fits, blit_glyph};
use cube::config::{AppConfig, Positions};
use cube::counter::FpsCounter;
use cube::renderer_pool::RendererPool;

#[test]
fn renderer_pool_switches_only_to_existing_renderers() {
    let mut pool: RendererPool<&str> = RendererPool::new();
    assert!(pool.is_empty());
    assert!(!pool.switch_active(0));
    pool.add_renderer("cube");
    pool.add_renderer("proc");
    assert_eq!(pool.len(), 2);
    assert_eq!(pool.active_index(), 0);
    assert_eq!(*pool.active(), "cube");
    assert!(pool.switch_active(1));
    assert_eq!(*pool.active(), "proc");
    assert!(!pool.switch_active(2));
    assert_eq!(pool.active_index(), 1);
    *pool.active() = "overlay";
    assert!(pool.switch_active(1));
    assert_eq!(*pool.active(), "overlay");
    let d: RendererPool<u8> = RendererPool::default();
    assert_eq!(d.len(), 0);
}

#[test]
fn fps_counter_keeps_last_sixty_frames() {
    let mut c = FpsCounter::new();
    assert_eq!(c.sample_count(), 0);
    assert_eq!(c.total_frame_time(), 0);
    for i in 0..100u64 {
        c.record_frame_time(i);
    }
    assert_eq!(c.sample_count(), 60);
    assert_eq!(c.total_frame_time(), (40..100u128).sum::<u128>());
    c.record_frame_time(u64::MAX);
    assert_eq!(c.total_frame_time(), (41..100u128).sum::<u128>() + u64::MAX as u128);
}

#[test]
fn defaults() {
    assert!(AppConfig::default().debug_ui_enabled);
    assert!(Positions::default() == Positions::First);
    assert!(Positions::Second != Positions::Third);
}

#[test]
fn blit_copies_rows() {
    let mut atlas = vec![0u8; 8 * 4];
    blit_glyph(&mut atlas, 8, 2, 1, 3, 2, &[1, 2, 3, 4, 5, 6]);
    let mut expected = vec![0u8; 32];
    expected[8 + 2..8 + 5].copy_from_slice(&[1, 2, 3]);
    expected[16 + 2..16 + 5].copy_from_slice(&[4, 5, 6]);
    assert_eq!(atlas, expected);
}

#[test]
fn blit_skips_out_of_range_copies() {
    let mut atlas = vec![0u8; 4 * 2];
    // glyph wider than the atlas: columns past the edge spill into the next row
    blit_glyph(&mut atlas, 4, 2, 0, 3, 2, &[1, 2, 3, 4, 5]);
    assert_eq!(atlas, vec![0, 0, 1, 2, 3, 0, 4, 5]);
}

#[test]
fn blit_fits_checks_u32_indices() {
    assert!(blit_fits(512, 0, 0, 0, 7));
    assert!(blit_fits(512, 10, 20, 30, 40));
    assert!(blit_fits(65536, 65535, 65534, 1, 2));
    assert!(!blit_fits(65536, 65535, 65535, 2, 2));
    assert!(!blit_fits(1, u32::MAX, 0, 2, 1));
    assert!(!blit_fits(1, 0, 0, 65536, 65537));
}
