use nomouse::render::{
    alpha_blend, alpha_multiply, composite_glyph, draw_border, draw_rect, fill_bytes, get_pixel,
    set_pixel,
};
use nomouse::CoreError;

#[test]
fn blend_opaque_foreground_wins() {
    // Fully opaque foreground over any background returns the foreground.
    assert_eq!(alpha_blend((255, 0, 0, 255), (10, 20, 30, 40)), (255, 0, 0, 255));
    assert_eq!(alpha_blend((255, 0, 0, 255), (0, 0, 0, 0)), (255, 0, 0, 255));
    assert_eq!(alpha_blend((1, 2, 3, 255), (200, 200, 200, 200)), (1, 2, 3, 255));
}

#[test]
fn blend_transparent_foreground_keeps_background() {
    assert_eq!(alpha_blend((0, 0, 0, 0), (10, 20, 30, 255)), (10, 20, 30, 255));
    assert_eq!(alpha_blend((0, 0, 0, 0), (7, 8, 9, 1)), (7, 8, 9, 1));
    assert_eq!(alpha_blend((0, 0, 0, 0), (0, 0, 0, 0)), (0, 0, 0, 0));
}

#[test]
fn blend_both_fully_transparent_is_canonical_transparent() {
    assert_eq!(alpha_blend((0, 0, 0, 0), (5, 6, 7, 0)), (0, 0, 0, 0));
}

#[test]
fn blend_partial_alpha_exact_values() {
    // inv = 255 - 128 = 127; channel = c_f + c_b * 127 / 255 truncated.
    let out = alpha_blend((100, 50, 0, 128), (10, 20, 30, 64));
    assert_eq!(out, (104, 59, 14, 159));
}

#[test]
fn blend_channel_saturates() {
    // 200 + 200 * (255 - 0) / 255 = 400, clipped to 255.
    let out = alpha_blend((200, 0, 0, 0), (200, 0, 0, 255));
    assert_eq!(out.0, 255);
}

#[test]
fn premultiply_exact_values() {
    assert_eq!(alpha_multiply((255, 128, 10, 128)), (128, 64, 5, 128));
    assert_eq!(alpha_multiply((255, 255, 255, 255)), (255, 255, 255, 255));
    assert_eq!(alpha_multiply((90, 91, 92, 0)), (0, 0, 0, 0));
}

#[test]
fn set_then_get_pixel_round_trip() {
    let mut buf = vec![0u8; 16];
    let r = set_pixel(&mut buf, 1, 0, 4, (255, 0, 0, 255));
    assert!(r.is_ok());
    assert_eq!(get_pixel(&buf, 1, 0, 4), (255, 0, 0, 255));
    // BGRA storage order of pixel (1, 0).
    assert_eq!(&buf[4..8], &[0, 0, 255, 255]);
}

#[test]
fn set_pixel_out_of_bounds_is_rejected() {
    let mut buf = vec![7u8; 16];
    let before = buf.clone();
    assert_eq!(set_pixel(&mut buf, 4, 0, 4, (1, 2, 3, 4)), Err(CoreError::BoundsViolation));
    assert_eq!(set_pixel(&mut buf, 0, 1, 4, (1, 2, 3, 4)), Err(CoreError::BoundsViolation));
    assert_eq!(buf, before);
}

#[test]
fn draw_rect_composites_every_pixel() {
    let mut buf = vec![0u8; 2 * 2 * 4];
    draw_rect(&mut buf, 0, 0, 2, 2, 2, (255, 0, 0, 255));
    for y in 0..2 {
        for x in 0..2 {
            assert_eq!(get_pixel(&buf, x, y, 2), (255, 0, 0, 255));
        }
    }
}

#[test]
fn draw_rect_blends_against_existing_content() {
    let mut buf = vec![0u8; 4];
    set_pixel(&mut buf, 0, 0, 1, (0, 200, 0, 255)).unwrap();
    // Half-transparent red over opaque green: r = 100, g = 0 + 200*155/255 = 121.
    draw_rect(&mut buf, 0, 0, 1, 1, 1, (100, 0, 0, 100));
    assert_eq!(get_pixel(&buf, 0, 0, 1), (100, 121, 0, 255));
}

#[test]
fn draw_border_edge_colors() {
    let mut buf = vec![0u8; 4 * 4 * 4];
    draw_border(&mut buf, 0, 0, 2, 2, 4);
    // Left and right edges are opaque black and win at the crossings.
    assert_eq!(get_pixel(&buf, 0, 0, 4), (0, 0, 0, 255));
    assert_eq!(get_pixel(&buf, 2, 0, 4), (0, 0, 0, 255));
    assert_eq!(get_pixel(&buf, 0, 1, 4), (0, 0, 0, 255));
    assert_eq!(get_pixel(&buf, 2, 1, 4), (0, 0, 0, 255));
    // Top and bottom edges are opaque white between the corners.
    assert_eq!(get_pixel(&buf, 1, 0, 4), (255, 255, 255, 255));
    assert_eq!(get_pixel(&buf, 1, 2, 4), (255, 255, 255, 255));
    assert_eq!(get_pixel(&buf, 0, 2, 4), (255, 255, 255, 255));
    // Interior and untouched pixels keep their bytes.
    assert_eq!(get_pixel(&buf, 1, 1, 4), (0, 0, 0, 0));
    assert_eq!(get_pixel(&buf, 3, 3, 4), (0, 0, 0, 0));
}

#[test]
fn draw_border_clips_outside_surface() {
    // A border touching the right/bottom surface edge writes only what fits.
    let mut buf = vec![0u8; 4 * 4 * 4];
    let before = buf.clone();
    draw_border(&mut buf, 0, 0, 4, 4, 4);
    // The right edge column (x = 4) and bottom row (y = 4) are skipped.
    assert_eq!(get_pixel(&buf, 0, 0, 4), (0, 0, 0, 255));
    assert_eq!(get_pixel(&buf, 3, 0, 4), (255, 255, 255, 255));
    assert_eq!(get_pixel(&buf, 0, 3, 4), (0, 0, 0, 255));
    // Interior untouched.
    assert_eq!(get_pixel(&buf, 2, 2, 4), (0, 0, 0, 0));
    assert_ne!(buf, before);
}

#[test]
fn fill_bytes_overwrites_whole_pixels_only() {
    let mut buf = vec![7u8; 10];
    fill_bytes(&mut buf, (129, 128, 128, 128));
    assert_eq!(&buf[0..8], &[129, 128, 128, 128, 129, 128, 128, 128]);
    // The trailing incomplete pixel is untouched.
    assert_eq!(&buf[8..10], &[7, 7]);
}

#[test]
fn composite_glyph_lands_at_label_inset() {
    let mut buf = vec![0u8; 8 * 8 * 4];
    composite_glyph(&mut buf, 0, 0, 0, 0, 1, 1, 8, (0, 0, 0, 255));
    assert_eq!(get_pixel(&buf, 5, 5, 8), (0, 0, 0, 255));
    assert_eq!(get_pixel(&buf, 4, 5, 8), (0, 0, 0, 0));
    assert_eq!(get_pixel(&buf, 6, 5, 8), (0, 0, 0, 0));
}
