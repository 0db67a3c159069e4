use raycaster::color::Color;
use raycaster::framebuffer::Framebuffer;

#[test]
fn color_packs_as_rrggbb() {
    assert_eq!(Color::new(0x12, 0x34, 0x56).to_hex(), 0x123456);
    assert_eq!(Color::new(0, 0, 0).to_hex(), 0);
    assert_eq!(Color::new(255, 255, 255).to_hex(), 0xFFFFFF);
    assert_eq!(Color::new(255, 221, 221).to_hex(), 0xFFDDDD);
}

#[test]
fn color_unpacks_low_24_bits() {
    assert_eq!(Color::from_hex(0x123456), Color::new(0x12, 0x34, 0x56));
    assert_eq!(Color::from_hex(0xAB00_0001), Color::new(0, 0, 1));
}

#[test]
fn color_round_trips_through_hex() {
    for r in [0u8, 1, 127, 255] {
        for g in [0u8, 2, 128, 255] {
            for b in [0u8, 3, 129, 255] {
                let c = Color::new(r, g, b);
                assert_eq!(Color::from_hex(c.to_hex()), c);
            }
        }
    }
}

#[test]
fn new_framebuffer_is_black_with_white_paint() {
    let fb = Framebuffer::new(4, 3);
    assert_eq!(fb.width, 4);
    assert_eq!(fb.height, 3);
    assert_eq!(fb.buffer.len(), 12);
    assert!(fb.buffer.iter().all(|&p| p == 0));
    assert_eq!(fb.current_color, Color::new(255, 255, 255));
    assert_eq!(fb.background_color, Color::new(0, 0, 0));
}

#[test]
fn empty_framebuffer_takes_no_pixel() {
    let mut fb = Framebuffer::new(0, 5);
    assert_eq!(fb.buffer.len(), 0);
    fb.point(0, 0, 7);
    fb.clear();
    assert_eq!(fb.get_buffer().len(), 0);
}

#[test]
fn point_writes_row_major() {
    let mut fb = Framebuffer::new(4, 3);
    fb.point(1, 2, 0xABCDEF);
    assert_eq!(fb.buffer[2 * 4 + 1], 0xABCDEF);
    assert_eq!(fb.buffer.iter().filter(|&&p| p != 0).count(), 1);
    fb.point(3, 0, 5);
    assert_eq!(fb.buffer[3], 5);
}

#[test]
fn point_outside_the_frame_changes_nothing() {
    let mut fb = Framebuffer::new(4, 3);
    fb.point(2, 1, 9);
    let before = fb.buffer.clone();
    fb.point(4, 0, 1);
    fb.point(0, 3, 1);
    fb.point(4, 3, 1);
    fb.point(usize::MAX, 1, 1);
    fb.point(1, usize::MAX, 1);
    assert_eq!(fb.buffer, before);
    assert_eq!(fb.width, 4);
    assert_eq!(fb.height, 3);
}

#[test]
fn point_at_x_equal_width_does_not_wrap_into_next_row() {
    let mut fb = Framebuffer::new(4, 3);
    fb.point(4, 0, 1);
    assert_eq!(fb.buffer[4], 0);
}

#[test]
fn clear_fills_with_background_whatever_was_there() {
    let mut fb = Framebuffer::new(3, 2);
    fb.point(0, 0, 1);
    fb.point(2, 1, 2);
    fb.set_background_color(Color::new(51, 51, 85));
    fb.clear();
    assert_eq!(fb.buffer, vec![0x333355; 6]);
    assert_eq!(fb.background_color, Color::new(51, 51, 85));
}

#[test]
fn setting_colors_leaves_pixels_alone() {
    let mut fb = Framebuffer::new(2, 2);
    fb.point(1, 1, 4);
    fb.set_current_color(Color::new(1, 2, 3));
    fb.set_background_color(Color::new(4, 5, 6));
    assert_eq!(fb.current_color, Color::new(1, 2, 3));
    assert_eq!(fb.background_color, Color::new(4, 5, 6));
    assert_eq!(fb.get_buffer(), &[0, 0, 0, 4]);
}

#[test]
fn point_offset_adds_without_wrapping() {
    let mut fb = Framebuffer::new(4, 4);
    fb.point_offset(1, 2, 0, 3, 8);
    assert_eq!(fb.buffer[3 * 4 + 3], 8);
    let before = fb.buffer.clone();
    fb.point_offset(usize::MAX, 1, 0, 0, 9);
    fb.point_offset(0, 0, usize::MAX, 2, 9);
    assert_eq!(fb.buffer, before);
}

#[test]
fn fill_rect_is_clipped_to_the_frame() {
    let mut fb = Framebuffer::new(4, 3);
    fb.fill_rect(2, 1, 5, 5, 7);
    let expected = vec![
        0, 0, 0, 0, //
        0, 0, 7, 7, //
        0, 0, 7, 7,
    ];
    assert_eq!(fb.buffer, expected);
    fb.fill_rect(0, 0, 0, 3, 9);
    fb.fill_rect(9, 9, 2, 2, 9);
    assert_eq!(fb.buffer, expected);
}

#[test]
fn point_current_uses_the_last_color_set() {
    let mut fb = Framebuffer::new(3, 2);
    fb.point_current(0, 0);
    fb.set_current_color(Color::new(1, 2, 3));
    fb.point_current(2, 1);
    fb.point_current(3, 1);
    fb.point_current(2, 2);
    assert_eq!(fb.buffer, vec![0xFFFFFF, 0, 0, 0, 0, 0x010203]);
    assert_eq!(fb.current_color, Color::new(1, 2, 3));
}
