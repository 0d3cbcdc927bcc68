use sillos::console::{Console, RenderOp};
use sillos::fb::{Color, Framebuffer};
use sillos::font::Font;

fn screen(width: usize, height: usize) -> Framebuffer {
    Framebuffer::new(width, height, width * 4, 16, 8, 0)
}

#[test]
fn colors_pack_into_pixels() {
    let fb = screen(4, 3);
    assert_eq!(fb.color_to_u32(Color::RED()), 0x00ff_0000);
    assert_eq!(fb.color_to_u32(Color::GREEN()), 0x0000_ff00);
    assert_eq!(fb.color_to_u32(Color::WHITE()), 0x00ff_ffff);
    assert!(Color::from_name("blue").is_some());
    assert!(Color::from_name("mauve").is_none());
}

#[test]
fn put_pixel_marks_and_present_hands_out_once() {
    let mut fb = screen(4, 3);
    fb.put_pixel(1, 2, Color::RED());
    assert_eq!(fb.backbuffer()[2 * 4 + 1], 0x00ff_0000);
    assert_eq!(fb.present(), Some((1, 2, 2, 3)));
    assert_eq!(fb.present(), None);
    // Off-screen pixels change nothing.
    fb.put_pixel(4, 0, Color::RED());
    assert_eq!(fb.present(), None);
}

#[test]
fn draw_rect_is_clipped() {
    let mut fb = screen(4, 3);
    fb.draw_rect(2, 1, 10, 10, Color::BLUE());
    let back = fb.backbuffer();
    for y in 0..3 {
        for x in 0..4 {
            let expected = if x >= 2 && y >= 1 { 0xff } else { 0 };
            assert_eq!(back[y * 4 + x], expected);
        }
    }
    assert_eq!(fb.present(), Some((2, 1, 4, 3)));
}

#[test]
fn scroll_moves_rows_up_and_fills_the_bottom() {
    let mut fb = screen(2, 3);
    fb.put_pixel(0, 1, Color::RED());
    fb.put_pixel(1, 2, Color::GREEN());
    fb.scroll_up(1, Color::WHITE());
    let back = fb.backbuffer().to_vec();
    assert_eq!(back, vec![0x00ff_0000, 0, 0, 0x0000_ff00, 0x00ff_ffff, 0x00ff_ffff]);
    fb.scroll_up(5, Color::BLACK());
    assert!(fb.backbuffer().iter().all(|&p| p == 0));
}

#[test]
fn clear_fills_every_pixel() {
    let mut fb = screen(3, 2);
    fb.clear(Color::GREEN());
    assert!(fb.backbuffer().iter().all(|&p| p == 0x0000_ff00));
    assert_eq!(fb.present_full(), Some((0, 0, 3, 2)));
}

/// A 16x32 PSF2 font of 256 glyphs in which only 'A' has pixels: all of
/// them.
fn test_font() -> Font {
    let mut data = vec![0u8; 32 + 256 * 64];
    data[..4].copy_from_slice(&[0x72, 0xb5, 0x4a, 0x86]);
    data[8..12].copy_from_slice(&32u32.to_le_bytes());
    data[16..20].copy_from_slice(&256u32.to_le_bytes());
    data[20..24].copy_from_slice(&64u32.to_le_bytes());
    data[24..28].copy_from_slice(&32u32.to_le_bytes());
    data[28..32].copy_from_slice(&16u32.to_le_bytes());
    let a = 32 + 65 * 64;
    for byte in &mut data[a..a + 64] {
        *byte = 0xff;
    }
    Font::new(Box::leak(data.into_boxed_slice()))
}

#[test]
fn draw_char_sets_the_glyph_at_half_size() {
    let font = test_font();
    let mut fb = screen(20, 20);
    font.draw_char(&mut fb, 2, 1, b'A', Color::WHITE());
    let back = fb.backbuffer();
    for y in 0..20 {
        for x in 0..20 {
            let inside = (2..10).contains(&x) && (1..17).contains(&y);
            assert_eq!(back[y * 20 + x] != 0, inside, "pixel ({}, {})", x, y);
        }
    }
    font.draw_char(&mut fb, 12, 1, b'B', Color::WHITE());
    assert!(back_is_blank_from(&fb, 12));
}

fn back_is_blank_from(fb: &Framebuffer, x0: usize) -> bool {
    let back = fb.backbuffer();
    (0..20).all(|y| (x0..20).all(|x| back[y * 20 + x] == 0))
}

#[test]
fn draw_text_advances_by_character_width() {
    let font = test_font();
    let mut fb = screen(40, 20);
    font.draw_text(&mut fb, 0, 0, "AxA", Color::WHITE());
    let back = fb.backbuffer();
    assert!(back[0] != 0 && back[7] != 0);
    assert!(back[8] == 0 && back[15] == 0);
    assert!(back[16] != 0 && back[23] != 0);
    assert!(back[24] == 0);
}

#[test]
fn console_render_draws_cells() {
    let font = test_font();
    let mut fb = screen(80, 32);
    let mut console = Console::new(80, 32);
    console.write_str("A");
    console.render(&mut fb, &font);
    let foreground = fb.color_to_u32(console.get_foreground());
    assert_eq!(fb.backbuffer()[0], foreground);
}

#[test]
fn console_scrolls_when_full() {
    let mut console = Console::new(16, 32);
    console.write_str("ab\ncd\nef");
    // Two rows of two columns: the first row scrolled away.
    assert_eq!(console.cursor_y, 1);
    assert!(console.pending.iter().any(|op| matches!(op, RenderOp::Scroll { .. })));
}

#[test]
fn console_keyboard_line_editing() {
    let mut console = Console::new(80, 32);
    console.receive_key('h');
    console.receive_key('i');
    console.receive_key('x');
    console.receive_key('\u{8}');
    assert!(!console.line_ready);
    console.receive_key('\n');
    assert!(console.line_ready);
    let mut buffer = [0u8; 8];
    assert_eq!(console.read_line(&mut buffer), Some(2));
    assert_eq!(&buffer[..2], b"hi");
}
