use font8x8::UnicodeFonts;
use luna::vga_buffer::{Bitmap, Color, ScreenChar, Writer};

fn px(buf: &Vec<u8>, x: usize, y: usize) -> u8 {
    buf[y * 320 + x]
}

#[test]
fn new_writer_is_black() {
    let w = Writer::new();
    assert_eq!(w.buffer.len(), 64000);
    assert_eq!(w.screen.len(), 64000);
    for i in 0..64000 {
        assert_eq!(w.buffer[i], 0);
        assert_eq!(w.screen[i], 0);
    }
}

#[test]
fn color_codes_match_palette() {
    assert_eq!(Color::Black.code(), 0);
    assert_eq!(Color::Blue.code(), 1);
    assert_eq!(Color::LightGray.code(), 7);
    assert_eq!(Color::LightBlue.code(), 9);
    assert_eq!(Color::LightRed.code(), 12);
    assert_eq!(Color::White.code(), 15);
}

#[test]
fn write_pixel_sets_one_byte() {
    let mut w = Writer::new();
    w.write_pixel(3, 2, Color::Red);
    w.write_raw_pixel(319, 199, 13);
    assert_eq!(px(&w.buffer, 3, 2), 4);
    assert_eq!(px(&w.buffer, 319, 199), 13);
    assert_eq!(px(&w.buffer, 2, 3), 0);
    assert_eq!(px(&w.buffer, 4, 2), 0);
    // nothing reaches the hardware surface before apply
    for i in 0..64000 {
        assert_eq!(w.screen[i], 0);
    }
}

#[test]
fn fill_and_rect_are_opaque() {
    let mut w = Writer::new();
    w.fill_buffer(Color::LightGray);
    for i in 0..64000 {
        assert_eq!(w.buffer[i], 7);
    }
    w.draw_rect(10, 20, 5, 3, Color::Blue);
    assert_eq!(px(&w.buffer, 10, 20), 1);
    assert_eq!(px(&w.buffer, 14, 22), 1);
    assert_eq!(px(&w.buffer, 9, 20), 7);
    assert_eq!(px(&w.buffer, 15, 20), 7);
    assert_eq!(px(&w.buffer, 10, 19), 7);
    assert_eq!(px(&w.buffer, 10, 23), 7);
}

#[test]
fn apply_commits_bit_for_bit() {
    let mut w = Writer::new();
    w.fill_buffer(Color::Green);
    w.draw_rect(0, 0, 16, 16, Color::Pink);
    w.write_pixel(100, 100, Color::Cyan);
    w.apply();
    assert_eq!(w.screen, w.buffer);
    // a later frame fully replaces the earlier one: no old state shows
    w.fill_buffer(Color::Black);
    w.write_pixel(0, 0, Color::White);
    assert_ne!(w.screen, w.buffer);
    w.apply();
    assert_eq!(w.screen, w.buffer);
    assert_eq!(px(&w.screen, 0, 0), 15);
    assert_eq!(px(&w.screen, 100, 100), 0);
}

#[test]
fn capture_reads_region_without_side_effect() {
    let mut w = Writer::new();
    w.fill_buffer(Color::Brown);
    w.write_raw_pixel(5, 7, 11);
    let before = w.buffer.clone();
    let bmp = w.capture_bmp(4, 6, 3, 2);
    assert_eq!(bmp.width, 3);
    assert_eq!(bmp.height, 2);
    assert_eq!(bmp.data.len(), 6);
    // row-major: (4,6) (5,6) (6,6) (4,7) (5,7) (6,7)
    assert_eq!(bmp.data, vec![6, 6, 6, 6, 11, 6]);
    assert_eq!(w.buffer, before);
}

#[test]
fn capture_then_blit_is_identity_on_nonzero_region() {
    let mut w = Writer::new();
    w.fill_buffer(Color::DarkGray);
    w.draw_rect(12, 30, 4, 4, Color::Yellow);
    let before = w.buffer.clone();
    let bmp = w.capture_bmp(10, 28, 8, 8);
    w.draw_bmp(10, 28, &bmp);
    assert_eq!(w.buffer, before);
}

#[test]
fn captured_zero_replays_as_transparent() {
    let mut w = Writer::new();
    w.fill_buffer(Color::Magenta);
    w.write_pixel(21, 41, Color::Black); // color index 0 inside the region
    let bmp = w.capture_bmp(20, 40, 4, 4);
    w.write_raw_pixel(21, 41, 14); // disturb the zero pixel
    w.draw_bmp(20, 40, &bmp);
    // the captured zero did not overwrite the disturbance
    assert_eq!(px(&w.buffer, 21, 41), 14);
    // the nonzero neighbours were restored
    assert_eq!(px(&w.buffer, 20, 40), 5);
    assert_eq!(px(&w.buffer, 23, 43), 5);
}

#[test]
fn draw_bmp_skips_zero_data() {
    let mut w = Writer::new();
    w.fill_buffer(Color::LightGreen);
    let bmp = Bitmap::new(2, 2, vec![0, 9, 0, 3]);
    w.draw_bmp(50, 60, &bmp);
    assert_eq!(px(&w.buffer, 50, 60), 10); // transparent: background kept
    assert_eq!(px(&w.buffer, 51, 60), 9);
    assert_eq!(px(&w.buffer, 50, 61), 10);
    assert_eq!(px(&w.buffer, 51, 61), 3);
}

#[test]
fn draw_char_renders_the_font_glyph() {
    let mut w = Writer::new();
    w.fill_buffer(Color::Brown); // nonzero backdrop: glyph blocks are opaque
    w.draw_char(8, 16, ScreenChar::new('A', Color::White));
    let glyph = font8x8::BASIC_FONTS.get('A').unwrap();
    let mut set_pixels = 0;
    for row in 0..8 {
        for bit in 0..8 {
            let expected = if (glyph[row] >> bit) & 1 == 1 {
                set_pixels += 1;
                15
            } else {
                0
            };
            assert_eq!(px(&w.buffer, 8 + bit, 16 + row), expected);
        }
    }
    assert!(set_pixels > 0);
    // outside the 8x8 block the backdrop is untouched
    assert_eq!(px(&w.buffer, 7, 16), 6);
    assert_eq!(px(&w.buffer, 16, 16), 6);
}

#[test]
fn draw_char_unknown_glyph_is_skipped() {
    // the basic font covers U+0000..U+007F only
    let mut w = Writer::new();
    w.fill_buffer(Color::Cyan);
    let before = w.buffer.clone();
    w.draw_char(0, 0, ScreenChar::new('\u{263a}', Color::White));
    assert_eq!(w.buffer, before);
}

#[test]
fn bitmap_new_keeps_fields() {
    let b = Bitmap::new(3, 2, vec![1, 2, 3, 4, 5, 6]);
    assert_eq!(b.width, 3);
    assert_eq!(b.height, 2);
    assert_eq!(b.data, vec![1, 2, 3, 4, 5, 6]);
}
