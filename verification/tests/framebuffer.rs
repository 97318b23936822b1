//! Behaviour of the framebuffer text writer.

use bruhos::stdio::framebuffer::{CommonColors, FramebufferWriter, Pixel, FONT_BYTES};
use bruhos::stdio::BUF_BYTES;

/// A glyph table that lights, for the letter `A` only, the leftmost and
/// rightmost pixel of the first glyph row.
fn test_font() -> Vec<u8> {
    let mut font = vec![0u8; FONT_BYTES];
    let offset = (b'A' as usize - 32) * 16;
    font[offset] = 0b1000_0001;
    font
}

fn small_writer(pitch: u16, height: u16) -> FramebufferWriter {
    let mut w = FramebufferWriter::new(test_font());
    let size = pitch as usize * height as usize;
    w.init(0, pitch, height, 32, size);
    w
}

#[test]
fn pixel_from_common_colors() {
    assert_eq!(Pixel::from(CommonColors::Red), Pixel::new(255, 0, 0));
    assert_eq!(Pixel::from(CommonColors::Green), Pixel::new(0, 255, 0));
    assert_eq!(Pixel::from(CommonColors::Cyan), Pixel::new(0, 255, 255));
    assert_eq!(Pixel::from(CommonColors::White), Pixel::new(255, 255, 255));
    assert_eq!(Pixel::from(CommonColors::Black), Pixel::new(0, 0, 0));
}

#[test]
fn pixel_set_overwrites_channels() {
    let mut p = Pixel::new(1, 2, 3);
    p.set(Pixel::from(CommonColors::White));
    assert_eq!(p, Pixel::new(255, 255, 255));
}

#[test]
fn new_writer_starts_blank() {
    let w = FramebufferWriter::new(test_font());
    assert_eq!(w.get_row(), 0);
    assert_eq!(w.get_col(), 0);
    assert_eq!(w.buf_len(), BUF_BYTES);
    assert_eq!(w.buf_byte(0), 0);
    assert_eq!(w.buf_byte(BUF_BYTES - 1), 0);
}

#[test]
fn init_records_device_parameters() {
    let w = small_writer(64, 32);
    assert_eq!(w.get_pitch(), 64);
    assert_eq!(w.get_height(), 32);
    assert_eq!(w.get_size(), 2048);
    assert_eq!(w.get_ptr(), 0);
}

#[test]
fn draw_paints_glyph_pixels_from_the_font() {
    let mut w = small_writer(64, 32);
    w.set_fg(Pixel::from(CommonColors::Red));
    w.draw('A');
    // Bit 7 of the glyph row paints the pixel one cell-column in:
    // bytes 4..8 hold red, 0x00FF0000 little-endian.
    assert_eq!(w.buf_byte(4), 0);
    assert_eq!(w.buf_byte(5), 0);
    assert_eq!(w.buf_byte(6), 0xFF);
    assert_eq!(w.buf_byte(7), 0);
    // Bit 0 paints the pixel eight cell-columns in: bytes 32..36.
    assert_eq!(w.buf_byte(34), 0xFF);
    // An unlit pixel of the same row stays background black.
    assert_eq!(w.buf_byte(22), 0);
    // Bytes before the cell are untouched.
    assert_eq!(w.buf_byte(0), 0);
    // The cursor advanced one cell.
    assert_eq!(w.get_col(), 8);
    assert_eq!(w.get_row(), 0);
}

#[test]
fn draw_space_paints_background() {
    let mut w = small_writer(64, 32);
    w.set_bg(Pixel::from(CommonColors::Cyan));
    w.draw(' ');
    // Cyan is 0x0000FFFF: low two bytes of every cell pixel are 0xFF.
    assert_eq!(w.buf_byte(4), 0xFF);
    assert_eq!(w.buf_byte(5), 0xFF);
    assert_eq!(w.buf_byte(6), 0);
    assert_eq!(w.buf_byte(7), 0);
}

#[test]
fn carriage_return_and_line_feed_move_the_cursor() {
    let mut w = small_writer(64, 32);
    w.draw('A');
    assert_eq!(w.get_col(), 8);
    w.draw('\r');
    assert_eq!(w.get_col(), 0);
    assert_eq!(w.get_row(), 0);
    w.draw('\n');
    assert_eq!(w.get_row(), 16);
    assert_eq!(w.get_col(), 0);
}

#[test]
fn tab_advances_twelve_cells() {
    let mut w = small_writer(512, 32);
    w.set_bg(Pixel::from(CommonColors::White));
    w.draw('\t');
    assert_eq!(w.get_col(), 96);
    assert_eq!(w.get_row(), 0);
    // The twelve space cells painted the background across the band:
    // first cell's first pixel and last cell's last pixel.
    assert_eq!(w.buf_byte(4), 0xFF);
    assert_eq!(w.buf_byte((88 + 8) * 4 + 3), 0);
    assert_eq!(w.buf_byte((88 + 8) * 4 + 2), 0xFF);
    // A byte beyond the band is untouched.
    assert_eq!(w.buf_byte(97 * 4), 0);
}

#[test]
fn glyph_at_the_bottom_row_scrolls_the_frame() {
    let mut w = small_writer(64, 32);
    w.set_fg(Pixel::from(CommonColors::Red));
    w.draw('\n');
    w.draw('\n');
    assert_eq!(w.get_row(), 32);
    w.draw('A');
    // The cursor stepped back one pixel row and advanced one cell.
    assert_eq!(w.get_row(), 31);
    assert_eq!(w.get_col(), 8);
    // The visible frame (2048 bytes) was cleared and shifted.
    for i in 0..2048 {
        assert_eq!(w.buf_byte(i), 0);
    }
    // The glyph was painted past the visible frame and survives there.
    assert_eq!(w.buf_byte(2048 + 4 + 2), 0xFF);
}
