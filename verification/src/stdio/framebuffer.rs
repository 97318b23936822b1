//! Framebuffer text writer.
//!
//! The writer composes its frame in an in-memory back buffer and renders
//! glyphs from a bitmap font table: 16 bytes per glyph, one byte per pixel
//! row, bit `x` of a row lighting the pixel `8 - x` columns into the cell.
//! Pushing the back buffer to the device, and the device address itself,
//! are the surrounding program's business.

use crate::stdio::BUF_BYTES;
use vstd::prelude::*;

verus! {

/// Size in bytes of the glyph table: 256 glyphs of 16 bytes.
pub const FONT_BYTES: usize = 4096;

/// Width in pixels of one glyph cell.
pub const GLYPH_WIDTH: u16 = 8;

/// Height in pixel rows of one glyph cell.
pub const GLYPH_HEIGHT: u16 = 16;

/// An RGB pixel.
#[derive(Clone, Copy, PartialEq, Eq, Structural, Debug)]
pub struct Pixel {
    /// Red channel.
    pub r: u8,
    /// Green channel.
    pub g: u8,
    /// Blue channel.
    pub b: u8,
}

/// The 32-bit `0RGB` pattern of a pixel.
pub open spec fn spec_as_bits(p: Pixel) -> u32 {
    (p.r as u32) << 16u32 | (p.g as u32) << 8u32 | (p.b as u32)
}

/// Byte `b` (little-endian) of the 32-bit pattern of pixel `p`.
pub open spec fn pixel_byte(p: Pixel, b: int) -> u8 {
    (spec_as_bits(p) >> ((b * 8) as u32)) as u8
}

impl Pixel {
    /// The 32-bit `0RGB` pattern of this pixel.
    pub fn as_bits(&self) -> (r: u32)
        ensures
            r == spec_as_bits(*self),
    {
        (self.r as u32) << 16u32 | (self.g as u32) << 8u32 | (self.b as u32)
    }

    /// Build a pixel from its three channels.
    pub fn new(r: u8, g: u8, b: u8) -> (p: Pixel)
        ensures
            p == (Pixel { r, g, b }),
    {
        Pixel { r, g, b }
    }

    /// Overwrite this pixel with another.
    pub fn set(&mut self, to: Pixel)
        ensures
            *final(self) == to,
    {
        self.r = to.r;
        self.g = to.g;
        self.b = to.b;
    }
}

/// The handful of colors the kernel's console messages use.
#[derive(Clone, Copy, PartialEq, Eq, Structural, Debug)]
pub enum CommonColors {
    /// Pure red.
    Red,
    /// Pure green.
    Green,
    /// Cyan.
    Cyan,
    /// White.
    White,
    /// Black.
    Black,
}

impl From<CommonColors> for Pixel {
    fn from(c: CommonColors) -> (p: Pixel) {
        match c {
            CommonColors::Red => Pixel::new(255, 0, 0),
            CommonColors::Green => Pixel::new(0, 255, 0),
            CommonColors::Cyan => Pixel::new(0, 255, 255),
            CommonColors::White => Pixel::new(255, 255, 255),
            CommonColors::Black => Pixel::new(0, 0, 0),
        }
    }
}

impl vstd::std_specs::convert::FromSpecImpl<CommonColors> for Pixel {
    open spec fn obeys_from_spec() -> bool {
        true
    }

    open spec fn from_spec(c: CommonColors) -> Pixel {
        match c {
            CommonColors::Red => Pixel { r: 255, g: 0, b: 0 },
            CommonColors::Green => Pixel { r: 0, g: 255, b: 0 },
            CommonColors::Cyan => Pixel { r: 0, g: 255, b: 255 },
            CommonColors::White => Pixel { r: 255, g: 255, b: 255 },
            CommonColors::Black => Pixel { r: 0, g: 0, b: 0 },
        }
    }
}

/// Strict lexicographic order on (pixel row, pixel column) pairs.
pub open spec fn lex_lt(y1: int, x1: int, y2: int, x2: int) -> bool {
    y1 < y2 || (y1 == y2 && x1 < x2)
}

/// Back-buffer byte index of byte `b` of the pixel at glyph coordinates
/// `(y, x)` for a cell drawn at cursor `(row, col)`: the pixel sits
/// `8 - x` columns into the cell, four bytes per pixel, `pitch` bytes per
/// pixel row.
pub open spec fn cell_index(row: int, col: int, pitch: int, y: int, x: int, b: int) -> int {
    (col + 8 - x) * 4 + (row + y) * pitch + b
}

/// Whether bit `x` of glyph row `y` of character `c` is lit in `font`.
pub open spec fn glyph_on(font: Seq<u8>, c: char, y: int, x: int) -> bool {
    (font[(c as int - 32) * 16 + y] >> (x as u8)) & 1u8 == 1u8
}

/// Whether `i` is a byte of some cell pixel strictly before glyph
/// coordinates `(y, x)` in drawing order.
pub open spec fn in_cell_before(row: int, col: int, pitch: int, i: int, y: int, x: int) -> bool {
    exists|yy: int, xx: int, bb: int|
        lex_lt(yy, xx, y, x) && 0 <= yy < 16 && 0 <= xx < 8 && 0 <= bb < 4 && i
            == #[trigger] cell_index(row, col, pitch, yy, xx, bb)
}

/// Whether `i` is a byte of the glyph cell drawn at `(row, col)`.
pub open spec fn in_cell(row: int, col: int, pitch: int, i: int) -> bool {
    in_cell_before(row, col, pitch, i, 16, 0)
}

/// Two writers share every configuration datum: device parameters,
/// colors and glyph table.
pub open spec fn same_config(a: FramebufferWriter, b: FramebufferWriter) -> bool {
    &&& a.spec_ptr() == b.spec_ptr()
    &&& a.spec_pitch() == b.spec_pitch()
    &&& a.spec_height() == b.spec_height()
    &&& a.spec_size() == b.spec_size()
    &&& a.spec_fg() == b.spec_fg()
    &&& a.spec_bg() == b.spec_bg()
    &&& a.font_data() == b.font_data()
}

/// Distinct glyph coordinates paint distinct back-buffer bytes, provided
/// a whole cell fits between two row starts.
proof fn lemma_cell_index_inj(
    row: int,
    col: int,
    pitch: int,
    y1: int,
    x1: int,
    b1: int,
    y2: int,
    x2: int,
    b2: int,
)
    requires
        0 <= row,
        0 <= col,
        (col + 9) * 4 <= pitch,
        0 <= y1 < 16,
        0 <= x1 < 8,
        0 <= b1 < 4,
        0 <= y2 < 16,
        0 <= x2 < 8,
        0 <= b2 < 4,
        cell_index(row, col, pitch, y1, x1, b1) == cell_index(row, col, pitch, y2, x2, b2),
    ensures
        y1 == y2,
        x1 == x2,
        b1 == b2,
{
    let i = cell_index(row, col, pitch, y1, x1, b1);
    let r1 = (col + 8 - x1) * 4 + b1;
    let r2 = (col + 8 - x2) * 4 + b2;
    vstd::arithmetic::div_mod::lemma_fundamental_div_mod_converse(i, pitch, row + y1, r1);
    vstd::arithmetic::div_mod::lemma_fundamental_div_mod_converse(i, pitch, row + y2, r2);
    vstd::arithmetic::div_mod::lemma_fundamental_div_mod_converse(r1, 4, col + 8 - x1, b1);
    vstd::arithmetic::div_mod::lemma_fundamental_div_mod_converse(r2, 4, col + 8 - x2, b2);
}

/// At most one glyph coordinate of the cell at `(row, col)` can own the
/// byte `i`.
proof fn lemma_cell_unique(row: int, col: int, pitch: int, i: int)
    requires
        0 <= row,
        0 <= col,
        (col + 9) * 4 <= pitch,
    ensures
        forall|ya: int, xa: int, ba: int, yb: int, xb: int, bb: int|
            0 <= ya < 16 && 0 <= xa < 8 && 0 <= ba < 4 && 0 <= yb < 16 && 0 <= xb < 8 && 0 <= bb
                < 4 && i == #[trigger] cell_index(row, col, pitch, ya, xa, ba) && i
                == #[trigger] cell_index(row, col, pitch, yb, xb, bb) ==> (ya == yb && xa == xb
                && ba == bb),
{
    assert forall|ya: int, xa: int, ba: int, yb: int, xb: int, bb: int|
        0 <= ya < 16 && 0 <= xa < 8 && 0 <= ba < 4 && 0 <= yb < 16 && 0 <= xb < 8 && 0 <= bb < 4
            && i == #[trigger] cell_index(row, col, pitch, ya, xa, ba) && i
            == #[trigger] cell_index(row, col, pitch, yb, xb, bb) implies (ya == yb && xa == xb
        && ba == bb) by {
        lemma_cell_index_inj(row, col, pitch, ya, xa, ba, yb, xb, bb);
    }
}

/// The writer state.
pub struct FramebufferWriter {
    ptr: Option<usize>,
    pitch: Option<u16>,
    height: Option<u16>,
    size: Option<usize>,
    bpp: Option<u16>,
    row: u16,
    col: u16,
    fg: Option<Pixel>,
    bg: Option<Pixel>,
    buf: Vec<u8>,
    font: Vec<u8>,
}

impl FramebufferWriter {
    /// The back buffer's bytes.
    pub closed spec fn bytes(self) -> Seq<u8> {
        self.buf@
    }

    /// The glyph table's bytes.
    pub closed spec fn font_data(self) -> Seq<u8> {
        self.font@
    }

    /// Current cursor pixel row.
    pub closed spec fn cur_row(self) -> int {
        self.row as int
    }

    /// Current cursor pixel column.
    pub closed spec fn cur_col(self) -> int {
        self.col as int
    }

    /// Bytes per pixel row of the framebuffer.
    pub closed spec fn spec_pitch(self) -> int {
        self.pitch.unwrap() as int
    }

    /// Height of the visible framebuffer in pixel rows.
    pub closed spec fn spec_height(self) -> int {
        self.height.unwrap() as int
    }

    /// Size in bytes of the visible framebuffer.
    pub closed spec fn spec_size(self) -> int {
        self.size.unwrap() as int
    }

    /// Physical address of the framebuffer device memory.
    pub closed spec fn spec_ptr(self) -> int {
        self.ptr.unwrap() as int
    }

    /// The writer has been configured and can render: the device
    /// parameters are recorded, the pixel format is 32 bits per pixel,
    /// the visible frame fits in the back buffer with a glyph row of
    /// slack, and the glyph table is complete.
    pub closed spec fn ready(self) -> bool {
        &&& self.ptr is Some
        &&& self.pitch is Some
        &&& self.height is Some
        &&& self.size is Some
        &&& self.bpp is Some
        &&& self.fg is Some
        &&& self.bg is Some
        &&& self.bpp.unwrap() == 32
        &&& self.buf@.len() == BUF_BYTES
        &&& self.font@.len() == FONT_BYTES
        &&& 1 <= self.spec_height()
        &&& self.spec_height() + 16 <= u16::MAX
        &&& self.spec_size() <= BUF_BYTES
        &&& 16 * self.spec_pitch() <= self.spec_size()
        &&& (self.spec_height() + 16) * self.spec_pitch() <= BUF_BYTES
    }

    /// Foreground color used for lit glyph pixels.
    pub closed spec fn spec_fg(self) -> Option<Pixel> {
        self.fg
    }

    /// Background color used for unlit glyph pixels.
    pub closed spec fn spec_bg(self) -> Option<Pixel> {
        self.bg
    }

    /// The pixel a glyph coordinate of character `c` paints: foreground
    /// where the font bit is lit, background elsewhere.
    pub closed spec fn cell_pixel(self, c: char, y: int, x: int) -> Pixel {
        if glyph_on(self.font_data(), c, y, x) {
            self.fg.unwrap()
        } else {
            self.bg.unwrap()
        }
    }

    /// Back-buffer byte `i` after the cell pixels strictly before glyph
    /// coordinates `(y, x)` have been painted for character `c`.
    pub closed spec fn drawn_upto(self, c: char, i: int, y: int, x: int) -> u8 {
        if in_cell_before(self.cur_row(), self.cur_col(), self.spec_pitch(), i, y, x) {
            let (yy, xx, bb) = choose|yy: int, xx: int, bb: int|
                lex_lt(yy, xx, y, x) && 0 <= yy < 16 && 0 <= xx < 8 && 0 <= bb < 4 && i
                    == #[trigger] cell_index(
                    self.cur_row(),
                    self.cur_col(),
                    self.spec_pitch(),
                    yy,
                    xx,
                    bb,
                );
            pixel_byte(self.cell_pixel(c, yy, xx), bb)
        } else {
            self.bytes()[i]
        }
    }

    /// Back-buffer byte `i` after the whole cell of character `c` has
    /// been painted at the cursor.
    pub open spec fn rendered_byte(self, c: char, i: int) -> u8 {
        self.drawn_upto(c, i, 16, 0)
    }

    /// Back-buffer byte `i` after the first `upto` cells of a tab have
    /// been painted with the space glyph, the `t`-th cell eight pixels
    /// further right than the cursor of the `t - 1`-th.
    pub closed spec fn tab_drawn_upto(self, i: int, upto: int) -> u8 {
        if in_tab_cells(self.cur_row(), self.cur_col(), self.spec_pitch(), i, upto) {
            let (t, yy, xx, bb) = choose|t: int, yy: int, xx: int, bb: int|
                0 <= t < upto && 0 <= yy < 16 && 0 <= xx < 8 && 0 <= bb < 4 && i
                    == #[trigger] tab_cell_index(
                    self.cur_row(),
                    self.cur_col(),
                    self.spec_pitch(),
                    t,
                    yy,
                    xx,
                    bb,
                );
            pixel_byte(self.cell_pixel(' ', yy, xx), bb)
        } else {
            self.bytes()[i]
        }
    }

    /// Back-buffer byte `i` after painting character `c` at the cursor
    /// and then scrolling: the top glyph row is discarded and the visible
    /// frame's contents move down by one glyph row.
    pub open spec fn scrolled_byte(self, c: char, i: int) -> u8 {
        let trb = 16 * self.spec_pitch();
        if i < trb {
            0u8
        } else if i < self.spec_size() {
            if i - trb < trb {
                0u8
            } else {
                self.rendered_byte(c, i - trb)
            }
        } else {
            self.rendered_byte(c, i)
        }
    }
}

impl FramebufferWriter {
    /// A writer with a zeroed back buffer and the given glyph table,
    /// waiting for `init` to record the device parameters.
    pub fn new(font: Vec<u8>) -> (w: FramebufferWriter)
        requires
            font@.len() == FONT_BYTES,
        ensures
            w.cur_row() == 0,
            w.cur_col() == 0,
            w.bytes().len() == BUF_BYTES,
            forall|i: int| 0 <= i < BUF_BYTES ==> w.bytes()[i] == 0u8,
            w.font_data() == font@,
            !w.ready(),
    {
        let mut buf: Vec<u8> = Vec::new();
        let mut i: usize = 0;
        while i < BUF_BYTES
            invariant
                i <= BUF_BYTES,
                buf@.len() == i,
                forall|j: int| 0 <= j < i ==> buf@[j] == 0u8,
            decreases BUF_BYTES - i,
        {
            buf.push(0);
            i += 1;
        }
        FramebufferWriter {
            ptr: None,
            pitch: None,
            height: None,
            size: None,
            bpp: None,
            row: 0,
            col: 0,
            fg: None,
            bg: None,
            buf,
            font,
        }
    }

    /// Record the framebuffer the bootloader handed over; the caller
    /// supplies the device parameters as plain values. Both colors start
    /// black.
    pub fn init(&mut self, ptr: usize, pitch: u16, height: u16, bpp: u16, size: usize)
        requires
            old(self).bytes().len() == BUF_BYTES,
            old(self).font_data().len() == FONT_BYTES,
            bpp == 32,
            1 <= height,
            height + 16 <= u16::MAX,
            size <= BUF_BYTES,
            16 * (pitch as int) <= size,
            (height as int + 16) * (pitch as int) <= BUF_BYTES,
        ensures
            final(self).ready(),
            final(self).spec_ptr() == ptr,
            final(self).spec_pitch() == pitch,
            final(self).spec_height() == height,
            final(self).spec_size() == size,
            final(self).spec_fg() == Some(Pixel { r: 0, g: 0, b: 0 }),
            final(self).spec_bg() == Some(Pixel { r: 0, g: 0, b: 0 }),
            final(self).bytes() == old(self).bytes(),
            final(self).font_data() == old(self).font_data(),
            final(self).cur_row() == old(self).cur_row(),
            final(self).cur_col() == old(self).cur_col(),
    {
        self.ptr = Some(ptr);
        self.pitch = Some(pitch);
        self.height = Some(height);
        self.bpp = Some(bpp);
        self.size = Some(size);
        self.fg = Some(Pixel::new(0, 0, 0));
        self.bg = Some(Pixel::new(0, 0, 0));
    }

    /// Set the foreground color.
    pub fn set_fg(&mut self, p: Pixel)
        ensures
            final(self).spec_fg() == Some(p),
            final(self).spec_bg() == old(self).spec_bg(),
            final(self).bytes() == old(self).bytes(),
            final(self).font_data() == old(self).font_data(),
            final(self).cur_row() == old(self).cur_row(),
            final(self).cur_col() == old(self).cur_col(),
            final(self).spec_ptr() == old(self).spec_ptr(),
            final(self).spec_pitch() == old(self).spec_pitch(),
            final(self).spec_height() == old(self).spec_height(),
            final(self).spec_size() == old(self).spec_size(),
            old(self).ready() ==> final(self).ready(),
    {
        self.fg = Some(p);
    }

    /// Set the background color.
    pub fn set_bg(&mut self, p: Pixel)
        ensures
            final(self).spec_bg() == Some(p),
            final(self).spec_fg() == old(self).spec_fg(),
            final(self).bytes() == old(self).bytes(),
            final(self).font_data() == old(self).font_data(),
            final(self).cur_row() == old(self).cur_row(),
            final(self).cur_col() == old(self).cur_col(),
            final(self).spec_ptr() == old(self).spec_ptr(),
            final(self).spec_pitch() == old(self).spec_pitch(),
            final(self).spec_height() == old(self).spec_height(),
            final(self).spec_size() == old(self).spec_size(),
            old(self).ready() ==> final(self).ready(),
    {
        self.bg = Some(p);
    }

    /// Current cursor pixel row.
    pub fn get_row(&self) -> (r: u16)
        ensures
            r == self.cur_row(),
    {
        self.row
    }

    /// Current cursor pixel column.
    pub fn get_col(&self) -> (r: u16)
        ensures
            r == self.cur_col(),
    {
        self.col
    }

    /// The back buffer's length in bytes.
    pub fn buf_len(&self) -> (r: usize)
        ensures
            r == self.bytes().len(),
    {
        self.buf.len()
    }

    /// One byte of the back buffer.
    pub fn buf_byte(&self, i: usize) -> (r: u8)
        requires
            i < self.bytes().len(),
        ensures
            r == self.bytes()[i as int],
    {
        self.buf[i]
    }

    /// The whole back buffer, for the code that pushes it to the device.
    pub fn buffer(&self) -> (r: &Vec<u8>)
        ensures
            r@ == self.bytes(),
    {
        &self.buf
    }

    /// The recorded framebuffer device address.
    pub fn get_ptr(&self) -> (r: usize)
        requires
            self.ready(),
        ensures
            r == self.spec_ptr(),
    {
        self.ptr.unwrap()
    }

    /// The recorded visible-frame size in bytes.
    pub fn get_size(&self) -> (r: usize)
        requires
            self.ready(),
        ensures
            r == self.spec_size(),
    {
        self.size.unwrap()
    }

    /// The recorded bytes per pixel row.
    pub fn get_pitch(&self) -> (r: u16)
        requires
            self.ready(),
        ensures
            r == self.spec_pitch(),
    {
        self.pitch.unwrap()
    }

    /// The recorded visible height in pixel rows.
    pub fn get_height(&self) -> (r: u16)
        requires
            self.ready(),
        ensures
            r == self.spec_height(),
    {
        self.height.unwrap()
    }

    /// Paint the glyph cell of character `c` at the cursor into the back
    /// buffer. The cursor does not move.
    #[verifier::loop_isolation(false)]
    #[verifier::rlimit(60)]
    fn render_cell(&mut self, c: char)
        requires
            old(self).ready(),
            32 <= (c as u32) && (c as u32) < 256,
            (old(self).cur_col() + 9) * 4 <= old(self).spec_pitch(),
            old(self).cur_row() <= old(self).spec_height(),
        ensures
            final(self).ready(),
            same_config(*final(self), *old(self)),
            final(self).cur_row() == old(self).cur_row(),
            final(self).cur_col() == old(self).cur_col(),
            forall|i: int|
                0 <= i < BUF_BYTES ==> final(self).bytes()[i] == old(self).rendered_byte(c, i),
    {
        let pitch: usize = self.pitch.unwrap() as usize;
        let row: usize = self.row as usize;
        let col: usize = self.col as usize;
        let cu: u32 = c as u32;
        let offset: usize = ((cu - 32) as usize) * 16;
        let fgp: Pixel = self.fg.unwrap();
        let bgp: Pixel = self.bg.unwrap();
        let fg_bits: u32 = fgp.as_bits();
        let bg_bits: u32 = bgp.as_bits();
        let mut y: usize = 0;
        while y < 16
            invariant
                y <= 16,
                self.ready(),
                same_config(*self, *old(self)),
                self.cur_row() == old(self).cur_row(),
                self.cur_col() == old(self).cur_col(),
                forall|i: int|
                    0 <= i < BUF_BYTES ==> #[trigger] self.bytes()[i] == old(self).drawn_upto(
                        c,
                        i,
                        y as int,
                        0,
                    ),
            decreases 16 - y,
        {
            let fbyte: u8 = self.font[offset + y];
            let mut x: usize = 0;
            while x < 8
                invariant
                    x <= 8,
                    y < 16,
                    self.ready(),
                    same_config(*self, *old(self)),
                    self.cur_row() == old(self).cur_row(),
                    self.cur_col() == old(self).cur_col(),
                    fbyte == old(self).font_data()[offset + y],
                    forall|i: int|
                        0 <= i < BUF_BYTES ==> #[trigger] self.bytes()[i] == old(self).drawn_upto(
                            c,
                            i,
                            y as int,
                            x as int,
                        ),
                decreases 8 - x,
            {
                let cur_x: usize = col + (8 - x);
                let cur_y: usize = row + y;
                proof {
                    let cy = cur_y as int;
                    let pt = pitch as int;
                    assert((cy + 1) * pt == cy * pt + pt) by (nonlinear_arith);
                    vstd::arithmetic::mul::lemma_mul_inequality(
                        cy + 1,
                        old(self).spec_height() + 16,
                        pt,
                    );
                    assert(cur_x as int * 4 + cy * pt + 4 <= BUF_BYTES);
                }
                let base: usize = cur_x * 4 + cur_y * pitch;
                let on: bool = ((fbyte >> (x as u8)) & 1u8) == 1u8;
                let bits: u32 = if on {
                    fg_bits
                } else {
                    bg_bits
                };
                let ghost pix = old(self).cell_pixel(c, y as int, x as int);
                proof {
                    assert(on == glyph_on(old(self).font_data(), c, y as int, x as int));
                    assert(bits == spec_as_bits(pix));
                    assert(base == cell_index(
                        old(self).cur_row(),
                        old(self).cur_col(),
                        old(self).spec_pitch(),
                        y as int,
                        x as int,
                        0,
                    ));
                }
                let mut b: usize = 0;
                while b < 4
                    invariant
                        b <= 4,
                        x < 8,
                        y < 16,
                        base == cell_index(
                            old(self).cur_row(),
                            old(self).cur_col(),
                            old(self).spec_pitch(),
                            y as int,
                            x as int,
                            0,
                        ),
                        base + 4 <= BUF_BYTES,
                        bits == spec_as_bits(pix),
                        self.ready(),
                        same_config(*self, *old(self)),
                        self.cur_row() == old(self).cur_row(),
                        self.cur_col() == old(self).cur_col(),
                        forall|i: int|
                            base <= i < base + b ==> #[trigger] self.bytes()[i] == pixel_byte(
                                pix,
                                i - base,
                            ),
                        forall|i: int|
                            0 <= i < BUF_BYTES && !(base <= i < base + b)
                                ==> #[trigger] self.bytes()[i] == old(self).drawn_upto(
                                c,
                                i,
                                y as int,
                                x as int,
                            ),
                    decreases 4 - b,
                {
                    let v: u8 = #[verifier::truncate] ((bits >> ((b * 8) as u32)) as u8);
                    proof {
                        assert(v == pixel_byte(pix, b as int));
                    }
                    let ghost prev = self.bytes();
                    self.buf.set(base + b, v);
                    b += 1;
                    proof {
                        assert forall|i: int|
                            base <= i < base + b implies self.bytes()[i] == pixel_byte(
                            pix,
                            i - base,
                        ) by {
                            if i < base + b - 1 {
                                assert(self.bytes()[i] == prev[i]);
                                assert(prev[i] == pixel_byte(pix, i - base));
                            } else {
                                assert(i - base == b - 1);
                                assert(self.bytes()[i] == v);
                                assert(v == pixel_byte(pix, i - base));
                            }
                            assert(self.bytes()[i] == pixel_byte(pix, i - base));
                        }
                        assert forall|i: int|
                            0 <= i < BUF_BYTES && !(base <= i < base + b) implies self.bytes()[i]
                            == old(self).drawn_upto(c, i, y as int, x as int) by {
                            assert(self.bytes()[i] == prev[i]);
                        }
                    }
                }
                proof {
                    assert forall|i: int| 0 <= i < BUF_BYTES implies self.bytes()[i] == old(
                        self,
                    ).drawn_upto(c, i, y as int, x as int + 1) by {
                        lemma_drawn_step(*old(self), c, i, y as int, x as int);
                    }
                }
                x += 1;
            }
            proof {
                assert forall|i: int| 0 <= i < BUF_BYTES implies self.bytes()[i] == old(
                    self,
                ).drawn_upto(c, i, y as int + 1, 0) by {
                    lemma_drawn_row_wrap(*old(self), c, i, y as int);
                }
            }
            y += 1;
        }
    }
}

impl FramebufferWriter {
    /// Draw one character at the cursor. Carriage return and line feed
    /// move the cursor; a tab paints twelve space cells; any other
    /// supported character paints its glyph cell and advances the cursor
    /// one cell, scrolling once the cursor has passed the visible
    /// frame's bottom row.
    #[verifier::loop_isolation(false)]
    pub fn draw(&mut self, c: char)
        requires
            old(self).ready(),
            c == '\r' || c == '\n' || c == '\t' || (32 <= (c as u32) && (c as u32) < 256),
            c == '\n' ==> old(self).cur_row() + 16 <= u16::MAX,
            c == '\t' ==> (old(self).cur_col() + 97) * 4 <= old(self).spec_pitch() && old(
                self,
            ).cur_row() < old(self).spec_height(),
            (32 <= (c as u32) && (c as u32) < 256) ==> (old(self).cur_col() + 9) * 4 <= old(
                self,
            ).spec_pitch() && old(self).cur_row() <= old(self).spec_height(),
        ensures
            final(self).ready(),
            same_config(*final(self), *old(self)),
            c == '\r' ==> {
                &&& final(self).cur_col() == 0
                &&& final(self).cur_row() == old(self).cur_row()
                &&& final(self).bytes() == old(self).bytes()
            },
            c == '\n' ==> {
                &&& final(self).cur_row() == old(self).cur_row() + 16
                &&& final(self).cur_col() == old(self).cur_col()
                &&& final(self).bytes() == old(self).bytes()
            },
            c == '\t' ==> {
                &&& final(self).cur_col() == old(self).cur_col() + 96
                &&& final(self).cur_row() == old(self).cur_row()
                &&& forall|i: int|
                    0 <= i < BUF_BYTES ==> #[trigger] final(self).bytes()[i]
                        == old(self).tab_drawn_upto(i, 12)
            },
            (32 <= (c as u32) && (c as u32) < 256) ==> {
                &&& final(self).cur_col() == old(self).cur_col() + 8
                &&& (old(self).cur_row() == old(self).spec_height() ==> {
                    &&& final(self).cur_row() == old(self).cur_row() - 1
                    &&& forall|i: int|
                        0 <= i < BUF_BYTES ==> #[trigger] final(self).bytes()[i]
                            == old(self).scrolled_byte(c, i)
                })
                &&& (old(self).cur_row() != old(self).spec_height() ==> {
                    &&& final(self).cur_row() == old(self).cur_row()
                    &&& forall|i: int|
                        0 <= i < BUF_BYTES ==> #[trigger] final(self).bytes()[i]
                            == old(self).rendered_byte(c, i)
                })
            },
    {
        if c == '\r' {
            self.col = 0;
        } else if c == '\n' {
            self.row = self.row + 16;
        } else if c == '\t' {
            let mut t: usize = 0;
            while t < 12
                invariant
                    t <= 12,
                    self.ready(),
                    same_config(*self, *old(self)),
                    self.cur_row() == old(self).cur_row(),
                    self.cur_col() == old(self).cur_col() + 8 * t,
                    forall|i: int|
                        0 <= i < BUF_BYTES ==> #[trigger] self.bytes()[i] == old(
                            self,
                        ).tab_drawn_upto(i, t as int),
                decreases 12 - t,
            {
                let ghost wt = *self;
                self.render_cell(' ');
                self.col = self.col + 8;
                proof {
                    assert forall|i: int| 0 <= i < BUF_BYTES implies #[trigger] self.bytes()[i]
                        == old(self).tab_drawn_upto(i, t as int + 1) by {
                        lemma_tab_step(*old(self), wt, i, t as int);
                    }
                }
                t += 1;
            }
        } else {
            self.render_cell(c);
            if self.pitch.unwrap() == self.col {
                self.row = self.row + 16;
                return ;
            } else {
                self.col = self.col + 8;
            }
            if self.row == self.height.unwrap() {
                let ghost rendered = self.bytes();
                let top_row_bytes: usize = (self.pitch.unwrap() as usize) * 16;
                let fb_size: usize = self.size.unwrap();
                crate::polyfill::set_bytes(&mut self.buf, 0, top_row_bytes);
                crate::polyfill::memmove(&mut self.buf, top_row_bytes, 0, fb_size - top_row_bytes);
                self.row = self.row - 1;
                proof {
                    assert forall|i: int| 0 <= i < BUF_BYTES implies #[trigger] self.bytes()[i]
                        == old(self).scrolled_byte(c, i) by {
                        if i < top_row_bytes {
                        } else if i < fb_size {
                            assert(self.bytes()[i] == rendered[i - top_row_bytes + 0] || i
                                - top_row_bytes < top_row_bytes);
                        } else {
                        }
                    }
                }
            }
        }
    }
}

/// Back-buffer byte index of byte `b` of pixel `(y, x)` of the `t`-th of
/// the twelve cells a tab paints.
pub open spec fn tab_cell_index(
    row: int,
    col: int,
    pitch: int,
    t: int,
    y: int,
    x: int,
    b: int,
) -> int {
    cell_index(row, col + 8 * t, pitch, y, x, b)
}

/// Whether `i` is a byte of one of the first `upto` cells a tab paints.
pub open spec fn in_tab_cells(row: int, col: int, pitch: int, i: int, upto: int) -> bool {
    exists|t: int, yy: int, xx: int, bb: int|
        0 <= t < upto && 0 <= yy < 16 && 0 <= xx < 8 && 0 <= bb < 4 && i
            == #[trigger] tab_cell_index(row, col, pitch, t, yy, xx, bb)
}

/// Distinct glyph coordinates of the twelve cells of a tab paint distinct
/// back-buffer bytes.
proof fn lemma_tab_cell_index_inj(
    row: int,
    col: int,
    pitch: int,
    t1: int,
    y1: int,
    x1: int,
    b1: int,
    t2: int,
    y2: int,
    x2: int,
    b2: int,
)
    requires
        0 <= row,
        0 <= col,
        (col + 97) * 4 <= pitch,
        0 <= t1 < 12,
        0 <= y1 < 16,
        0 <= x1 < 8,
        0 <= b1 < 4,
        0 <= t2 < 12,
        0 <= y2 < 16,
        0 <= x2 < 8,
        0 <= b2 < 4,
        tab_cell_index(row, col, pitch, t1, y1, x1, b1) == tab_cell_index(
            row,
            col,
            pitch,
            t2,
            y2,
            x2,
            b2,
        ),
    ensures
        t1 == t2,
        y1 == y2,
        x1 == x2,
        b1 == b2,
{
    let i = tab_cell_index(row, col, pitch, t1, y1, x1, b1);
    let r1 = (col + 8 * t1 + 8 - x1) * 4 + b1;
    let r2 = (col + 8 * t2 + 8 - x2) * 4 + b2;
    vstd::arithmetic::div_mod::lemma_fundamental_div_mod_converse(i, pitch, row + y1, r1);
    vstd::arithmetic::div_mod::lemma_fundamental_div_mod_converse(i, pitch, row + y2, r2);
    vstd::arithmetic::div_mod::lemma_fundamental_div_mod_converse(r1, 4, col + 8 * t1 + 8 - x1, b1);
    vstd::arithmetic::div_mod::lemma_fundamental_div_mod_converse(r2, 4, col + 8 * t2 + 8 - x2, b2);
}

/// At most one glyph coordinate of one tab cell can own the byte `i`.
proof fn lemma_tab_cell_unique(row: int, col: int, pitch: int, i: int)
    requires
        0 <= row,
        0 <= col,
        (col + 97) * 4 <= pitch,
    ensures
        forall|ta: int, ya: int, xa: int, ba: int, tb: int, yb: int, xb: int, bb: int|
            0 <= ta < 12 && 0 <= ya < 16 && 0 <= xa < 8 && 0 <= ba < 4 && 0 <= tb < 12 && 0 <= yb
                < 16 && 0 <= xb < 8 && 0 <= bb < 4 && i == #[trigger] tab_cell_index(
                row,
                col,
                pitch,
                ta,
                ya,
                xa,
                ba,
            ) && i == #[trigger] tab_cell_index(row, col, pitch, tb, yb, xb, bb) ==> (ta == tb
                && ya == yb && xa == xb && ba == bb),
{
    assert forall|ta: int, ya: int, xa: int, ba: int, tb: int, yb: int, xb: int, bb: int|
        0 <= ta < 12 && 0 <= ya < 16 && 0 <= xa < 8 && 0 <= ba < 4 && 0 <= tb < 12 && 0 <= yb < 16
            && 0 <= xb < 8 && 0 <= bb < 4 && i == #[trigger] tab_cell_index(
            row,
            col,
            pitch,
            ta,
            ya,
            xa,
            ba,
        ) && i == #[trigger] tab_cell_index(row, col, pitch, tb, yb, xb, bb) implies (ta == tb && ya
        == yb && xa == xb && ba == bb) by {
        lemma_tab_cell_index_inj(row, col, pitch, ta, ya, xa, ba, tb, yb, xb, bb);
    }
}

/// Painting the `t`-th cell of a tab on top of the first `t` cells gives
/// the first `t + 1` cells: the renderer's view of one step of a tab.
proof fn lemma_tab_step(w0: FramebufferWriter, wt: FramebufferWriter, i: int, t: int)
    requires
        0 <= t < 12,
        0 <= i < BUF_BYTES,
        (w0.cur_col() + 97) * 4 <= w0.spec_pitch(),
        same_config(wt, w0),
        wt.cur_row() == w0.cur_row(),
        wt.cur_col() == w0.cur_col() + 8 * t,
        w0.bytes().len() == BUF_BYTES,
        wt.bytes().len() == BUF_BYTES,
        forall|j: int| 0 <= j < BUF_BYTES ==> #[trigger] wt.bytes()[j] == w0.tab_drawn_upto(j, t),
    ensures
        w0.tab_drawn_upto(i, t + 1) == wt.rendered_byte(' ', i),
{
    let row = w0.cur_row();
    let col = w0.cur_col();
    let pitch = w0.spec_pitch();
    lemma_cell_unique(row, col + 8 * t, pitch, i);
    lemma_tab_cell_unique(row, col, pitch, i);
    if in_cell(row, col + 8 * t, pitch, i) {
        let (y1, x1, b1) = choose|yy: int, xx: int, bb: int|
            lex_lt(yy, xx, 16, 0) && 0 <= yy < 16 && 0 <= xx < 8 && 0 <= bb < 4 && i
                == #[trigger] cell_index(row, col + 8 * t, pitch, yy, xx, bb);
        assert(i == tab_cell_index(row, col, pitch, t, y1, x1, b1));
        assert(in_tab_cells(row, col, pitch, i, t + 1));
        assert(wt.cell_pixel(' ', y1, x1) == w0.cell_pixel(' ', y1, x1));
    } else {
        assert(wt.rendered_byte(' ', i) == wt.bytes()[i]);
        assert(wt.bytes()[i] == w0.tab_drawn_upto(i, t));
        if in_tab_cells(row, col, pitch, i, t + 1) {
            let (t2, y2, x2, b2) = choose|tt: int, yy: int, xx: int, bb: int|
                0 <= tt < t + 1 && 0 <= yy < 16 && 0 <= xx < 8 && 0 <= bb < 4 && i
                    == #[trigger] tab_cell_index(row, col, pitch, tt, yy, xx, bb);
            if t2 == t {
                assert(i == cell_index(row, col + 8 * t, pitch, y2, x2, b2));
                assert(in_cell(row, col + 8 * t, pitch, i));
                assert(false);
            } else {
                assert(in_tab_cells(row, col, pitch, i, t));
            }
        } else {
            assert(!in_tab_cells(row, col, pitch, i, t));
        }
    }
}

/// Painting the pixel at `(y, x)` extends the partial cell by exactly the
/// four bytes of that pixel.
proof fn lemma_drawn_step(w: FramebufferWriter, c: char, i: int, y: int, x: int)
    requires
        0 <= y < 16,
        0 <= x < 8,
        (w.cur_col() + 9) * 4 <= w.spec_pitch(),
    ensures
        w.drawn_upto(c, i, y, x + 1) == {
            let base = cell_index(w.cur_row(), w.cur_col(), w.spec_pitch(), y, x, 0);
            if base <= i < base + 4 {
                pixel_byte(w.cell_pixel(c, y, x), i - base)
            } else {
                w.drawn_upto(c, i, y, x)
            }
        },
{
    let row = w.cur_row();
    let col = w.cur_col();
    let pitch = w.spec_pitch();
    let base = cell_index(row, col, pitch, y, x, 0);
    lemma_cell_unique(row, col, pitch, i);
    if base <= i < base + 4 {
        assert(i == cell_index(row, col, pitch, y, x, i - base));
        assert(in_cell_before(row, col, pitch, i, y, x + 1));
    } else {
        if in_cell_before(row, col, pitch, i, y, x) {
            let (y1, x1, b1) = choose|yy: int, xx: int, bb: int|
                lex_lt(yy, xx, y, x) && 0 <= yy < 16 && 0 <= xx < 8 && 0 <= bb < 4 && i
                    == #[trigger] cell_index(row, col, pitch, yy, xx, bb);
            assert(lex_lt(y1, x1, y, x + 1));
            assert(in_cell_before(row, col, pitch, i, y, x + 1));
        } else if in_cell_before(row, col, pitch, i, y, x + 1) {
            let (y2, x2, b2) = choose|yy: int, xx: int, bb: int|
                lex_lt(yy, xx, y, x + 1) && 0 <= yy < 16 && 0 <= xx < 8 && 0 <= bb < 4 && i
                    == #[trigger] cell_index(row, col, pitch, yy, xx, bb);
            if lex_lt(y2, x2, y, x) {
                assert(in_cell_before(row, col, pitch, i, y, x));
                assert(false);
            } else {
                assert(y2 == y && x2 == x);
                assert(i == base + b2);
                assert(false);
            }
        }
    }
}

/// Finishing a glyph row leaves the partial cell equal to the start of
/// the next row.
proof fn lemma_drawn_row_wrap(w: FramebufferWriter, c: char, i: int, y: int)
    requires
        0 <= y < 16,
        (w.cur_col() + 9) * 4 <= w.spec_pitch(),
    ensures
        w.drawn_upto(c, i, y, 8) == w.drawn_upto(c, i, y + 1, 0),
{
    let row = w.cur_row();
    let col = w.cur_col();
    let pitch = w.spec_pitch();
    lemma_cell_unique(row, col, pitch, i);
    if in_cell_before(row, col, pitch, i, y, 8) {
        let (y1, x1, b1) = choose|yy: int, xx: int, bb: int|
            lex_lt(yy, xx, y, 8) && 0 <= yy < 16 && 0 <= xx < 8 && 0 <= bb < 4 && i
                == #[trigger] cell_index(row, col, pitch, yy, xx, bb);
        assert(lex_lt(y1, x1, y + 1, 0));
        assert(in_cell_before(row, col, pitch, i, y + 1, 0));
    } else if in_cell_before(row, col, pitch, i, y + 1, 0) {
        let (y2, x2, b2) = choose|yy: int, xx: int, bb: int|
            lex_lt(yy, xx, y + 1, 0) && 0 <= yy < 16 && 0 <= xx < 8 && 0 <= bb < 4 && i
                == #[trigger] cell_index(row, col, pitch, yy, xx, bb);
        assert(lex_lt(y2, x2, y, 8));
        assert(in_cell_before(row, col, pitch, i, y, 8));
        assert(false);
    }
}

/// A finished cell holds, at each of its glyph coordinates, the bytes of
/// the pixel that coordinate paints.
proof fn lemma_rendered_at_cell(w: FramebufferWriter, c: char, y: int, x: int, b: int)
    requires
        0 <= y < 16,
        0 <= x < 8,
        0 <= b < 4,
        (w.cur_col() + 9) * 4 <= w.spec_pitch(),
    ensures
        w.rendered_byte(c, cell_index(w.cur_row(), w.cur_col(), w.spec_pitch(), y, x, b))
            == pixel_byte(w.cell_pixel(c, y, x), b),
{
    let row = w.cur_row();
    let col = w.cur_col();
    let pitch = w.spec_pitch();
    let i = cell_index(row, col, pitch, y, x, b);
    lemma_cell_unique(row, col, pitch, i);
    assert(lex_lt(y, x, 16, 0));
    assert(in_cell_before(row, col, pitch, i, 16, 0));
}

} // verus!
