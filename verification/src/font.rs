//! PSF2 bitmap fonts, drawn at half size: a 16x32 font becomes 8x16
//! characters.

use vstd::prelude::*;
use crate::acpi::{le_u32, read_u32};
use crate::fb::{Color, DirtyRect, Framebuffer, spec_mark_dirty};
use vstd::string::StringSliceAdditionalSpecFns;

verus! {

/// Width of the glyphs in the font file.
pub const FONT_WIDTH: usize = 16;

/// Height of the glyphs in the font file.
pub const FONT_HEIGHT: usize = 32;

/// Width of a drawn character.
pub const SCALED_WIDTH: usize = 8;

/// Height of a drawn character.
pub const SCALED_HEIGHT: usize = 16;

/// Bytes per glyph row of a 16-pixel-wide font.
pub const BYTES_PER_ROW: usize = 2;

/// Whether `data` starts with a header this kernel accepts: the PSF2
/// magic, version 0, 16x32 glyphs.
pub open spec fn valid_psf2(data: Seq<u8>) -> bool {
    &&& data.len() >= 32
    &&& data.subrange(0, 4) == seq![0x72u8, 0xb5, 0x4a, 0x86]
    &&& le_u32(data, 4) == 0
    &&& le_u32(data, 28) == FONT_WIDTH
    &&& le_u32(data, 24) == FONT_HEIGHT
}

/// Whether the pixel at `(col, row)` of a drawn character is set in
/// `glyph`: every second pixel of every second row of the font's glyph.
pub open spec fn glyph_bit(glyph: Seq<u8>, row: int, col: int) -> bool {
    glyph[row * 2 * 2 + col * 2 / 8] & (1u8 << ((7 - (col * 2) % 8) as u8)) != 0
}

/// The backbuffer and changed rectangle after setting the pixel at
/// `(x, y)` to `p` on a `width x height` screen.
pub open spec fn spec_put(
    st: (Seq<u32>, DirtyRect),
    width: usize,
    height: usize,
    x: int,
    y: int,
    p: u32,
) -> (Seq<u32>, DirtyRect) {
    if x >= width || y >= height {
        st
    } else {
        (st.0.update(y * width + x, p), spec_mark_dirty(st.1, x as usize, y as usize, 1, 1, width, height))
    }
}

/// The state after the first `t` pixels of a character, in row order, have
/// been drawn at `(x, y)`.
pub open spec fn spec_glyph_steps(
    st: (Seq<u32>, DirtyRect),
    width: usize,
    height: usize,
    glyph: Seq<u8>,
    x: usize,
    y: usize,
    p: u32,
    t: nat,
) -> (Seq<u32>, DirtyRect)
    decreases t,
{
    if t == 0 {
        st
    } else {
        let prev = spec_glyph_steps(st, width, height, glyph, x, y, p, (t - 1) as nat);
        let row = (t - 1) / (SCALED_WIDTH as int);
        let col = (t - 1) % (SCALED_WIDTH as int);
        if glyph_bit(glyph, row, col) {
            spec_put(prev, width, height, x + col, y + row, p)
        } else {
            prev
        }
    }
}

/// The state and cursor after the first `n` bytes of a text have been
/// drawn from `(x, y)`: a newline returns to column `x` one line down, a
/// carriage return to column `x`, a tab advances four characters, and
/// printable characters are drawn one after another; other bytes are
/// ignored.
pub open spec fn spec_text_steps(
    font: Font,
    st: (Seq<u32>, DirtyRect),
    width: usize,
    height: usize,
    x: usize,
    y: usize,
    p: u32,
    bytes: Seq<u8>,
    n: nat,
) -> ((Seq<u32>, DirtyRect), int, int)
    decreases n,
{
    if n == 0 {
        (st, x as int, y as int)
    } else {
        let (s, cx, cy) = spec_text_steps(font, st, width, height, x, y, p, bytes, (n - 1) as nat);
        let c = bytes[n - 1];
        if c == 0x0a {
            (s, x as int, cy + SCALED_HEIGHT)
        } else if c == 0x0d {
            (s, x as int, cy)
        } else if c == 0x09 {
            (s, cx + SCALED_WIDTH * 4, cy)
        } else if 0x20 <= c <= 0x7e {
            let drawn = if c >= font.spec_glyph_count() {
                s
            } else {
                spec_glyph_steps(
                    s,
                    width,
                    height,
                    font.spec_glyph(c as int),
                    cx as usize,
                    cy as usize,
                    p,
                    (SCALED_WIDTH * SCALED_HEIGHT) as nat,
                )
            };
            (drawn, cx + SCALED_WIDTH, cy)
        } else {
            (s, cx, cy)
        }
    }
}

/// The cursor never moves back past its start, and moves at most four
/// characters right or one line down per byte.
proof fn lemma_text_cursor_bounds(
    font: Font,
    st: (Seq<u32>, DirtyRect),
    width: usize,
    height: usize,
    x: usize,
    y: usize,
    p: u32,
    bytes: Seq<u8>,
    n: nat,
)
    requires
        n <= bytes.len(),
    ensures
        ({
            let (s, cx, cy) = spec_text_steps(font, st, width, height, x, y, p, bytes, n);
            x <= cx <= x + SCALED_WIDTH * 4 * n && y <= cy <= y + SCALED_HEIGHT * n
        }),
    decreases n,
{
    if n > 0 {
        lemma_text_cursor_bounds(font, st, width, height, x, y, p, bytes, (n - 1) as nat);
    }
}

/// Whether `data` starts with a PSF2 header this kernel accepts: exactly
/// [`valid_psf2`].
pub fn check_font(data: &[u8]) -> (r: bool)
    ensures
        r == valid_psf2(data@),
{
    if data.len() < 32 {
        return false;
    }
    let magic = data[0] == 0x72 && data[1] == 0xb5 && data[2] == 0x4a && data[3] == 0x86;
    proof {
        if magic {
            assert(data@.subrange(0, 4) =~= seq![0x72u8, 0xb5, 0x4a, 0x86]);
        } else if data@.subrange(0, 4) == seq![0x72u8, 0xb5, 0x4a, 0x86] {
            assert(data@.subrange(0, 4)[0] == data@[0]);
            assert(data@.subrange(0, 4)[1] == data@[1]);
            assert(data@.subrange(0, 4)[2] == data@[2]);
            assert(data@.subrange(0, 4)[3] == data@[3]);
        }
    }
    magic && read_u32(data, 4) == 0 && read_u32(data, 28) as usize == FONT_WIDTH && read_u32(
        data,
        24,
    ) as usize == FONT_HEIGHT
}

/// A printable character whose glyph cannot be drawn spoils the font.
proof fn lemma_glyph_not_drawable(font: &Font, c: int)
    requires
        0x20 <= c <= 0x7e,
        c < font.spec_glyph_count(),
        !(font.glyph_in_file(c) && font.spec_glyph_size() >= 62),
    ensures
        !font.printable_glyphs_ok(),
{
    assert(!(font.glyph_in_file(c) && (c < font.spec_glyph_count() ==> font.spec_glyph_size()
        >= 62)));
}

/// Every printable glyph drawable is what [`Font::printable_glyphs_ok`]
/// asks.
proof fn lemma_all_glyphs_drawable(font: &Font)
    requires
        forall|k: int|
            0x20 <= k < 0x7f ==> #[trigger] font.glyph_in_file(k) && (k < font.spec_glyph_count()
                ==> font.spec_glyph_size() >= 62),
    ensures
        font.printable_glyphs_ok(),
{
}

/// A PSF2 font.
pub struct Font {
    data: &'static [u8],
    header_size: usize,
    glyph_count: usize,
    glyph_size: usize,
}

impl Font {
    /// The font file.
    pub closed spec fn spec_data(&self) -> Seq<u8> {
        self.data@
    }

    pub closed spec fn spec_header_size(&self) -> usize {
        self.header_size
    }

    pub closed spec fn spec_glyph_count(&self) -> usize {
        self.glyph_count
    }

    pub closed spec fn spec_glyph_size(&self) -> usize {
        self.glyph_size
    }

    /// The glyph of `index`: its bytes, or nothing past the last glyph.
    pub open spec fn spec_glyph(&self, index: int) -> Seq<u8> {
        if index >= self.spec_glyph_count() {
            Seq::empty()
        } else {
            let offset = self.spec_header_size() + index * self.spec_glyph_size();
            self.spec_data().subrange(offset, offset + self.spec_glyph_size())
        }
    }

    /// Whether the glyph of `index` can be cut out of the file.
    pub open spec fn glyph_in_file(&self, index: int) -> bool {
        index < self.spec_glyph_count() ==> self.spec_header_size() + (index + 1)
            * self.spec_glyph_size() <= self.spec_data().len()
    }

    /// Read the header of a PSF2 font file.
    pub fn new(data: &'static [u8]) -> (r: Self)
        requires
            valid_psf2(data@),
        ensures
            r.spec_data() == data@,
            r.spec_header_size() == le_u32(data@, 8),
            r.spec_glyph_count() == le_u32(data@, 16),
            r.spec_glyph_size() == le_u32(data@, 20),
    {
        let header_size = read_u32(data, 8) as usize;
        let glyph_count = read_u32(data, 16) as usize;
        let glyph_size = read_u32(data, 20) as usize;
        Font { data, header_size, glyph_count, glyph_size }
    }

    /// The glyph of `index`: exactly [`Self::spec_glyph`].
    fn glyph(&self, index: usize) -> (r: &[u8])
        requires
            self.glyph_in_file(index as int),
        ensures
            r@ == self.spec_glyph(index as int),
    {
        if index >= self.glyph_count {
            return &[];
        }
        let n = self.data.len();
        proof {
            assert(self.header_size + index * self.glyph_size + self.glyph_size == self.header_size
                + (index + 1) * self.glyph_size) by (nonlinear_arith);
        }
        let offset = self.header_size + index * self.glyph_size;
        vstd::slice::slice_subrange(self.data, offset, offset + self.glyph_size)
    }

    /// Draw `character` with its top-left corner at `(x, y)`: every set
    /// pixel of its glyph, at half size, in `color`. Nothing is drawn for a
    /// character the font has no glyph for.
    pub fn draw_char(&self, fb: &mut Framebuffer, x: usize, y: usize, character: u8, color: Color)
        requires
            old(fb).wf(),
            self.glyph_in_file(character as int),
            character < self.spec_glyph_count() ==> self.spec_glyph_size() >= 62,
            x + SCALED_WIDTH <= usize::MAX,
            y + SCALED_HEIGHT <= usize::MAX,
        ensures
            final(fb).wf(),
            final(fb).spec_width() == old(fb).spec_width(),
            final(fb).spec_height() == old(fb).spec_height(),
            final(fb).spec_pitch() == old(fb).spec_pitch(),
            forall|c: Color| final(fb).spec_pixel(c) == old(fb).spec_pixel(c),
            (final(fb).pixels(), final(fb).spec_dirty()) == if character
                >= self.spec_glyph_count() {
                (old(fb).pixels(), old(fb).spec_dirty())
            } else {
                spec_glyph_steps(
                    (old(fb).pixels(), old(fb).spec_dirty()),
                    old(fb).spec_width(),
                    old(fb).spec_height(),
                    self.spec_glyph(character as int),
                    x,
                    y,
                    old(fb).spec_pixel(color),
                    (SCALED_WIDTH * SCALED_HEIGHT) as nat,
                )
            },
    {
        let glyph = self.glyph(character as usize);
        proof {
            if character < self.spec_glyph_count() {
                let index = character as int;
                assert(self.spec_header_size() + index * self.spec_glyph_size()
                    + self.spec_glyph_size() == self.spec_header_size() + (index + 1)
                    * self.spec_glyph_size()) by (nonlinear_arith);
                assert(glyph@.len() == self.spec_glyph_size());
            }
        }
        if glyph.len() == 0 {
            return;
        }
        let ghost start = (fb.pixels(), fb.spec_dirty());
        let ghost w = fb.spec_width();
        let ghost h = fb.spec_height();
        let ghost p = fb.spec_pixel(color);
        let mut row: usize = 0;
        while row < SCALED_HEIGHT
            invariant
                fb.wf(),
                row <= SCALED_HEIGHT,
                glyph@.len() >= 62,
                glyph@ == self.spec_glyph(character as int),
                character < self.spec_glyph_count(),
                x + SCALED_WIDTH <= usize::MAX,
                y + SCALED_HEIGHT <= usize::MAX,
                fb.spec_width() == w,
                fb.spec_height() == h,
                fb.spec_pitch() == old(fb).spec_pitch(),
                forall|c: Color| fb.spec_pixel(c) == old(fb).spec_pixel(c),
                p == old(fb).spec_pixel(color),
                start == (old(fb).pixels(), old(fb).spec_dirty()),
                (fb.pixels(), fb.spec_dirty()) == spec_glyph_steps(
                    start,
                    w,
                    h,
                    glyph@,
                    x,
                    y,
                    p,
                    (row * SCALED_WIDTH) as nat,
                ),
            decreases SCALED_HEIGHT - row,
        {
            let source_y = row * 2;
            let mut col: usize = 0;
            while col < SCALED_WIDTH
                invariant
                    fb.wf(),
                    row < SCALED_HEIGHT,
                    col <= SCALED_WIDTH,
                    source_y == row * 2,
                    glyph@.len() >= 62,
                    x + SCALED_WIDTH <= usize::MAX,
                    y + SCALED_HEIGHT <= usize::MAX,
                    fb.spec_width() == w,
                    fb.spec_height() == h,
                    fb.spec_pitch() == old(fb).spec_pitch(),
                    forall|c: Color| fb.spec_pixel(c) == old(fb).spec_pixel(c),
                    p == old(fb).spec_pixel(color),
                    (fb.pixels(), fb.spec_dirty()) == spec_glyph_steps(
                        start,
                        w,
                        h,
                        glyph@,
                        x,
                        y,
                        p,
                        (row * SCALED_WIDTH + col) as nat,
                    ),
                decreases SCALED_WIDTH - col,
            {
                let source_x = col * 2;
                let byte = glyph[source_y * BYTES_PER_ROW + source_x / 8];
                let bit = 7 - (source_x % 8);
                proof {
                    let t = (row * SCALED_WIDTH + col) as int;
                    assert(t / 8 == row && t % 8 == col);
                }
                if byte & (1u8 << (bit as u8)) != 0 {
                    fb.put_pixel(x + col, y + row, color);
                }
                col = col + 1;
            }
            row = row + 1;
        }
    }

    /// Whether every printable character can be drawn.
    pub open spec fn printable_glyphs_ok(&self) -> bool {
        forall|c: int|
            0x20 <= c <= 0x7e ==> #[trigger] self.glyph_in_file(c) && (c < self.spec_glyph_count()
                ==> self.spec_glyph_size() >= 62)
    }

    /// Whether every printable character can be drawn: exactly
    /// [`Self::printable_glyphs_ok`].
    pub fn check_printable_glyphs(&self) -> (r: bool)
        ensures
            r == self.printable_glyphs_ok(),
    {
        let length = self.data.len() as u64;
        let header = self.header_size as u64;
        let size = self.glyph_size as u64;
        let mut c: usize = 0x20;
        while c <= 0x7e
            invariant
                0x20 <= c <= 0x7f,
                length == self.spec_data().len(),
                header == self.spec_header_size(),
                size == self.spec_glyph_size(),
                forall|k: int|
                    0x20 <= k < c ==> #[trigger] self.glyph_in_file(k) && (k
                        < self.spec_glyph_count() ==> self.spec_glyph_size() >= 62),
            decreases 0x7f - c,
        {
            if c < self.glyph_count {
                let end = match (c as u64 + 1).checked_mul(size) {
                    Some(bytes) => bytes.checked_add(header),
                    None => None,
                };
                let fits = match end {
                    Some(end) => end <= length,
                    None => false,
                };
                if !fits || size < 62 {
                    proof {
                        lemma_glyph_not_drawable(self, c as int);
                    }
                    return false;
                }
                assert(end.unwrap() == header + (c + 1) * size);
                assert(self.glyph_in_file(c as int));
            } else {
                assert(self.glyph_in_file(c as int));
            }
            c = c + 1;
        }
        proof {
            lemma_all_glyphs_drawable(self);
        }
        true
    }

    /// Draw `text` from `(x, y)`, byte by byte: exactly [`spec_text_steps`].
    pub fn draw_text(&self, fb: &mut Framebuffer, x: usize, y: usize, text: &str, color: Color)
        requires
            old(fb).wf(),
            self.printable_glyphs_ok(),
            x + SCALED_WIDTH * 4 * text.spec_bytes().len() + SCALED_WIDTH <= usize::MAX,
            y + SCALED_HEIGHT * text.spec_bytes().len() + SCALED_HEIGHT <= usize::MAX,
        ensures
            final(fb).wf(),
            final(fb).spec_width() == old(fb).spec_width(),
            final(fb).spec_height() == old(fb).spec_height(),
            final(fb).spec_pitch() == old(fb).spec_pitch(),
            (final(fb).pixels(), final(fb).spec_dirty()) == spec_text_steps(
                *self,
                (old(fb).pixels(), old(fb).spec_dirty()),
                old(fb).spec_width(),
                old(fb).spec_height(),
                x,
                y,
                old(fb).spec_pixel(color),
                text.spec_bytes(),
                text.spec_bytes().len(),
            ).0,
    {
        let bytes = text.as_bytes();
        let ghost start = (fb.pixels(), fb.spec_dirty());
        let ghost p = fb.spec_pixel(color);
        let mut cursor_x = x;
        let mut cursor_y = y;
        let mut i: usize = 0;
        while i < bytes.len()
            invariant
                fb.wf(),
                i <= bytes@.len(),
                bytes@ == text.spec_bytes(),
                self.printable_glyphs_ok(),
                x + SCALED_WIDTH * 4 * bytes@.len() + SCALED_WIDTH <= usize::MAX,
                y + SCALED_HEIGHT * bytes@.len() + SCALED_HEIGHT <= usize::MAX,
                fb.spec_width() == old(fb).spec_width(),
                fb.spec_height() == old(fb).spec_height(),
                fb.spec_pitch() == old(fb).spec_pitch(),
                forall|c: Color| fb.spec_pixel(c) == old(fb).spec_pixel(c),
                p == old(fb).spec_pixel(color),
                start == (old(fb).pixels(), old(fb).spec_dirty()),
                ((fb.pixels(), fb.spec_dirty()), cursor_x as int, cursor_y as int) == spec_text_steps(
                    *self,
                    start,
                    old(fb).spec_width(),
                    old(fb).spec_height(),
                    x,
                    y,
                    p,
                    bytes@,
                    i as nat,
                ),
            decreases bytes.len() - i,
        {
            proof {
                lemma_text_cursor_bounds(
                    *self,
                    start,
                    old(fb).spec_width(),
                    old(fb).spec_height(),
                    x,
                    y,
                    p,
                    bytes@,
                    i as nat,
                );
                assert(SCALED_WIDTH * 4 * i + SCALED_WIDTH * 4 <= SCALED_WIDTH * 4 * bytes@.len())
                    by (nonlinear_arith)
                    requires
                        i < bytes@.len(),
                ;
                assert(SCALED_HEIGHT * i + SCALED_HEIGHT <= SCALED_HEIGHT * bytes@.len())
                    by (nonlinear_arith)
                    requires
                        i < bytes@.len(),
                ;
            }
            let character = bytes[i];
            if character == 0x0a {
                cursor_x = x;
                cursor_y = cursor_y + SCALED_HEIGHT;
            } else if character == 0x0d {
                cursor_x = x;
            } else if character == 0x09 {
                cursor_x = cursor_x + SCALED_WIDTH * 4;
            } else if 0x20 <= character && character <= 0x7e {
                proof {
                    assert(self.glyph_in_file(character as int));
                }
                self.draw_char(fb, cursor_x, cursor_y, character, color);
                cursor_x = cursor_x + SCALED_WIDTH;
            }
            i = i + 1;
        }
    }
}

} // verus!
