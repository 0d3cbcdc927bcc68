//! Framebuffer: a backbuffer the kernel draws into, and the rectangle of it
//! that has changed since it was last presented.
//!
//! The backbuffer holds one 32-bit pixel per position, row by row. Drawing
//! never touches the screen; presenting copies the changed rectangle to the
//! frontbuffer.

use vstd::prelude::*;
use vstd::arithmetic::div_mod::{lemma_fundamental_div_mod, lemma_fundamental_div_mod_converse};
use crate::text::str_eq;

verus! {

/// Largest supported width in pixels.
pub const MAX_WIDTH: usize = 1920;

/// Largest supported height in pixels.
pub const MAX_HEIGHT: usize = 1080;

/// Bytes per pixel of the supported pixel format.
pub const BYTES_PER_PIXEL: usize = 4;

/// An RGB color.
#[derive(Debug, PartialEq, Eq, Clone, Copy, Structural)]
pub struct Color {
    pub r: u8,
    pub g: u8,
    pub b: u8,
}

impl Color {
    #[allow(non_snake_case)]
    pub fn BLACK() -> (c: Color)
        ensures
            c == (Color { r: 0, g: 0, b: 0 }),
    {
        Color { r: 0, g: 0, b: 0 }
    }

    #[allow(non_snake_case)]
    pub fn WHITE() -> (c: Color)
        ensures
            c == (Color { r: 255, g: 255, b: 255 }),
    {
        Color { r: 255, g: 255, b: 255 }
    }

    #[allow(non_snake_case)]
    pub fn RED() -> (c: Color)
        ensures
            c == (Color { r: 255, g: 0, b: 0 }),
    {
        Color { r: 255, g: 0, b: 0 }
    }

    #[allow(non_snake_case)]
    pub fn GREEN() -> (c: Color)
        ensures
            c == (Color { r: 0, g: 255, b: 0 }),
    {
        Color { r: 0, g: 255, b: 0 }
    }

    #[allow(non_snake_case)]
    pub fn BLUE() -> (c: Color)
        ensures
            c == (Color { r: 0, g: 0, b: 255 }),
    {
        Color { r: 0, g: 0, b: 255 }
    }

    /// The color named `name`: black, red, green, white or blue.
    pub fn from_name(name: &str) -> (r: Option<Color>)
        ensures
            r == spec_color_named(name@),
    {
        proof {
            reveal_strlit("black");
            reveal_strlit("red");
            reveal_strlit("green");
            reveal_strlit("white");
            reveal_strlit("blue");
        }
        if str_eq(name, "black") {
            Some(Color::BLACK())
        } else if str_eq(name, "red") {
            Some(Color::RED())
        } else if str_eq(name, "green") {
            Some(Color::GREEN())
        } else if str_eq(name, "white") {
            Some(Color::WHITE())
        } else if str_eq(name, "blue") {
            Some(Color::BLUE())
        } else {
            None
        }
    }
}

/// The color a name stands for.
pub open spec fn spec_color_named(name: Seq<char>) -> Option<Color> {
    if name == "black"@ {
        Some(Color { r: 0, g: 0, b: 0 })
    } else if name == "red"@ {
        Some(Color { r: 255, g: 0, b: 0 })
    } else if name == "green"@ {
        Some(Color { r: 0, g: 255, b: 0 })
    } else if name == "white"@ {
        Some(Color { r: 255, g: 255, b: 255 })
    } else if name == "blue"@ {
        Some(Color { r: 0, g: 0, b: 255 })
    } else {
        None
    }
}

/// The rectangle `[min_x, max_x) x [min_y, max_y)` that has changed since
/// the last presentation; nothing has changed when `dirty` is false.
#[derive(Debug, Clone, Copy, PartialEq, Eq, Structural)]
pub struct DirtyRect {
    pub dirty: bool,
    pub min_x: usize,
    pub min_y: usize,
    pub max_x: usize,
    pub max_y: usize,
}

/// The smaller of two sizes.
pub open spec fn min_usize(a: usize, b: usize) -> usize {
    if a <= b {
        a
    } else {
        b
    }
}

/// The larger of two sizes.
pub open spec fn max_usize(a: usize, b: usize) -> usize {
    if a >= b {
        a
    } else {
        b
    }
}

/// `a + b`, saturated at `usize::MAX`.
pub open spec fn sat_add(a: usize, b: usize) -> usize {
    if a + b > usize::MAX {
        usize::MAX
    } else {
        (a + b) as usize
    }
}

/// The changed rectangle after a change of `w x h` pixels at `(x, y)`,
/// clipped to a `width x height` screen, is added to it.
pub open spec fn spec_mark_dirty(
    d: DirtyRect,
    x: usize,
    y: usize,
    w: usize,
    h: usize,
    width: usize,
    height: usize,
) -> DirtyRect {
    let max_x = min_usize(sat_add(x, w), width);
    let max_y = min_usize(sat_add(y, h), height);
    if w == 0 || h == 0 || x >= width || y >= height || max_x <= x || max_y <= y {
        d
    } else if !d.dirty {
        DirtyRect { dirty: true, min_x: x, min_y: y, max_x, max_y }
    } else {
        DirtyRect {
            dirty: true,
            min_x: min_usize(d.min_x, x),
            min_y: min_usize(d.min_y, y),
            max_x: max_usize(d.max_x, max_x),
            max_y: max_usize(d.max_y, max_y),
        }
    }
}

/// The pixel value of `c` with the given channel positions.
pub open spec fn pixel_value(c: Color, red_shift: u8, green_shift: u8, blue_shift: u8) -> u32 {
    ((c.r as u32) << red_shift) | ((c.g as u32) << green_shift) | ((c.b as u32) << blue_shift)
}

/// The pixels after filling `[x, end_x) x [y, end_y)` with `p` on a screen
/// `width` pixels wide.
pub open spec fn spec_fill_rect(
    px: Seq<u32>,
    width: usize,
    x: usize,
    y: usize,
    end_x: usize,
    end_y: usize,
    p: u32,
) -> Seq<u32> {
    Seq::new(
        px.len(),
        |i: int|
            if y <= i / (width as int) < end_y && x <= i % (width as int) < end_x {
                p
            } else {
                px[i]
            },
    )
}

/// The backbuffer and changed rectangle after filling the rectangle
/// `w x h` at `(x, y)`, clipped to a `width x height` screen, with `p`.
pub open spec fn spec_draw_rect(
    st: (Seq<u32>, DirtyRect),
    width: usize,
    height: usize,
    x: usize,
    y: usize,
    w: usize,
    h: usize,
    p: u32,
) -> (Seq<u32>, DirtyRect) {
    let end_x = min_usize(sat_add(x, w), width);
    let end_y = min_usize(sat_add(y, h), height);
    if w == 0 || h == 0 || x >= width || y >= height {
        st
    } else {
        (
            spec_fill_rect(st.0, width, x, y, end_x, end_y, p),
            spec_mark_dirty(st.1, x, y, (end_x - x) as usize, (end_y - y) as usize, width, height),
        )
    }
}

/// The backbuffer and changed rectangle after filling a `width x height`
/// screen with `p`.
pub open spec fn spec_clear(st: (Seq<u32>, DirtyRect), width: usize, height: usize, p: u32) -> (
    Seq<u32>,
    DirtyRect,
) {
    (Seq::new(st.0.len(), |i: int| p), spec_mark_dirty(st.1, 0, 0, width, height, width, height))
}

/// The backbuffer and changed rectangle after scrolling a `width x height`
/// screen up by `pixels` rows, filling with `p`.
pub open spec fn spec_scroll_up(
    st: (Seq<u32>, DirtyRect),
    width: usize,
    height: usize,
    pixels: usize,
    p: u32,
) -> (Seq<u32>, DirtyRect) {
    if pixels == 0 {
        st
    } else if pixels >= height {
        spec_clear(st, width, height, p)
    } else {
        let moved = spec_copy_rows(st.0, width, 0, pixels, 0, 0, width, (height - pixels) as nat);
        (
            spec_fill_rect(moved, width, 0, (height - pixels) as usize, width, height, p),
            spec_mark_dirty(
                spec_mark_dirty(st.1, 0, 0, width, (height - pixels) as usize, width, height),
                0,
                (height - pixels) as usize,
                width,
                pixels,
                width,
                height,
            ),
        )
    }
}

/// The pixels after copying `len` pixels from `src` to `dst`, as if through
/// a temporary buffer.
pub open spec fn spec_copy_span(px: Seq<u32>, src: int, dst: int, len: int) -> Seq<u32> {
    Seq::new(px.len(), |i: int| if dst <= i < dst + len { px[src + (i - dst)] } else { px[i] })
}

/// The pixels after copying the first `rows` rows of a `w`-pixel-wide
/// rectangle from `(src_x, src_y)` to `(dst_x, dst_y)`, one row after the
/// other from the top.
pub open spec fn spec_copy_rows(
    px: Seq<u32>,
    width: usize,
    src_x: usize,
    src_y: usize,
    dst_x: usize,
    dst_y: usize,
    w: usize,
    rows: nat,
) -> Seq<u32>
    decreases rows,
{
    if rows == 0 {
        px
    } else {
        let r = (rows - 1) as nat;
        spec_copy_span(
            spec_copy_rows(px, width, src_x, src_y, dst_x, dst_y, w, r),
            (src_y + r) * width + src_x,
            (dst_y + r) * width + dst_x,
            w as int,
        )
    }
}

/// A position of a pixel row lies inside the row's span exactly when it is
/// in that row between the span's columns.
proof fn lemma_row_span(i: int, width: int, row: int, a: int, b: int)
    requires
        width > 0,
        0 <= a <= b <= width,
        row >= 0,
    ensures
        (row * width + a <= i < row * width + b) <==> (i / width == row && a <= i % width < b),
{
    if row * width + a <= i < row * width + b {
        lemma_fundamental_div_mod_converse(i, width, row, i - row * width);
    }
    if i / width == row && a <= i % width < b {
        lemma_fundamental_div_mod(i, width);
        assert(i == row * width + i % width) by (nonlinear_arith)
            requires
                i == width * (i / width) + i % width,
                i / width == row,
        ;
    }
}

/// Positions inside the screen fit in its pixel count.
proof fn lemma_pixel_index(x: int, y: int, width: int, height: int)
    by (nonlinear_arith)
    requires
        0 <= x < width,
        0 <= y < height,
    ensures
        0 <= y * width + x < width * height,
        y * width + width <= width * height,
{
}

/// A bounded product of a row and a width stays small.
proof fn lemma_row_start_bound(y: int, width: int)
    by (nonlinear_arith)
    requires
        0 <= y <= MAX_HEIGHT,
        0 <= width <= MAX_WIDTH,
    ensures
        y * width <= MAX_HEIGHT * MAX_WIDTH,
{
}

/// Copying the first `k` full-width rows up by `pixels` rows, from the
/// top: every row above `k` now holds the row `pixels` below it, and the
/// rest is untouched.
proof fn lemma_copy_rows_up(px: Seq<u32>, width: usize, pixels: usize, k: nat)
    requires
        width > 0,
        (k + pixels) * width <= px.len(),
    ensures
        spec_copy_rows(px, width, 0, pixels, 0, 0, width, k).len() == px.len(),
        forall|i: int|
            0 <= i < px.len() ==> #[trigger] spec_copy_rows(px, width, 0, pixels, 0, 0, width, k)[i]
                == if i < k * width {
                px[i + pixels * width]
            } else {
                px[i]
            },
    decreases k,
{
    if k > 0 {
        let r = (k - 1) as nat;
        assert((r + pixels) * width <= px.len()) by (nonlinear_arith)
            requires
                (k + pixels) * width <= px.len(),
                r < k,
                width > 0,
        ;
        lemma_copy_rows_up(px, width, pixels, r);
        let prev = spec_copy_rows(px, width, 0, pixels, 0, 0, width, r);
        assert((pixels + r) * width + 0 == r * width + pixels * width) by (nonlinear_arith);
        assert((0 + r) * width + 0 == r * width) by (nonlinear_arith);
        assert(k * width == r * width + width) by (nonlinear_arith)
            requires
                r == k - 1,
        ;
        assert(pixels * width >= 0) by (nonlinear_arith);
        let cur = spec_copy_rows(px, width, 0, pixels, 0, 0, width, k);
        assert(cur == spec_copy_span(prev, r * width + pixels * width, r * width, width as int));
        assert forall|i: int| 0 <= i < px.len() implies #[trigger] cur[i] == if i < k * width {
            px[i + pixels * width]
        } else {
            px[i]
        } by {
            if r * width <= i < r * width + width {
                let j = r * width + pixels * width + (i - r * width);
                assert(j == i + pixels * width);
                assert(j < px.len()) by (nonlinear_arith)
                    requires
                        j == i + pixels * width,
                        i < r * width + width,
                        r + 1 == k,
                        (k + pixels) * width <= px.len(),
                ;
                assert(prev[j] == px[j]);
            }
        }
    }
}

/// Scrolling up by `pixels` rows, with `0 < pixels < height`: pixel
/// `(x, y)` afterwards holds the pixel `pixels` rows below it, and the rows
/// that appear at the bottom hold the fill pixel `p`.
pub proof fn law_scroll_up_pointwise(
    st: (Seq<u32>, DirtyRect),
    width: usize,
    height: usize,
    pixels: usize,
    p: u32,
)
    requires
        width > 0,
        st.0.len() == width * height,
        0 < pixels < height,
    ensures
        forall|x: int, y: int|
            0 <= x < width && 0 <= y < height ==> #[trigger] spec_scroll_up(st, width, height, pixels, p).0[y
                * width + x] == if y + pixels < height {
                st.0[(y + pixels) * width + x]
            } else {
                p
            },
{
    law_scroll_moves_rows(st.0, width, height, pixels, p);
}

/// Scrolling up by `pixels` rows, with `0 < pixels < height`, moves every
/// pixel `pixels` rows up and fills the rows that appear at the bottom with
/// the fill pixel `p`.
pub proof fn law_scroll_moves_rows(
    px: Seq<u32>,
    width: usize,
    height: usize,
    pixels: usize,
    p: u32,
)
    requires
        width > 0,
        px.len() == width * height,
        0 < pixels < height,
    ensures
        ({
            let moved = spec_copy_rows(px, width, 0, pixels, 0, 0, width, (height - pixels) as nat);
            let fin = spec_fill_rect(moved, width, 0, (height - pixels) as usize, width, height, p);
            forall|x: int, y: int|
                0 <= x < width && 0 <= y < height ==> #[trigger] fin[y * width + x] == if y + pixels
                    < height {
                    px[(y + pixels) * width + x]
                } else {
                    p
                }
        }),
{
    let n = (height - pixels) as nat;
    assert((n + pixels) * width <= px.len()) by (nonlinear_arith)
        requires
            n + pixels == height,
            px.len() == width * height,
    ;
    lemma_copy_rows_up(px, width, pixels, n);
    let moved = spec_copy_rows(px, width, 0, pixels, 0, 0, width, n);
    let fin = spec_fill_rect(moved, width, 0, (height - pixels) as usize, width, height, p);
    assert forall|x: int, y: int| 0 <= x < width && 0 <= y < height implies #[trigger] fin[y * width
        + x] == if y + pixels < height {
        px[(y + pixels) * width + x]
    } else {
        p
    } by {
        let i = y * width + x;
        lemma_pixel_index(x, y, width as int, height as int);
        lemma_fundamental_div_mod_converse(i, width as int, y, x);
        if y + pixels < height {
            assert(i < n * width) by (nonlinear_arith)
                requires
                    i == y * width + x,
                    x < width,
                    y < n,
            ;
            assert(i + pixels * width == (y + pixels) * width + x) by (nonlinear_arith)
                requires
                    i == y * width + x,
            ;
        }
    }
}

/// A backbuffer and its bookkeeping.
pub struct Framebuffer {
    back: Vec<u32>,
    width: usize,
    height: usize,
    pitch: usize,
    red_shift: u8,
    green_shift: u8,
    blue_shift: u8,
    dirty: DirtyRect,
}

impl Framebuffer {
    /// The backbuffer, row by row.
    pub closed spec fn pixels(&self) -> Seq<u32> {
        self.back@
    }

    pub closed spec fn spec_width(&self) -> usize {
        self.width
    }

    pub closed spec fn spec_height(&self) -> usize {
        self.height
    }

    pub closed spec fn spec_pitch(&self) -> usize {
        self.pitch
    }

    /// The changed rectangle.
    pub closed spec fn spec_dirty(&self) -> DirtyRect {
        self.dirty
    }

    /// The pixel value of `c` on this screen.
    pub closed spec fn spec_pixel(&self, c: Color) -> u32 {
        pixel_value(c, self.red_shift, self.green_shift, self.blue_shift)
    }

    /// The backbuffer covers the screen, whose size is supported.
    pub closed spec fn wf(&self) -> bool {
        &&& 0 < self.width <= MAX_WIDTH
        &&& 0 < self.height <= MAX_HEIGHT
        &&& self.back@.len() == self.width * self.height
        &&& self.width * self.height <= MAX_WIDTH * MAX_HEIGHT
        &&& self.red_shift < 32 && self.green_shift < 32 && self.blue_shift < 32
    }

    /// A framebuffer for a `width x height` screen of 32-bit pixels whose
    /// rows are `pitch` bytes apart, with the color channels at the given
    /// bit positions; every pixel starts at zero and nothing is changed.
    pub fn new(
        width: usize,
        height: usize,
        pitch: usize,
        red_shift: u8,
        green_shift: u8,
        blue_shift: u8,
    ) -> (r: Self)
        requires
            0 < width <= MAX_WIDTH,
            0 < height <= MAX_HEIGHT,
            red_shift < 32 && green_shift < 32 && blue_shift < 32,
        ensures
            r.wf(),
            r.spec_width() == width,
            r.spec_height() == height,
            r.spec_pitch() == pitch,
            r.pixels() == Seq::new((width * height) as nat, |i: int| 0u32),
            !r.spec_dirty().dirty,
            forall|c: Color| r.spec_pixel(c) == pixel_value(c, red_shift, green_shift, blue_shift),
    {
        proof {
            lemma_row_start_bound(height as int, width as int);
        }
        let count = width * height;
        let mut back: Vec<u32> = Vec::new();
        let mut i: usize = 0;
        while i < count
            invariant
                i <= count,
                back@ == Seq::new(i as nat, |k: int| 0u32),
            decreases count - i,
        {
            back.push(0);
            i = i + 1;
            assert(back@ =~= Seq::new(i as nat, |k: int| 0u32));
        }
        Framebuffer {
            back,
            width,
            height,
            pitch,
            red_shift,
            green_shift,
            blue_shift,
            dirty: DirtyRect { dirty: false, min_x: 0, min_y: 0, max_x: 0, max_y: 0 },
        }
    }

    pub fn width(&self) -> (r: usize)
        ensures
            r == self.spec_width(),
    {
        self.width
    }

    pub fn height(&self) -> (r: usize)
        ensures
            r == self.spec_height(),
    {
        self.height
    }

    pub fn pitch(&self) -> (r: usize)
        ensures
            r == self.spec_pitch(),
    {
        self.pitch
    }

    /// The backbuffer, row by row.
    pub fn backbuffer(&self) -> (r: &[u32])
        ensures
            r@ == self.pixels(),
    {
        self.back.as_slice()
    }

    /// The pixel value of `color`.
    pub fn color_to_u32(&self, color: Color) -> (r: u32)
        requires
            self.wf(),
        ensures
            r == self.spec_pixel(color),
    {
        ((color.r as u32) << self.red_shift) | ((color.g as u32) << self.green_shift) | ((
        color.b as u32) << self.blue_shift)
    }

    /// Add the rectangle `w x h` at `(x, y)`, clipped to the screen, to
    /// the changed rectangle.
    pub fn mark_dirty(&mut self, x: usize, y: usize, w: usize, h: usize)
        ensures
            final(self).spec_dirty() == spec_mark_dirty(
                old(self).spec_dirty(),
                x,
                y,
                w,
                h,
                old(self).spec_width(),
                old(self).spec_height(),
            ),
            final(self).pixels() == old(self).pixels(),
            final(self).spec_width() == old(self).spec_width(),
            final(self).spec_height() == old(self).spec_height(),
            final(self).spec_pitch() == old(self).spec_pitch(),
            forall|c: Color| final(self).spec_pixel(c) == old(self).spec_pixel(c),
            old(self).wf() ==> final(self).wf(),
    {
        if w == 0 || h == 0 {
            return;
        }
        if x >= self.width || y >= self.height {
            return;
        }
        let sx = x.saturating_add(w);
        let max_x = if sx <= self.width {
            sx
        } else {
            self.width
        };
        let sy = y.saturating_add(h);
        let max_y = if sy <= self.height {
            sy
        } else {
            self.height
        };
        if max_x <= x || max_y <= y {
            return;
        }
        if !self.dirty.dirty {
            self.dirty = DirtyRect { dirty: true, min_x: x, min_y: y, max_x, max_y };
        } else {
            let d = self.dirty;
            self.dirty = DirtyRect {
                dirty: true,
                min_x: if d.min_x <= x {
                    d.min_x
                } else {
                    x
                },
                min_y: if d.min_y <= y {
                    d.min_y
                } else {
                    y
                },
                max_x: if d.max_x >= max_x {
                    d.max_x
                } else {
                    max_x
                },
                max_y: if d.max_y >= max_y {
                    d.max_y
                } else {
                    max_y
                },
            };
        }
    }

    /// Set the pixel at `(x, y)` to `color`; positions off the screen are
    /// ignored.
    pub fn put_pixel(&mut self, x: usize, y: usize, color: Color)
        requires
            old(self).wf(),
        ensures
            final(self).wf(),
            final(self).spec_width() == old(self).spec_width(),
            final(self).spec_height() == old(self).spec_height(),
            final(self).spec_pitch() == old(self).spec_pitch(),
            forall|c: Color| final(self).spec_pixel(c) == old(self).spec_pixel(c),
            if x >= old(self).spec_width() || y >= old(self).spec_height() {
                final(self).pixels() == old(self).pixels() && final(self).spec_dirty() == old(
                    self,
                ).spec_dirty()
            } else {
                &&& final(self).pixels() == old(self).pixels().update(
                    y * old(self).spec_width() + x,
                    old(self).spec_pixel(color),
                )
                &&& final(self).spec_dirty() == spec_mark_dirty(
                    old(self).spec_dirty(),
                    x,
                    y,
                    1,
                    1,
                    old(self).spec_width(),
                    old(self).spec_height(),
                )
            },
    {
        if x >= self.width || y >= self.height {
            return;
        }
        let pixel = self.color_to_u32(color);
        proof {
            lemma_pixel_index(x as int, y as int, self.width as int, self.height as int);
            lemma_row_start_bound(y as int, self.width as int);
        }
        let index = y * self.width + x;
        self.back.set(index, pixel);
        self.mark_dirty(x, y, 1, 1);
    }

    /// Fill `len` pixels from position `start` with `pixel`.
    fn fill_span(&mut self, start: usize, len: usize, pixel: u32)
        requires
            old(self).wf(),
            start + len <= old(self).pixels().len(),
        ensures
            final(self).wf(),
            final(self).pixels() == Seq::new(
                old(self).pixels().len(),
                |i: int|
                    if start <= i < start + len {
                        pixel
                    } else {
                        old(self).pixels()[i]
                    },
            ),
            final(self).spec_width() == old(self).spec_width(),
            final(self).spec_height() == old(self).spec_height(),
            final(self).spec_pitch() == old(self).spec_pitch(),
            final(self).spec_dirty() == old(self).spec_dirty(),
            forall|c: Color| final(self).spec_pixel(c) == old(self).spec_pixel(c),
            final(self).red_shift == old(self).red_shift,
            final(self).green_shift == old(self).green_shift,
            final(self).blue_shift == old(self).blue_shift,
    {
        let ghost before = self.back@;
        let mut k: usize = 0;
        while k < len
            invariant
                self.wf(),
                k <= len,
                start + len <= before.len(),
                self.width == old(self).width,
                self.height == old(self).height,
                self.pitch == old(self).pitch,
                self.dirty == old(self).dirty,
                self.red_shift == old(self).red_shift,
                self.green_shift == old(self).green_shift,
                self.blue_shift == old(self).blue_shift,
                self.back@ == Seq::new(
                    before.len(),
                    |i: int|
                        if start <= i < start + k {
                            pixel
                        } else {
                            before[i]
                        },
                ),
            decreases len - k,
        {
            self.back.set(start + k, pixel);
            k = k + 1;
            assert(self.back@ =~= Seq::new(
                before.len(),
                |i: int|
                    if start <= i < start + k {
                        pixel
                    } else {
                        before[i]
                    },
            ));
        }
    }

    /// Fill the whole screen with `color`.
    pub fn clear(&mut self, color: Color)
        requires
            old(self).wf(),
        ensures
            final(self).wf(),
            final(self).spec_width() == old(self).spec_width(),
            final(self).spec_height() == old(self).spec_height(),
            final(self).spec_pitch() == old(self).spec_pitch(),
            forall|c: Color| final(self).spec_pixel(c) == old(self).spec_pixel(c),
            (final(self).pixels(), final(self).spec_dirty()) == spec_clear(
                (old(self).pixels(), old(self).spec_dirty()),
                old(self).spec_width(),
                old(self).spec_height(),
                old(self).spec_pixel(color),
            ),
            final(self).pixels() == Seq::new(
                old(self).pixels().len(),
                |i: int| old(self).spec_pixel(color),
            ),
            final(self).spec_dirty() == spec_mark_dirty(
                old(self).spec_dirty(),
                0,
                0,
                old(self).spec_width(),
                old(self).spec_height(),
                old(self).spec_width(),
                old(self).spec_height(),
            ),
    {
        let pixel = self.color_to_u32(color);
        let count = self.back.len();
        self.fill_span(0, count, pixel);
        assert(self.back@ =~= Seq::new(old(self).back@.len(), |i: int| pixel));
        let width = self.width;
        let height = self.height;
        self.mark_dirty(0, 0, width, height);
    }

    /// Copy `len` pixels from position `src` to position `dst`; the two
    /// spans may overlap.
    fn copy_span(&mut self, src: usize, dst: usize, len: usize)
        requires
            old(self).wf(),
            src + len <= old(self).pixels().len(),
            dst + len <= old(self).pixels().len(),
        ensures
            final(self).wf(),
            final(self).pixels() == spec_copy_span(old(self).pixels(), src as int, dst as int, len as int),
            final(self).spec_width() == old(self).spec_width(),
            final(self).spec_height() == old(self).spec_height(),
            final(self).spec_pitch() == old(self).spec_pitch(),
            final(self).spec_dirty() == old(self).spec_dirty(),
            final(self).red_shift == old(self).red_shift,
            final(self).green_shift == old(self).green_shift,
            final(self).blue_shift == old(self).blue_shift,
    {
        let ghost before = self.back@;
        let n = self.back.len();
        let mut temp: Vec<u32> = Vec::new();
        let mut k: usize = 0;
        while k < len
            invariant
                k <= len,
                n == before.len(),
                src + len <= before.len(),
                self.back@ == before,
                temp@ == before.subrange(src as int, src + k),
            decreases len - k,
        {
            temp.push(self.back[src + k]);
            k = k + 1;
            assert(temp@ =~= before.subrange(src as int, src + k));
        }
        let mut k: usize = 0;
        while k < len
            invariant
                self.wf(),
                k <= len,
                dst + len <= before.len(),
                src + len <= before.len(),
                temp@ == before.subrange(src as int, src + len),
                self.width == old(self).width,
                self.height == old(self).height,
                self.pitch == old(self).pitch,
                self.dirty == old(self).dirty,
                self.red_shift == old(self).red_shift,
                self.green_shift == old(self).green_shift,
                self.blue_shift == old(self).blue_shift,
                self.back@ == Seq::new(
                    before.len(),
                    |i: int|
                        if dst <= i < dst + k {
                            before[src + (i - dst)]
                        } else {
                            before[i]
                        },
                ),
            decreases len - k,
        {
            self.back.set(dst + k, temp[k]);
            k = k + 1;
            assert(self.back@ =~= Seq::new(
                before.len(),
                |i: int|
                    if dst <= i < dst + k {
                        before[src + (i - dst)]
                    } else {
                        before[i]
                    },
            ));
        }
    }

    /// Copy the rectangle `w x h` at `(src_x, src_y)` to `(dst_x, dst_y)`,
    /// clipped so that both lie on the screen, row by row from the top.
    pub fn copy_rect(
        &mut self,
        src_x: usize,
        src_y: usize,
        dst_x: usize,
        dst_y: usize,
        w: usize,
        h: usize,
    )
        requires
            old(self).wf(),
        ensures
            final(self).wf(),
            final(self).spec_width() == old(self).spec_width(),
            final(self).spec_height() == old(self).spec_height(),
            final(self).spec_pitch() == old(self).spec_pitch(),
            forall|c: Color| final(self).spec_pixel(c) == old(self).spec_pixel(c),
            ({
                let width = old(self).spec_width();
                let height = old(self).spec_height();
                let cw = min_usize(min_usize(w, (width - src_x) as usize), (width - dst_x) as usize);
                let ch = min_usize(
                    min_usize(h, (height - src_y) as usize),
                    (height - dst_y) as usize,
                );
                if w == 0 || h == 0 || src_x >= width || src_y >= height || dst_x >= width || dst_y
                    >= height {
                    final(self).pixels() == old(self).pixels() && final(self).spec_dirty() == old(
                        self,
                    ).spec_dirty()
                } else {
                    &&& final(self).pixels() == spec_copy_rows(
                        old(self).pixels(),
                        width,
                        src_x,
                        src_y,
                        dst_x,
                        dst_y,
                        cw,
                        ch as nat,
                    )
                    &&& final(self).spec_dirty() == spec_mark_dirty(
                        old(self).spec_dirty(),
                        dst_x,
                        dst_y,
                        cw,
                        ch,
                        width,
                        height,
                    )
                }
            }),
    {
        if w == 0 || h == 0 {
            return;
        }
        if src_x >= self.width || src_y >= self.height || dst_x >= self.width || dst_y
            >= self.height {
            return;
        }
        let mut cw = w;
        if self.width - src_x < cw {
            cw = self.width - src_x;
        }
        if self.width - dst_x < cw {
            cw = self.width - dst_x;
        }
        let mut ch = h;
        if self.height - src_y < ch {
            ch = self.height - src_y;
        }
        if self.height - dst_y < ch {
            ch = self.height - dst_y;
        }
        if cw == 0 || ch == 0 {
            return;
        }
        let ghost before = self.back@;
        let mut row: usize = 0;
        while row < ch
            invariant
                self.wf(),
                row <= ch,
                cw >= 1,
                src_x < self.width,
                dst_x < self.width,
                src_y + ch <= self.height,
                dst_y + ch <= self.height,
                src_x + cw <= self.width,
                dst_x + cw <= self.width,
                self.width == old(self).width,
                self.height == old(self).height,
                self.pitch == old(self).pitch,
                self.dirty == old(self).dirty,
                self.red_shift == old(self).red_shift,
                self.green_shift == old(self).green_shift,
                self.blue_shift == old(self).blue_shift,
                before == old(self).back@,
                self.back@ == spec_copy_rows(before, self.width, src_x, src_y, dst_x, dst_y, cw, row as nat),
            decreases ch - row,
        {
            proof {
                lemma_pixel_index(src_x as int, (src_y + row) as int, self.width as int, self.height as int);
                lemma_pixel_index(dst_x as int, (dst_y + row) as int, self.width as int, self.height as int);
                lemma_row_start_bound((src_y + row) as int, self.width as int);
                lemma_row_start_bound((dst_y + row) as int, self.width as int);
                lemma_pixel_index((src_x + cw - 1) as int, (src_y + row) as int, self.width as int, self.height as int);
                lemma_pixel_index((dst_x + cw - 1) as int, (dst_y + row) as int, self.width as int, self.height as int);
            }
            let src = (src_y + row) * self.width + src_x;
            let dst = (dst_y + row) * self.width + dst_x;
            self.copy_span(src, dst, cw);
            row = row + 1;
        }
        self.mark_dirty(dst_x, dst_y, cw, ch);
    }

    /// Move the picture up by `pixels` rows, filling the rows that appear at
    /// the bottom with `color`; scrolling by the whole height or more
    /// clears the screen.
    pub fn scroll_up(&mut self, pixels: usize, color: Color)
        requires
            old(self).wf(),
        ensures
            final(self).wf(),
            (final(self).pixels(), final(self).spec_dirty()) == spec_scroll_up(
                (old(self).pixels(), old(self).spec_dirty()),
                old(self).spec_width(),
                old(self).spec_height(),
                pixels,
                old(self).spec_pixel(color),
            ),
            final(self).spec_width() == old(self).spec_width(),
            final(self).spec_height() == old(self).spec_height(),
            final(self).spec_pitch() == old(self).spec_pitch(),
            forall|c: Color| final(self).spec_pixel(c) == old(self).spec_pixel(c),
            ({
                let width = old(self).spec_width();
                let height = old(self).spec_height();
                let p = old(self).spec_pixel(color);
                if pixels == 0 {
                    final(self).pixels() == old(self).pixels() && final(self).spec_dirty() == old(
                        self,
                    ).spec_dirty()
                } else if pixels >= height {
                    &&& final(self).pixels() == Seq::new(old(self).pixels().len(), |i: int| p)
                    &&& final(self).spec_dirty() == spec_mark_dirty(
                        old(self).spec_dirty(),
                        0,
                        0,
                        width,
                        height,
                        width,
                        height,
                    )
                } else {
                    let moved = spec_copy_rows(
                        old(self).pixels(),
                        width,
                        0,
                        pixels,
                        0,
                        0,
                        width,
                        (height - pixels) as nat,
                    );
                    &&& final(self).pixels() == spec_fill_rect(
                        moved,
                        width,
                        0,
                        (height - pixels) as usize,
                        width,
                        height,
                        p,
                    )
                    &&& final(self).spec_dirty() == spec_mark_dirty(
                        spec_mark_dirty(
                            old(self).spec_dirty(),
                            0,
                            0,
                            width,
                            (height - pixels) as usize,
                            width,
                            height,
                        ),
                        0,
                        (height - pixels) as usize,
                        width,
                        pixels,
                        width,
                        height,
                    )
                }
            }),
    {
        if pixels == 0 {
            return;
        }
        if pixels >= self.height {
            self.clear(color);
            return;
        }
        let width = self.width;
        let height = self.height;
        self.copy_rect(0, pixels, 0, 0, width, height - pixels);
        self.draw_rect(0, height - pixels, width, pixels, color);
    }

    /// Hand out the changed rectangle `(min_x, min_y, max_x, max_y)` for
    /// copying to the screen and forget it; `None` when nothing is to be
    /// copied.
    pub fn present(&mut self) -> (r: Option<(usize, usize, usize, usize)>)
        ensures
            final(self).pixels() == old(self).pixels(),
            final(self).spec_width() == old(self).spec_width(),
            final(self).spec_height() == old(self).spec_height(),
            final(self).spec_pitch() == old(self).spec_pitch(),
            forall|c: Color| final(self).spec_pixel(c) == old(self).spec_pixel(c),
            old(self).wf() ==> final(self).wf(),
            ({
                let d = old(self).spec_dirty();
                if !d.dirty {
                    r is None && final(self).spec_dirty() == d
                } else {
                    &&& final(self).spec_dirty() == DirtyRect { dirty: false, ..d }
                    &&& r == if d.min_x >= d.max_x || d.min_y >= d.max_y {
                        None::<(usize, usize, usize, usize)>
                    } else {
                        Some((d.min_x, d.min_y, d.max_x, d.max_y))
                    }
                }
            }),
    {
        if !self.dirty.dirty {
            return None;
        }
        let d = self.dirty;
        self.dirty = DirtyRect { dirty: false, ..d };
        if d.min_x >= d.max_x || d.min_y >= d.max_y {
            return None;
        }
        Some((d.min_x, d.min_y, d.max_x, d.max_y))
    }

    /// Mark the whole screen as changed and hand it out like [`Self::present`].
    pub fn present_full(&mut self) -> (r: Option<(usize, usize, usize, usize)>)
        requires
            old(self).wf(),
        ensures
            final(self).wf(),
            final(self).pixels() == old(self).pixels(),
            ({
                let d = spec_mark_dirty(
                    old(self).spec_dirty(),
                    0,
                    0,
                    old(self).spec_width(),
                    old(self).spec_height(),
                    old(self).spec_width(),
                    old(self).spec_height(),
                );
                &&& final(self).spec_dirty() == DirtyRect { dirty: false, ..d }
                &&& r == Some((d.min_x, d.min_y, d.max_x, d.max_y))
            }),
    {
        let width = self.width;
        let height = self.height;
        self.mark_dirty(0, 0, width, height);
        self.present()
    }

    /// Fill the rectangle `w x h` at `(x, y)`, clipped to the screen, with
    /// `color`.
    pub fn draw_rect(&mut self, x: usize, y: usize, w: usize, h: usize, color: Color)
        requires
            old(self).wf(),
        ensures
            final(self).wf(),
            (final(self).pixels(), final(self).spec_dirty()) == spec_draw_rect(
                (old(self).pixels(), old(self).spec_dirty()),
                old(self).spec_width(),
                old(self).spec_height(),
                x,
                y,
                w,
                h,
                old(self).spec_pixel(color),
            ),
            final(self).spec_width() == old(self).spec_width(),
            final(self).spec_height() == old(self).spec_height(),
            final(self).spec_pitch() == old(self).spec_pitch(),
            forall|c: Color| final(self).spec_pixel(c) == old(self).spec_pixel(c),
            ({
                let width = old(self).spec_width();
                let height = old(self).spec_height();
                let end_x = min_usize(sat_add(x, w), width);
                let end_y = min_usize(sat_add(y, h), height);
                if w == 0 || h == 0 || x >= width || y >= height {
                    final(self).pixels() == old(self).pixels() && final(self).spec_dirty() == old(
                        self,
                    ).spec_dirty()
                } else {
                    &&& final(self).pixels() == spec_fill_rect(
                        old(self).pixels(),
                        width,
                        x,
                        y,
                        end_x,
                        end_y,
                        old(self).spec_pixel(color),
                    )
                    &&& final(self).spec_dirty() == spec_mark_dirty(
                        old(self).spec_dirty(),
                        x,
                        y,
                        (end_x - x) as usize,
                        (end_y - y) as usize,
                        width,
                        height,
                    )
                }
            }),
    {
        if w == 0 || h == 0 {
            return;
        }
        if x >= self.width || y >= self.height {
            return;
        }
        let sx = x.saturating_add(w);
        let end_x = if sx <= self.width {
            sx
        } else {
            self.width
        };
        let sy = y.saturating_add(h);
        let end_y = if sy <= self.height {
            sy
        } else {
            self.height
        };
        let pixel = self.color_to_u32(color);
        let ghost before = self.back@;
        let ghost width = self.width as int;
        let mut py = y;
        while py < end_y
            invariant
                self.wf(),
                y <= py <= end_y <= self.height,
                x < end_x <= self.width,
                width == self.width,
                self.width == old(self).width,
                self.height == old(self).height,
                self.pitch == old(self).pitch,
                self.dirty == old(self).dirty,
                self.red_shift == old(self).red_shift,
                self.green_shift == old(self).green_shift,
                self.blue_shift == old(self).blue_shift,
                before == old(self).back@,
                self.back@ == spec_fill_rect(before, self.width, x, y, end_x, py, pixel),
            decreases end_y - py,
        {
            proof {
                lemma_pixel_index(x as int, py as int, width, self.height as int);
                lemma_row_start_bound(py as int, width);
            }
            let start = py * self.width + x;
            let ghost mid = self.back@;
            self.fill_span(start, end_x - x, pixel);
            proof {
                assert forall|i: int| 0 <= i < before.len() implies #[trigger] self.back@[i]
                    == spec_fill_rect(before, self.width, x, y, end_x, (py + 1) as usize, pixel)[i] by {
                    lemma_row_span(i, width, py as int, x as int, end_x as int);
                }
                assert(self.back@ =~= spec_fill_rect(
                    before,
                    self.width,
                    x,
                    y,
                    end_x,
                    (py + 1) as usize,
                    pixel,
                ));
            }
            py = py + 1;
        }
        self.mark_dirty(x, y, end_x - x, end_y - y);
    }
}

} // verus!
