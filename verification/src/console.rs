//! The text console: a grid of character cells with a cursor, and the line
//! of keyboard input being typed.
//!
//! Changes to the screen are queued as render operations; rendering them
//! draws into a framebuffer with a font.

use vstd::prelude::*;
use vstd::string::StringSliceAdditionalSpecFns;
use vstd::arithmetic::div_mod::lemma_fundamental_div_mod_converse;
use crate::fb::{Color, DirtyRect, Framebuffer, spec_draw_rect, spec_clear, spec_scroll_up};
use crate::font::{Font, spec_glyph_steps, SCALED_WIDTH, SCALED_HEIGHT};

verus! {

/// Width of a character cell in pixels.
pub const CHAR_WIDTH: usize = 8;

/// Height of a character cell in pixels.
pub const CHAR_HEIGHT: usize = 16;

/// Capacity of the input line.
pub const INPUT_SIZE: usize = 256;

/// Most columns any screen can have: 1920 pixels of 8-pixel cells.
pub const MAX_COLUMNS: usize = 240;

/// Most rows any screen can have: 1080 pixels of 16-pixel cells.
pub const MAX_ROWS: usize = 67;

/// Number of cells held: one for every position of the largest screen.
pub const CELL_COUNT: usize = 16080;

/// Distance between tab stops.
pub const TAB_SIZE: usize = 4;

/// One character cell.
#[derive(Debug, Clone, Copy, PartialEq, Eq, Structural)]
pub struct Cell {
    pub character: u8,
    pub foreground: Color,
    pub background: Color,
}

/// A blank cell: a space, white on black.
pub open spec fn empty_cell() -> Cell {
    Cell {
        character: 0x20,
        foreground: Color { r: 255, g: 255, b: 255 },
        background: Color { r: 0, g: 0, b: 0 },
    }
}

impl Cell {
    /// A blank cell: a space, white on black.
    pub fn empty() -> (c: Cell)
        ensures
            c == empty_cell(),
    {
        Cell {
            character: 0x20,
            foreground: Color::WHITE(),
            background: Color::BLACK(),
        }
    }
}

/// A change to the screen that still has to be drawn.
#[derive(Debug, Clone, Copy, PartialEq, Eq, Structural)]
pub enum RenderOp {
    /// Draw `cell` at `row`, `column`.
    Cell { row: usize, column: usize, cell: Cell },
    /// Move the screen up by one row of cells, filling the bottom with
    /// `background`.
    Scroll { background: Color },
    /// Fill the screen with `background`.
    Clear { background: Color },
}

/// The part of a console that writing text changes.
pub struct ConsoleState {
    pub cursor_x: usize,
    pub cursor_y: usize,
    pub columns: usize,
    pub rows: usize,
    pub foreground: Color,
    pub background: Color,
    pub cells: Seq<Cell>,
    pub pending: Seq<RenderOp>,
}

/// Position of the cell at `row`, `column` among the cells.
pub open spec fn cell_index(row: int, column: int) -> int {
    row * MAX_COLUMNS + column
}

/// The cells after moving rows `1..rows` up by one row (the first
/// `columns` cells of each) and blanking the last row.
pub open spec fn scrolled_cells(cells: Seq<Cell>, rows: usize, columns: usize) -> Seq<Cell> {
    Seq::new(
        cells.len(),
        |i: int|
            if i / (MAX_COLUMNS as int) == rows - 1 {
                empty_cell()
            } else if i / (MAX_COLUMNS as int) < rows - 1 && i % (MAX_COLUMNS as int) < columns {
                cells[i + MAX_COLUMNS]
            } else {
                cells[i]
            },
    )
}

/// Scrolling the console by one row.
pub open spec fn sp_scroll(s: ConsoleState) -> ConsoleState {
    if s.rows == 0 {
        s
    } else {
        ConsoleState {
            cursor_x: 0,
            cursor_y: (s.rows - 1) as usize,
            cells: scrolled_cells(s.cells, s.rows, s.columns),
            pending: s.pending.push(RenderOp::Scroll { background: s.background }),
            ..s
        }
    }
}

/// Moving to the start of the next line, scrolling at the bottom.
pub open spec fn sp_newline(s: ConsoleState) -> ConsoleState {
    let s0 = ConsoleState { cursor_x: 0, ..s };
    if s.rows == 0 {
        s0
    } else if s.cursor_y + 1 < s.rows {
        ConsoleState { cursor_y: (s.cursor_y + 1) as usize, ..s0 }
    } else {
        sp_scroll(s0)
    }
}

/// Writing a printable character at the cursor and advancing it, wrapping
/// at the right edge.
pub open spec fn sp_write_cell(s: ConsoleState, character: u8) -> ConsoleState {
    if s.columns == 0 || s.rows == 0 {
        s
    } else {
        let s1 = if s.cursor_x >= s.columns {
            sp_newline(s)
        } else {
            s
        };
        let cell = Cell { character, foreground: s1.foreground, background: s1.background };
        let s2 = ConsoleState {
            cells: s1.cells.update(cell_index(s1.cursor_y as int, s1.cursor_x as int), cell),
            pending: s1.pending.push(RenderOp::Cell { row: s1.cursor_y, column: s1.cursor_x, cell }),
            cursor_x: (s1.cursor_x + 1) as usize,
            ..s1
        };
        if s2.cursor_x >= s2.columns {
            sp_newline(s2)
        } else {
            s2
        }
    }
}

/// Erasing the character before the cursor, moving to the end of the
/// previous line at the start of a line.
pub open spec fn sp_backspace(s: ConsoleState) -> ConsoleState {
    if s.cursor_x == 0 && s.cursor_y == 0 {
        s
    } else {
        let s1 = if s.cursor_x == 0 {
            ConsoleState {
                cursor_y: (s.cursor_y - 1) as usize,
                cursor_x: if s.columns >= 1 {
                    (s.columns - 1) as usize
                } else {
                    0
                },
                ..s
            }
        } else {
            ConsoleState { cursor_x: (s.cursor_x - 1) as usize, ..s }
        };
        ConsoleState {
            cells: s1.cells.update(cell_index(s1.cursor_y as int, s1.cursor_x as int), empty_cell()),
            pending: s1.pending.push(
                RenderOp::Cell { row: s1.cursor_y, column: s1.cursor_x, cell: empty_cell() },
            ),
            ..s1
        }
    }
}

/// Handling one byte of output: newline, carriage return, tab, backspace
/// and printable characters; other bytes are ignored.
pub open spec fn sp_put_char(s: ConsoleState, character: u8) -> ConsoleState {
    if character == 0x0a {
        sp_newline(s)
    } else if character == 0x0d {
        ConsoleState { cursor_x: 0, ..s }
    } else if character == 0x09 {
        let next_tab = (s.cursor_x / TAB_SIZE + 1) * TAB_SIZE;
        if next_tab >= s.columns {
            sp_newline(s)
        } else {
            ConsoleState { cursor_x: next_tab as usize, ..s }
        }
    } else if character == 0x08 {
        sp_backspace(s)
    } else if 0x20 <= character <= 0x7e {
        sp_write_cell(s, character)
    } else {
        s
    }
}

/// Handling the first `n` bytes of `bytes` one after another.
pub open spec fn sp_write_bytes(s: ConsoleState, bytes: Seq<u8>, n: nat) -> ConsoleState
    decreases n,
{
    if n == 0 {
        s
    } else {
        sp_put_char(sp_write_bytes(s, bytes, (n - 1) as nat), bytes[n - 1])
    }
}

/// Whether a console state is consistent: the cells cover the largest
/// screen and hold printable characters, and the cursor lies on the
/// screen (or at the origin of an empty one).
pub open spec fn state_wf(s: ConsoleState) -> bool {
    &&& s.cells.len() == CELL_COUNT
    &&& s.columns <= MAX_COLUMNS
    &&& s.rows <= MAX_ROWS
    &&& s.cursor_x < s.columns || s.cursor_x == 0
    &&& s.cursor_y < s.rows || s.cursor_y == 0
    &&& forall|i: int| 0 <= i < s.cells.len() ==> 0x20 <= #[trigger] s.cells[i].character <= 0x7e
    &&& forall|i: int|
        0 <= i < s.pending.len() ==> (#[trigger] s.pending[i] matches RenderOp::Cell { cell, .. }
            ==> 0x20 <= cell.character <= 0x7e)
}

/// The backbuffer and changed rectangle after drawing `cell` at `row`,
/// `column` on the screen of `fb`: its background, then its character
/// unless it is a space.
pub open spec fn spec_draw_cell(
    fb: Framebuffer,
    st: (Seq<u32>, DirtyRect),
    font: Font,
    row: usize,
    column: usize,
    cell: Cell,
) -> (Seq<u32>, DirtyRect) {
    let x = (column * CHAR_WIDTH) as usize;
    let y = (row * CHAR_HEIGHT) as usize;
    let filled = spec_draw_rect(
        st,
        fb.spec_width(),
        fb.spec_height(),
        x,
        y,
        CHAR_WIDTH,
        CHAR_HEIGHT,
        fb.spec_pixel(cell.background),
    );
    if cell.character == 0x20 || cell.character >= font.spec_glyph_count() {
        filled
    } else {
        spec_glyph_steps(
            filled,
            fb.spec_width(),
            fb.spec_height(),
            font.spec_glyph(cell.character as int),
            x,
            y,
            fb.spec_pixel(cell.foreground),
            (SCALED_WIDTH * SCALED_HEIGHT) as nat,
        )
    }
}

/// The backbuffer and changed rectangle after carrying out `op` for a
/// console of `rows x columns` cells; cells off the console are skipped.
pub open spec fn spec_render_op(
    fb: Framebuffer,
    st: (Seq<u32>, DirtyRect),
    font: Font,
    rows: usize,
    columns: usize,
    op: RenderOp,
) -> (Seq<u32>, DirtyRect) {
    match op {
        RenderOp::Cell { row, column, cell } => if row >= rows || column >= columns {
            st
        } else {
            spec_draw_cell(fb, st, font, row, column, cell)
        },
        RenderOp::Scroll { background } => spec_scroll_up(
            st,
            fb.spec_width(),
            fb.spec_height(),
            CHAR_HEIGHT,
            fb.spec_pixel(background),
        ),
        RenderOp::Clear { background } => spec_clear(
            st,
            fb.spec_width(),
            fb.spec_height(),
            fb.spec_pixel(background),
        ),
    }
}

/// Carrying out the first `n` of `ops` in order.
pub open spec fn spec_render_ops(
    fb: Framebuffer,
    st: (Seq<u32>, DirtyRect),
    font: Font,
    rows: usize,
    columns: usize,
    ops: Seq<RenderOp>,
    n: nat,
) -> (Seq<u32>, DirtyRect)
    decreases n,
{
    if n == 0 {
        st
    } else {
        spec_render_op(
            fb,
            spec_render_ops(fb, st, font, rows, columns, ops, (n - 1) as nat),
            font,
            rows,
            columns,
            ops[n - 1],
        )
    }
}

/// Drawing the first `n` cells of row `row` from the left.
pub open spec fn spec_render_columns(
    fb: Framebuffer,
    st: (Seq<u32>, DirtyRect),
    font: Font,
    cells: Seq<Cell>,
    row: usize,
    n: nat,
) -> (Seq<u32>, DirtyRect)
    decreases n,
{
    if n == 0 {
        st
    } else {
        let column = (n - 1) as usize;
        spec_draw_cell(
            fb,
            spec_render_columns(fb, st, font, cells, row, (n - 1) as nat),
            font,
            row,
            column,
            cells[cell_index(row as int, column as int)],
        )
    }
}

/// Drawing the first `n` rows of `columns` cells from the top.
pub open spec fn spec_render_rows(
    fb: Framebuffer,
    st: (Seq<u32>, DirtyRect),
    font: Font,
    cells: Seq<Cell>,
    columns: usize,
    n: nat,
) -> (Seq<u32>, DirtyRect)
    decreases n,
{
    if n == 0 {
        st
    } else {
        spec_render_columns(
            fb,
            spec_render_rows(fb, st, font, cells, columns, (n - 1) as nat),
            font,
            cells,
            (n - 1) as usize,
            columns as nat,
        )
    }
}

/// Drawing a row depends on the framebuffer only through its size and
/// pixel format.
proof fn lemma_render_columns_screen(
    fb1: Framebuffer,
    fb2: Framebuffer,
    st: (Seq<u32>, DirtyRect),
    font: Font,
    cells: Seq<Cell>,
    row: usize,
    n: nat,
)
    requires
        fb1.spec_width() == fb2.spec_width(),
        fb1.spec_height() == fb2.spec_height(),
        forall|c: Color| fb1.spec_pixel(c) == fb2.spec_pixel(c),
    ensures
        spec_render_columns(fb1, st, font, cells, row, n) == spec_render_columns(
            fb2,
            st,
            font,
            cells,
            row,
            n,
        ),
    decreases n,
{
    if n > 0 {
        lemma_render_columns_screen(fb1, fb2, st, font, cells, row, (n - 1) as nat);
    }
}

/// The text console.
pub struct Console {
    pub cursor_x: usize,
    pub cursor_y: usize,
    pub columns: usize,
    pub rows: usize,
    pub foreground: Color,
    pub background: Color,
    pub cells: Vec<Cell>,
    pub input: [u8; INPUT_SIZE],
    pub input_len: usize,
    pub line_ready: bool,
    pub pending: Vec<RenderOp>,
}

impl Console {
    /// The part of the console that writing text changes.
    pub open spec fn state(&self) -> ConsoleState {
        ConsoleState {
            cursor_x: self.cursor_x,
            cursor_y: self.cursor_y,
            columns: self.columns,
            rows: self.rows,
            foreground: self.foreground,
            background: self.background,
            cells: self.cells@,
            pending: self.pending@,
        }
    }

    /// The console is consistent.
    pub open spec fn wf(&self) -> bool {
        state_wf(self.state()) && self.input_len <= INPUT_SIZE
    }

    /// A console for a `width x height` pixel screen: as many whole cells as
    /// fit, up to the largest screen, all blank, white on black, with the
    /// cursor at the origin and no input.
    pub fn new(width: usize, height: usize) -> (r: Self)
        ensures
            r.wf(),
            r.columns == (if width / CHAR_WIDTH <= MAX_COLUMNS {
                width / CHAR_WIDTH
            } else {
                MAX_COLUMNS
            }),
            r.rows == (if height / CHAR_HEIGHT <= MAX_ROWS {
                height / CHAR_HEIGHT
            } else {
                MAX_ROWS
            }),
            r.cursor_x == 0,
            r.cursor_y == 0,
            r.input_len == 0,
            !r.line_ready,
            r.input@ == Seq::new(INPUT_SIZE as nat, |i: int| 0u8),
            r.state().cells == Seq::new(CELL_COUNT as nat, |i: int| empty_cell()),
            r.state().pending == Seq::<RenderOp>::empty(),
            r.state().foreground == (Color { r: 255, g: 255, b: 255 }),
            r.state().background == (Color { r: 0, g: 0, b: 0 }),
    {
        let columns = if width / CHAR_WIDTH <= MAX_COLUMNS {
            width / CHAR_WIDTH
        } else {
            MAX_COLUMNS
        };
        let rows = if height / CHAR_HEIGHT <= MAX_ROWS {
            height / CHAR_HEIGHT
        } else {
            MAX_ROWS
        };
        let mut cells: Vec<Cell> = Vec::new();
        let mut i: usize = 0;
        while i < CELL_COUNT
            invariant
                i <= CELL_COUNT,
                cells@ == Seq::new(i as nat, |k: int| empty_cell()),
            decreases CELL_COUNT - i,
        {
            cells.push(Cell::empty());
            i = i + 1;
            assert(cells@ =~= Seq::new(i as nat, |k: int| empty_cell()));
        }
        let r = Console {
            cursor_x: 0,
            cursor_y: 0,
            columns,
            rows,
            foreground: Color::WHITE(),
            background: Color::BLACK(),
            cells,
            input: [0u8; INPUT_SIZE],
            input_len: 0,
            line_ready: false,
            pending: Vec::new(),
        };
        assert(r.input@ =~= Seq::new(INPUT_SIZE as nat, |i: int| 0u8));
        r
    }

    /// Store `cell` at `row`, `column`.
    fn set_cell(&mut self, row: usize, column: usize, cell: Cell)
        requires
            old(self).cells@.len() == CELL_COUNT,
            row < MAX_ROWS,
            column < MAX_COLUMNS,
        ensures
            final(self).cells@ == old(self).cells@.update(cell_index(row as int, column as int), cell),
            final(self).cursor_x == old(self).cursor_x,
            final(self).cursor_y == old(self).cursor_y,
            final(self).columns == old(self).columns,
            final(self).rows == old(self).rows,
            final(self).foreground == old(self).foreground,
            final(self).background == old(self).background,
            final(self).pending == old(self).pending,
            final(self).input == old(self).input,
            final(self).input_len == old(self).input_len,
            final(self).line_ready == old(self).line_ready,
    {
        self.cells.set(row * MAX_COLUMNS + column, cell);
    }

    /// Blank every cell of `row`; rows off the screen are left alone.
    fn clear_row(&mut self, row: usize)
        requires
            old(self).wf(),
        ensures
            final(self).wf(),
            final(self).cells@ == if row >= old(self).rows {
                old(self).cells@
            } else {
                Seq::new(
                    CELL_COUNT as nat,
                    |i: int|
                        if i / (MAX_COLUMNS as int) == row {
                            empty_cell()
                        } else {
                            old(self).cells@[i]
                        },
                )
            },
            final(self).cursor_x == old(self).cursor_x,
            final(self).cursor_y == old(self).cursor_y,
            final(self).columns == old(self).columns,
            final(self).rows == old(self).rows,
            final(self).foreground == old(self).foreground,
            final(self).background == old(self).background,
            final(self).pending == old(self).pending,
            final(self).input == old(self).input,
            final(self).input_len == old(self).input_len,
            final(self).line_ready == old(self).line_ready,
    {
        if row >= self.rows {
            return;
        }
        let ghost before = self.cells@;
        let mut column: usize = 0;
        while column < MAX_COLUMNS
            invariant
                self.wf(),
                row < self.rows <= MAX_ROWS,
                column <= MAX_COLUMNS,
                before.len() == CELL_COUNT,
                self.cursor_x == old(self).cursor_x,
                self.cursor_y == old(self).cursor_y,
                self.columns == old(self).columns,
                self.rows == old(self).rows,
                self.foreground == old(self).foreground,
                self.background == old(self).background,
                self.pending == old(self).pending,
                self.input == old(self).input,
                self.input_len == old(self).input_len,
                self.line_ready == old(self).line_ready,
                before == old(self).cells@,
                self.cells@ == Seq::new(
                    CELL_COUNT as nat,
                    |i: int|
                        if i / (MAX_COLUMNS as int) == row && i % (MAX_COLUMNS as int) < column {
                            empty_cell()
                        } else {
                            before[i]
                        },
                ),
            decreases MAX_COLUMNS - column,
        {
            self.set_cell(row, column, Cell::empty());
            column = column + 1;
            assert(self.cells@ =~= Seq::new(
                CELL_COUNT as nat,
                |i: int|
                    if i / (MAX_COLUMNS as int) == row && i % (MAX_COLUMNS as int) < column {
                        empty_cell()
                    } else {
                        before[i]
                    },
            ));
        }
        assert(self.cells@ =~= Seq::new(
            CELL_COUNT as nat,
            |i: int|
                if i / (MAX_COLUMNS as int) == row {
                    empty_cell()
                } else {
                    before[i]
                },
        ));
    }

    /// Move the cells up by one row and put the cursor at the start of the
    /// bottom row.
    fn scroll(&mut self)
        requires
            old(self).wf(),
        ensures
            final(self).wf(),
            final(self).state() == sp_scroll(old(self).state()),
            final(self).input == old(self).input,
            final(self).input_len == old(self).input_len,
            final(self).line_ready == old(self).line_ready,
    {
        if self.rows == 0 {
            return;
        }
        let background = self.background;
        self.pending.push(RenderOp::Scroll { background });
        let ghost before = self.cells@;
        let mut row: usize = 1;
        while row < self.rows
            invariant
                self.wf(),
                1 <= row <= self.rows <= MAX_ROWS,
                self.columns <= MAX_COLUMNS,
                before.len() == CELL_COUNT,
                self.cursor_x == old(self).cursor_x,
                self.cursor_y == old(self).cursor_y,
                self.columns == old(self).columns,
                self.rows == old(self).rows,
                self.foreground == old(self).foreground,
                self.background == old(self).background,
                self.pending@ == old(self).pending@.push(RenderOp::Scroll { background: self.background }),
                self.input == old(self).input,
                self.input_len == old(self).input_len,
                self.line_ready == old(self).line_ready,
                before == old(self).cells@,
                forall|i: int| 0 <= i < CELL_COUNT ==> 0x20 <= #[trigger] before[i].character <= 0x7e,
                self.cells@ == Seq::new(
                    CELL_COUNT as nat,
                    |i: int|
                        if i / (MAX_COLUMNS as int) < row - 1 && i % (MAX_COLUMNS as int)
                            < self.columns {
                            before[i + MAX_COLUMNS]
                        } else {
                            before[i]
                        },
                ),
            decreases self.rows - row,
        {
            let mut column: usize = 0;
            while column < self.columns
                invariant
                    self.wf(),
                    1 <= row < self.rows <= MAX_ROWS,
                    column <= self.columns <= MAX_COLUMNS,
                    before.len() == CELL_COUNT,
                    self.cursor_x == old(self).cursor_x,
                    self.cursor_y == old(self).cursor_y,
                    self.columns == old(self).columns,
                    self.rows == old(self).rows,
                    self.foreground == old(self).foreground,
                    self.background == old(self).background,
                    self.pending@ == old(self).pending@.push(RenderOp::Scroll { background: self.background }),
                    self.input == old(self).input,
                    self.input_len == old(self).input_len,
                    self.line_ready == old(self).line_ready,
                    forall|i: int|
                        0 <= i < CELL_COUNT ==> 0x20 <= #[trigger] before[i].character <= 0x7e,
                    self.cells@ == Seq::new(
                        CELL_COUNT as nat,
                        |i: int|
                            if (i / (MAX_COLUMNS as int) < row - 1 && i % (MAX_COLUMNS as int)
                                < self.columns) || (i / (MAX_COLUMNS as int) == row - 1 && i % (
                            MAX_COLUMNS as int) < column) {
                                before[i + MAX_COLUMNS]
                            } else {
                                before[i]
                            },
                    ),
                decreases self.columns - column,
            {
                let cell = self.cells[row * MAX_COLUMNS + column];
                assert(cell == before[row * MAX_COLUMNS + column]);
                self.set_cell(row - 1, column, cell);
                column = column + 1;
                assert(self.cells@ =~= Seq::new(
                    CELL_COUNT as nat,
                    |i: int|
                        if (i / (MAX_COLUMNS as int) < row - 1 && i % (MAX_COLUMNS as int)
                            < self.columns) || (i / (MAX_COLUMNS as int) == row - 1 && i % (
                        MAX_COLUMNS as int) < column) {
                            before[i + MAX_COLUMNS]
                        } else {
                            before[i]
                        },
                ));
            }
            row = row + 1;
            assert(self.cells@ =~= Seq::new(
                CELL_COUNT as nat,
                |i: int|
                    if i / (MAX_COLUMNS as int) < row - 1 && i % (MAX_COLUMNS as int) < self.columns {
                        before[i + MAX_COLUMNS]
                    } else {
                        before[i]
                    },
            ));
        }
        let last = self.rows - 1;
        self.clear_row(last);
        self.cursor_x = 0;
        self.cursor_y = last;
        assert(self.cells@ =~= scrolled_cells(before, self.rows, self.columns));
    }

    /// Move to the start of the next line, scrolling at the bottom.
    fn newline(&mut self)
        requires
            state_wf(ConsoleState { cursor_x: 0, ..old(self).state() }),
            old(self).input_len <= INPUT_SIZE,
        ensures
            final(self).wf(),
            final(self).state() == sp_newline(old(self).state()),
            final(self).input == old(self).input,
            final(self).input_len == old(self).input_len,
            final(self).line_ready == old(self).line_ready,
    {
        self.cursor_x = 0;
        if self.rows == 0 {
            return;
        }
        if self.cursor_y + 1 < self.rows {
            self.cursor_y = self.cursor_y + 1;
        } else {
            self.scroll();
        }
    }

    /// Write a printable character at the cursor and advance it, wrapping at
    /// the right edge.
    fn write_cell(&mut self, character: u8)
        requires
            old(self).wf(),
            0x20 <= character <= 0x7e,
        ensures
            final(self).wf(),
            final(self).state() == sp_write_cell(old(self).state(), character),
            final(self).input == old(self).input,
            final(self).input_len == old(self).input_len,
            final(self).line_ready == old(self).line_ready,
    {
        if self.columns == 0 || self.rows == 0 {
            return;
        }
        if self.cursor_x >= self.columns {
            self.newline();
        }
        let row = self.cursor_y;
        let column = self.cursor_x;
        let cell = Cell { character, foreground: self.foreground, background: self.background };
        let ghost before = self.cells@;
        self.set_cell(row, column, cell);
        self.pending.push(RenderOp::Cell { row, column, cell });
        self.cursor_x = self.cursor_x + 1;
        proof {
            assert forall|i: int| 0 <= i < self.cells@.len() implies 0x20 <= #[trigger] self.cells@[i].character
                <= 0x7e by {
                if i != cell_index(row as int, column as int) {
                    assert(self.cells@[i] == before[i]);
                }
            }
        }
        if self.cursor_x >= self.columns {
            self.newline();
        }
    }

    /// Erase the character before the cursor.
    fn backspace(&mut self)
        requires
            old(self).wf(),
        ensures
            final(self).wf(),
            final(self).state() == sp_backspace(old(self).state()),
            final(self).input == old(self).input,
            final(self).input_len == old(self).input_len,
            final(self).line_ready == old(self).line_ready,
    {
        if self.cursor_x == 0 {
            if self.cursor_y == 0 {
                return;
            }
            self.cursor_y = self.cursor_y - 1;
            self.cursor_x = self.columns.saturating_sub(1);
        } else {
            self.cursor_x = self.cursor_x - 1;
        }
        let row = self.cursor_y;
        let column = self.cursor_x;
        let ghost before = self.cells@;
        let blank = Cell::empty();
        self.set_cell(row, column, blank);
        self.pending.push(RenderOp::Cell { row, column, cell: blank });
        proof {
            assert forall|i: int| 0 <= i < self.cells@.len() implies 0x20 <= #[trigger] self.cells@[i].character
                <= 0x7e by {
                if i != cell_index(row as int, column as int) {
                    assert(self.cells@[i] == before[i]);
                }
            }
        }
    }

    /// Handle one byte of output: exactly [`sp_put_char`].
    fn put_char(&mut self, character: u8)
        requires
            old(self).wf(),
        ensures
            final(self).wf(),
            final(self).state() == sp_put_char(old(self).state(), character),
            final(self).input == old(self).input,
            final(self).input_len == old(self).input_len,
            final(self).line_ready == old(self).line_ready,
    {
        if character == 0x0a {
            self.newline();
        } else if character == 0x0d {
            self.cursor_x = 0;
        } else if character == 0x09 {
            let next_tab = (self.cursor_x / TAB_SIZE + 1) * TAB_SIZE;
            if next_tab >= self.columns {
                self.newline();
            } else {
                self.cursor_x = next_tab;
            }
        } else if character == 0x08 {
            self.backspace();
        } else if 0x20 <= character && character <= 0x7e {
            self.write_cell(character);
        }
    }

    /// Write `text` byte by byte: exactly [`sp_write_bytes`] over its UTF-8
    /// bytes.
    pub fn write_str(&mut self, text: &str)
        requires
            old(self).wf(),
        ensures
            final(self).wf(),
            final(self).state() == sp_write_bytes(
                old(self).state(),
                text.spec_bytes(),
                text.spec_bytes().len(),
            ),
            final(self).input == old(self).input,
            final(self).input_len == old(self).input_len,
            final(self).line_ready == old(self).line_ready,
    {
        let bytes = text.as_bytes();
        let mut i: usize = 0;
        while i < bytes.len()
            invariant
                self.wf(),
                i <= bytes@.len(),
                bytes@ == text.spec_bytes(),
                self.state() == sp_write_bytes(old(self).state(), bytes@, i as nat),
                self.input == old(self).input,
                self.input_len == old(self).input_len,
                self.line_ready == old(self).line_ready,
            decreases bytes.len() - i,
        {
            self.put_char(bytes[i]);
            i = i + 1;
        }
    }

    /// Blank the screen, put the cursor at the origin and drop the input.
    pub fn clear(&mut self)
        requires
            old(self).wf(),
        ensures
            final(self).wf(),
            final(self).state() == (ConsoleState {
                cursor_x: 0,
                cursor_y: 0,
                cells: Seq::new(CELL_COUNT as nat, |i: int| empty_cell()),
                pending: old(self).state().pending.push(
                    RenderOp::Clear { background: old(self).background },
                ),
                ..old(self).state()
            }),
            final(self).input == old(self).input,
            final(self).input_len == 0,
            !final(self).line_ready,
    {
        let mut i: usize = 0;
        while i < CELL_COUNT
            invariant
                self.cells@.len() == CELL_COUNT,
                i <= CELL_COUNT,
                self.cursor_x == old(self).cursor_x,
                self.cursor_y == old(self).cursor_y,
                self.columns == old(self).columns,
                self.rows == old(self).rows,
                self.foreground == old(self).foreground,
                self.background == old(self).background,
                self.pending == old(self).pending,
                self.input == old(self).input,
                self.input_len == old(self).input_len,
                self.line_ready == old(self).line_ready,
                forall|k: int| 0 <= k < i ==> #[trigger] self.cells@[k] == empty_cell(),
            decreases CELL_COUNT - i,
        {
            self.cells.set(i, Cell::empty());
            i = i + 1;
        }
        assert(self.cells@ =~= Seq::new(CELL_COUNT as nat, |i: int| empty_cell()));
        self.cursor_x = 0;
        self.cursor_y = 0;
        self.input_len = 0;
        self.line_ready = false;
        let background = self.background;
        self.pending.push(RenderOp::Clear { background });
    }

    pub fn set_foreground(&mut self, color: Color)
        ensures
            *final(self) == (Console { foreground: color, ..*old(self) }),
    {
        self.foreground = color;
    }

    pub fn set_background(&mut self, color: Color)
        ensures
            *final(self) == (Console { background: color, ..*old(self) }),
    {
        self.background = color;
    }

    pub fn get_background(&mut self) -> (r: Color)
        ensures
            r == old(self).background,
            *final(self) == *old(self),
    {
        self.background
    }

    pub fn get_foreground(&mut self) -> (r: Color)
        ensures
            r == old(self).foreground,
            *final(self) == *old(self),
    {
        self.foreground
    }

    /// Handle a key typed on the keyboard: Enter ends the line, backspace
    /// and delete erase the last typed character (never the two-character
    /// prompt), printable characters are added to the line while it has
    /// room; everything else is ignored.
    pub fn receive_key(&mut self, key: char)
        requires
            old(self).wf(),
        ensures
            final(self).wf(),
            if key == '\n' || key == '\r' {
                &&& final(self).state() == sp_put_char(old(self).state(), 0x0a)
                &&& final(self).line_ready
                &&& final(self).input == old(self).input
                &&& final(self).input_len == old(self).input_len
            } else if key == '\u{8}' || key == '\u{7f}' {
                if old(self).input_len > 0 && old(self).cursor_x > 2 {
                    &&& final(self).state() == sp_put_char(old(self).state(), 0x08)
                    &&& final(self).input_len == old(self).input_len - 1
                    &&& final(self).input == old(self).input
                    &&& final(self).line_ready == old(self).line_ready
                } else {
                    *final(self) == *old(self)
                }
            } else if 0x20 <= (key as u32) <= 0x7e && old(self).input_len < INPUT_SIZE {
                &&& final(self).state() == sp_put_char(old(self).state(), key as u8)
                &&& final(self).input@ == old(self).input@.update(
                    old(self).input_len as int,
                    key as u8,
                )
                &&& final(self).input_len == old(self).input_len + 1
                &&& final(self).line_ready == old(self).line_ready
            } else {
                *final(self) == *old(self)
            },
    {
        if key == '\n' || key == '\r' {
            self.put_char(0x0a);
            self.line_ready = true;
        } else if key == '\u{8}' || key == '\u{7f}' {
            if self.input_len > 0 && self.cursor_x > 2 {
                self.input_len = self.input_len - 1;
                self.put_char(0x08);
            }
        } else if 0x20 <= (key as u32) && (key as u32) <= 0x7e {
            if self.input_len < INPUT_SIZE {
                self.input[self.input_len] = key as u8;
                self.input_len = self.input_len + 1;
                self.put_char(key as u8);
            }
        }
    }

    /// Hand over the finished input line: copy as much of it as fits into
    /// `buffer` and start a new line. `None` while no line is finished.
    pub fn read_line(&mut self, buffer: &mut [u8]) -> (r: Option<usize>)
        requires
            old(self).line_ready ==> old(self).input_len <= INPUT_SIZE || old(buffer)@.len()
                <= INPUT_SIZE,
        ensures
            if !old(self).line_ready {
                r is None && *final(self) == *old(self) && final(buffer)@ == old(buffer)@
            } else {
                let length = if old(self).input_len <= old(buffer)@.len() {
                    old(self).input_len as int
                } else {
                    old(buffer)@.len() as int
                };
                &&& r == Some(length as usize)
                &&& final(buffer)@ == old(self).input@.subrange(0, length) + old(buffer)@.subrange(
                    length,
                    old(buffer)@.len() as int,
                )
                &&& *final(self) == (Console { input_len: 0, line_ready: false, ..*old(self) })
            },
    {
        if !self.line_ready {
            return None;
        }
        let length = if self.input_len <= buffer.len() {
            self.input_len
        } else {
            buffer.len()
        };
        let ghost before = buffer@;
        let mut i: usize = 0;
        while i < length
            invariant
                i <= length,
                length <= before.len(),
                length <= INPUT_SIZE,
                buffer@.len() == before.len(),
                buffer@ == self.input@.subrange(0, i as int) + before.subrange(
                    i as int,
                    before.len() as int,
                ),
            decreases length - i,
        {
            buffer[i] = self.input[i];
            i = i + 1;
            assert(buffer@ =~= self.input@.subrange(0, i as int) + before.subrange(
                i as int,
                before.len() as int,
            ));
        }
        self.input_len = 0;
        self.line_ready = false;
        Some(length)
    }

    /// Draw `cell` at `row`, `column`: exactly [`spec_draw_cell`].
    fn draw_cell(fb: &mut Framebuffer, font: &Font, row: usize, column: usize, cell: Cell)
        requires
            old(fb).wf(),
            font.printable_glyphs_ok(),
            row < MAX_ROWS,
            column < MAX_COLUMNS,
            0x20 <= cell.character <= 0x7e,
        ensures
            final(fb).wf(),
            final(fb).spec_width() == old(fb).spec_width(),
            final(fb).spec_height() == old(fb).spec_height(),
            final(fb).spec_pitch() == old(fb).spec_pitch(),
            forall|c: Color| final(fb).spec_pixel(c) == old(fb).spec_pixel(c),
            (final(fb).pixels(), final(fb).spec_dirty()) == spec_draw_cell(
                *old(fb),
                (old(fb).pixels(), old(fb).spec_dirty()),
                *font,
                row,
                column,
                cell,
            ),
    {
        let x = column * CHAR_WIDTH;
        let y = row * CHAR_HEIGHT;
        fb.draw_rect(x, y, CHAR_WIDTH, CHAR_HEIGHT, cell.background);
        if cell.character != 0x20 {
            proof {
                assert(font.glyph_in_file(cell.character as int));
            }
            font.draw_char(fb, x, y, cell.character, cell.foreground);
        }
    }

    /// Draw the cell at `row`, `column` as it is now; cells off the console
    /// are skipped.
    pub fn render_cell(&self, fb: &mut Framebuffer, font: &Font, row: usize, column: usize)
        requires
            self.wf(),
            old(fb).wf(),
            font.printable_glyphs_ok(),
        ensures
            final(fb).wf(),
            final(fb).spec_width() == old(fb).spec_width(),
            final(fb).spec_height() == old(fb).spec_height(),
            final(fb).spec_pitch() == old(fb).spec_pitch(),
            forall|c: Color| final(fb).spec_pixel(c) == old(fb).spec_pixel(c),
            (final(fb).pixels(), final(fb).spec_dirty()) == if row >= self.rows || column
                >= self.columns {
                (old(fb).pixels(), old(fb).spec_dirty())
            } else {
                spec_draw_cell(
                    *old(fb),
                    (old(fb).pixels(), old(fb).spec_dirty()),
                    *font,
                    row,
                    column,
                    self.cells@[cell_index(row as int, column as int)],
                )
            },
    {
        if row >= self.rows || column >= self.columns {
            return;
        }
        let cell = self.cells[row * MAX_COLUMNS + column];
        Self::draw_cell(fb, font, row, column, cell);
    }

    /// Draw one row of cells as they are now.
    pub fn render_row(&self, fb: &mut Framebuffer, font: &Font, row: usize)
        requires
            self.wf(),
            old(fb).wf(),
            font.printable_glyphs_ok(),
        ensures
            final(fb).wf(),
            final(fb).spec_width() == old(fb).spec_width(),
            final(fb).spec_height() == old(fb).spec_height(),
            final(fb).spec_pitch() == old(fb).spec_pitch(),
            forall|c: Color| final(fb).spec_pixel(c) == old(fb).spec_pixel(c),
            (final(fb).pixels(), final(fb).spec_dirty()) == if row >= self.rows {
                (old(fb).pixels(), old(fb).spec_dirty())
            } else {
                spec_render_columns(
                    *old(fb),
                    (old(fb).pixels(), old(fb).spec_dirty()),
                    *font,
                    self.cells@,
                    row,
                    self.columns as nat,
                )
            },
    {
        if row >= self.rows {
            return;
        }
        let ghost start = *fb;
        let mut column: usize = 0;
        while column < self.columns
            invariant
                self.wf(),
                fb.wf(),
                font.printable_glyphs_ok(),
                row < self.rows,
                column <= self.columns,
                fb.spec_width() == start.spec_width(),
                fb.spec_height() == start.spec_height(),
                fb.spec_pitch() == start.spec_pitch(),
                forall|c: Color| fb.spec_pixel(c) == start.spec_pixel(c),
                start == *old(fb),
                (fb.pixels(), fb.spec_dirty()) == spec_render_columns(
                    start,
                    (start.pixels(), start.spec_dirty()),
                    *font,
                    self.cells@,
                    row,
                    column as nat,
                ),
            decreases self.columns - column,
        {
            self.render_cell(fb, font, row, column);
            column = column + 1;
        }
    }

    /// Redraw the whole console: clear the screen to the background color,
    /// then draw every cell, row by row.
    pub fn render(&self, fb: &mut Framebuffer, font: &Font)
        requires
            self.wf(),
            old(fb).wf(),
            font.printable_glyphs_ok(),
        ensures
            final(fb).wf(),
            final(fb).spec_width() == old(fb).spec_width(),
            final(fb).spec_height() == old(fb).spec_height(),
            (final(fb).pixels(), final(fb).spec_dirty()) == spec_render_rows(
                *old(fb),
                spec_clear(
                    (old(fb).pixels(), old(fb).spec_dirty()),
                    old(fb).spec_width(),
                    old(fb).spec_height(),
                    old(fb).spec_pixel(self.background),
                ),
                *font,
                self.cells@,
                self.columns,
                self.rows as nat,
            ),
    {
        let ghost start = *fb;
        fb.clear(self.background);
        let mut row: usize = 0;
        while row < self.rows
            invariant
                self.wf(),
                fb.wf(),
                font.printable_glyphs_ok(),
                row <= self.rows,
                fb.spec_width() == start.spec_width(),
                fb.spec_height() == start.spec_height(),
                fb.spec_pitch() == start.spec_pitch(),
                forall|c: Color| fb.spec_pixel(c) == start.spec_pixel(c),
                start == *old(fb),
                (fb.pixels(), fb.spec_dirty()) == spec_render_rows(
                    start,
                    spec_clear(
                        (start.pixels(), start.spec_dirty()),
                        start.spec_width(),
                        start.spec_height(),
                        start.spec_pixel(self.background),
                    ),
                    *font,
                    self.cells@,
                    self.columns,
                    row as nat,
                ),
            decreases self.rows - row,
        {
            let ghost before = *fb;
            self.render_row(fb, font, row);
            proof {
                lemma_render_columns_screen(
                    before,
                    start,
                    (before.pixels(), before.spec_dirty()),
                    *font,
                    self.cells@,
                    row,
                    self.columns as nat,
                );
            }
            row = row + 1;
        }
    }

    /// Carry out the queued changes to the screen, in order, and forget
    /// them.
    pub fn render_pending(&mut self, fb: &mut Framebuffer, font: &Font)
        requires
            old(self).wf(),
            old(fb).wf(),
            font.printable_glyphs_ok(),
        ensures
            final(self).wf(),
            *final(self) == (Console { pending: final(self).pending, ..*old(self) }),
            final(self).pending@ == Seq::<RenderOp>::empty(),
            final(fb).wf(),
            final(fb).spec_width() == old(fb).spec_width(),
            final(fb).spec_height() == old(fb).spec_height(),
            (final(fb).pixels(), final(fb).spec_dirty()) == spec_render_ops(
                *old(fb),
                (old(fb).pixels(), old(fb).spec_dirty()),
                *font,
                old(self).rows,
                old(self).columns,
                old(self).pending@,
                old(self).pending@.len(),
            ),
    {
        let ghost start = *fb;
        let mut i: usize = 0;
        while i < self.pending.len()
            invariant
                self.wf(),
                *self == *old(self),
                fb.wf(),
                font.printable_glyphs_ok(),
                i <= self.pending@.len(),
                fb.spec_width() == start.spec_width(),
                fb.spec_height() == start.spec_height(),
                fb.spec_pitch() == start.spec_pitch(),
                forall|c: Color| fb.spec_pixel(c) == start.spec_pixel(c),
                start == *old(fb),
                (fb.pixels(), fb.spec_dirty()) == spec_render_ops(
                    start,
                    (start.pixels(), start.spec_dirty()),
                    *font,
                    self.rows,
                    self.columns,
                    self.pending@,
                    i as nat,
                ),
            decreases self.pending.len() - i,
        {
            let op = self.pending[i];
            match op {
                RenderOp::Cell { row, column, cell } => {
                    if row < self.rows && column < self.columns {
                        proof {
                            assert(self.state().pending[i as int] == op);
                        }
                        Self::draw_cell(fb, font, row, column, cell);
                    }
                },
                RenderOp::Scroll { background } => {
                    fb.scroll_up(CHAR_HEIGHT, background);
                },
                RenderOp::Clear { background } => {
                    fb.clear(background);
                },
            }
            i = i + 1;
        }
        self.pending = Vec::new();
    }

    /// Show the shell prompt: `> `.
    pub fn show_prompt(&mut self)
        requires
            old(self).wf(),
        ensures
            final(self).wf(),
            final(self).state() == sp_put_char(sp_put_char(old(self).state(), 0x3e), 0x20),
            final(self).input == old(self).input,
            final(self).input_len == old(self).input_len,
            final(self).line_ready == old(self).line_ready,
    {
        self.put_char(0x3e);
        self.put_char(0x20);
    }
}

/// Handle a key typed at the shell: Enter finishes the line and hands it
/// back, to be run as a command before the prompt is shown again; any other
/// key is handled by [`Console::receive_key`].
pub fn receive_key(console: &mut Console, key: char) -> (r: Option<Vec<u8>>)
    requires
        old(console).wf(),
    ensures
        final(console).wf(),
        if key == '\n' || key == '\r' {
            &&& r matches Some(line) && line@ == old(console).input@.subrange(
                0,
                old(console).input_len as int,
            )
            &&& final(console).state() == sp_put_char(old(console).state(), 0x0a)
            &&& final(console).input == old(console).input
            &&& final(console).input_len == 0
            &&& !final(console).line_ready
        } else {
            r is None
        },
{
    if key == '\n' || key == '\r' {
        console.receive_key(key);
        let mut command_buffer = [0u8; INPUT_SIZE];
        let length = console.read_line(&mut command_buffer);
        match length {
            Some(length) => {
                let mut line: Vec<u8> = Vec::new();
                let mut i: usize = 0;
                while i < length
                    invariant
                        i <= length <= INPUT_SIZE,
                        line@ == command_buffer@.subrange(0, i as int),
                    decreases length - i,
                {
                    line.push(command_buffer[i]);
                    i = i + 1;
                    assert(line@ =~= command_buffer@.subrange(0, i as int));
                }
                Some(line)
            },
            None => None,
        }
    } else {
        console.receive_key(key);
        None
    }
}

/// Hand over the console's finished input line, like [`Console::read_line`].
pub fn read_line(console: &mut Console, buffer: &mut [u8]) -> (r: Option<usize>)
    requires
        old(console).wf(),
    ensures
        final(console).wf(),
        if !old(console).line_ready {
            r is None && *final(console) == *old(console) && final(buffer)@ == old(buffer)@
        } else {
            let length = if old(console).input_len <= old(buffer)@.len() {
                old(console).input_len as int
            } else {
                old(buffer)@.len() as int
            };
            &&& r == Some(length as usize)
            &&& final(buffer)@ == old(console).input@.subrange(0, length) + old(buffer)@.subrange(
                length,
                old(buffer)@.len() as int,
            )
            &&& *final(console) == (Console { input_len: 0, line_ready: false, ..*old(console) })
        },
{
    console.read_line(buffer)
}

/// Clear the console, like [`Console::clear`].
pub fn clear(console: &mut Console)
    requires
        old(console).wf(),
    ensures
        final(console).wf(),
        final(console).state() == (ConsoleState {
            cursor_x: 0,
            cursor_y: 0,
            cells: Seq::new(CELL_COUNT as nat, |i: int| empty_cell()),
            pending: old(console).state().pending.push(
                RenderOp::Clear { background: old(console).background },
            ),
            ..old(console).state()
        }),
        final(console).input_len == 0,
        !final(console).line_ready,
{
    console.clear()
}

/// Cell `(row, column)` lies in row `row`, at column `column`, and the cell
/// below it is one full row further on.
proof fn lemma_cell_position(row: int, column: int)
    requires
        0 <= row,
        0 <= column < MAX_COLUMNS,
    ensures
        cell_index(row, column) / (MAX_COLUMNS as int) == row,
        cell_index(row, column) % (MAX_COLUMNS as int) == column,
        cell_index(row, column) + MAX_COLUMNS == cell_index(row + 1, column),
{
    lemma_fundamental_div_mod_converse(cell_index(row, column), MAX_COLUMNS as int, row, column);
}

/// A new line from the bottom row scrolls the screen: every row above the
/// bottom one now holds, in its first `columns` cells, what the row below
/// it held; every cell of the bottom row is blank; and the cursor is at the
/// start of the bottom row.
pub proof fn law_newline_at_bottom_scrolls(s: ConsoleState)
    requires
        s.cells.len() == CELL_COUNT,
        0 < s.rows <= MAX_ROWS,
        s.columns <= MAX_COLUMNS,
        s.cursor_y + 1 >= s.rows,
    ensures
        ({
            let t = sp_newline(s);
            &&& t.cursor_x == 0
            &&& t.cursor_y == s.rows - 1
            &&& t.rows == s.rows && t.columns == s.columns
            &&& t.cells.len() == s.cells.len()
            &&& forall|c: int| 0 <= c < MAX_COLUMNS ==> #[trigger] t.cells[cell_index(s.rows - 1, c)] == empty_cell()
            &&& forall|r: int, c: int|
                0 <= r < s.rows - 1 && 0 <= c < s.columns ==> #[trigger] t.cells[cell_index(r, c)]
                    == s.cells[cell_index(r + 1, c)]
        }),
{
    let t = sp_newline(s);
    assert forall|c: int| 0 <= c < MAX_COLUMNS implies #[trigger] t.cells[cell_index(s.rows - 1, c)]
        == empty_cell() by {
        lemma_cell_position(s.rows - 1, c);
    }
    assert forall|r: int, c: int| 0 <= r < s.rows - 1 && 0 <= c < s.columns implies #[trigger] t.cells[cell_index(
        r,
        c,
    )] == s.cells[cell_index(r + 1, c)] by {
        lemma_cell_position(r, c);
    }
}

/// The cells cover the largest screen and the cursor lies on the screen
/// (or at the origin of an empty one).
pub open spec fn screen_shape(s: ConsoleState) -> bool {
    &&& s.cells.len() == CELL_COUNT
    &&& s.columns <= MAX_COLUMNS
    &&& s.rows <= MAX_ROWS
    &&& s.cursor_x < s.columns || s.cursor_x == 0
    &&& s.cursor_y < s.rows || s.cursor_y == 0
}

/// Handling one byte keeps the screen's size and shape.
proof fn lemma_put_char_shape(s: ConsoleState, character: u8)
    requires
        screen_shape(s),
    ensures
        sp_put_char(s, character).rows == s.rows,
        sp_put_char(s, character).columns == s.columns,
        screen_shape(sp_put_char(s, character)),
{
    if s.rows > 0 && s.columns > 0 {
        let s1 = if s.cursor_x >= s.columns {
            sp_newline(s)
        } else {
            s
        };
        assert(cell_index(s1.cursor_y as int, s1.cursor_x as int) < CELL_COUNT);
    }
    if s.cursor_x == 0 && s.cursor_y > 0 {
        assert(cell_index((s.cursor_y - 1) as int, (s.columns - 1) as int) < CELL_COUNT);
    }
}

/// Writing bytes keeps the screen's size and shape.
proof fn lemma_write_bytes_shape(s: ConsoleState, bytes: Seq<u8>, n: nat)
    requires
        screen_shape(s),
    ensures
        sp_write_bytes(s, bytes, n).rows == s.rows,
        sp_write_bytes(s, bytes, n).columns == s.columns,
        screen_shape(sp_write_bytes(s, bytes, n)),
    decreases n,
{
    if n > 0 {
        lemma_write_bytes_shape(s, bytes, (n - 1) as nat);
        lemma_put_char_shape(sp_write_bytes(s, bytes, (n - 1) as nat), bytes[n - 1]);
    }
}

/// Writing a newline while the cursor is on the bottom row, whatever was
/// written before it, leaves every cell of the bottom row blank.
pub proof fn law_write_newline_at_bottom(s: ConsoleState, bytes: Seq<u8>, n: nat)
    requires
        screen_shape(s),
        0 < s.rows,
        0 < n <= bytes.len(),
        bytes[n - 1] == 0x0a,
        sp_write_bytes(s, bytes, (n - 1) as nat).cursor_y + 1 >= s.rows,
    ensures
        forall|c: int|
            0 <= c < MAX_COLUMNS ==> #[trigger] sp_write_bytes(s, bytes, n).cells[cell_index(s.rows - 1, c)]
                == empty_cell(),
{
    let before = sp_write_bytes(s, bytes, (n - 1) as nat);
    lemma_write_bytes_shape(s, bytes, (n - 1) as nat);
    law_newline_at_bottom_scrolls(before);
}

} // verus!
