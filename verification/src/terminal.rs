//! Character cells for a terminal, drawing into a cell grid, and planning the
//! terminal commands that show a grid.

use vstd::prelude::*;
use crate::buffer::{ScreenBuffer2D, buffer_wf, cell_index, lemma_index_of_cell, lemma_index_roundtrip};

verus! {

/// A terminal colour: one of the named colours, the terminal's own default (`Reset`),
/// a 24-bit colour or an entry of the 256-colour palette.
#[derive(Clone, Copy, PartialEq, Eq, Structural, Debug)]
pub enum Color {
    Reset,
    Black,
    DarkGrey,
    Red,
    DarkRed,
    Green,
    DarkGreen,
    Yellow,
    DarkYellow,
    Blue,
    DarkBlue,
    Magenta,
    DarkMagenta,
    Cyan,
    DarkCyan,
    White,
    Grey,
    Rgb { r: u8, g: u8, b: u8 },
    AnsiValue(u8),
}

/// Foreground and background colour of a cell.
#[derive(Clone, Copy, PartialEq, Eq, Structural, Debug)]
pub struct CellStyle {
    pub fg: Color,
    pub bg: Color,
}

/// One character cell of the terminal.
#[derive(Clone, Copy, PartialEq, Eq, Structural, Debug)]
pub struct Cell {
    pub ch: char,
    pub style: CellStyle,
}

/// The default style: white on the terminal's own background.
pub open spec fn default_style() -> CellStyle {
    CellStyle { fg: Color::White, bg: Color::Reset }
}

/// The default cell: a blank in the default style.
pub open spec fn default_cell() -> Cell {
    Cell { ch: ' ', style: default_style() }
}

impl Default for CellStyle {
    fn default() -> (r: Self)
        ensures
            r == default_style(),
    {
        CellStyle { fg: Color::White, bg: Color::Reset }
    }
}

impl Default for Cell {
    fn default() -> (r: Self)
        ensures
            r == default_cell(),
    {
        Cell { ch: ' ', style: CellStyle::default() }
    }
}

/// A terminal screen: a grid of cells and the operations that draw into it.
pub struct ConsoleRenderingContext2D {
    buf: ScreenBuffer2D<Cell>,
}

impl std::ops::Deref for ConsoleRenderingContext2D {
    type Target = ScreenBuffer2D<Cell>;

    fn deref(&self) -> (r: &ScreenBuffer2D<Cell>)
        ensures
            *r == self.grid(),
    {
        &self.buf
    }
}

impl std::ops::DerefMut for ConsoleRenderingContext2D {
    fn deref_mut(&mut self) -> (r: &mut ScreenBuffer2D<Cell>)
        ensures
            *r == old(self).grid(),
            final(self).grid() == *final(r),
    {
        &mut self.buf
    }
}

impl ConsoleRenderingContext2D {
    /// The cell grid behind the screen.
    pub closed spec fn grid(&self) -> ScreenBuffer2D<Cell> {
        self.buf
    }

    /// A `width` by `height` screen of default cells.
    pub fn new(width: usize, height: usize) -> (r: Self)
        requires
            width * height <= usize::MAX,
        ensures
            r.grid().width == width,
            r.grid().height == height,
            buffer_wf(&r.grid()),
            r.grid().back@ == Seq::new((width * height) as nat, |i: int| default_cell()),
            r.grid().front@ == Seq::new((width * height) as nat, |i: int| default_cell()),
    {
        Self { buf: ScreenBuffer2D::new(width, height) }
    }
    /// Writes the characters of `s` in `style` along row `y`, starting at column `x`;
    /// characters falling outside the screen are dropped.
    pub fn put_str(&mut self, s: &str, style: CellStyle, x: u16, y: u16)
        requires
            buffer_wf(&old(self).grid()),
            x + s@.len() <= usize::MAX,
        ensures
            buffer_wf(&final(self).grid()),
            final(self).grid().width == old(self).grid().width,
            final(self).grid().height == old(self).grid().height,
            final(self).grid().front@ == old(self).grid().front@,
            final(self).grid().back@ == text_painted(old(self).grid().back@, old(self).grid().width as int, s@, style, x as int, y as int),
    {
        let ghost w = self.buf.width as int;
        let ghost h = self.buf.height as int;
        let ghost base = self.buf.back@;
        let mut i: usize = 0;
        proof {
            assert(text_painted(base, w, s@.take(0), style, x as int, y as int) =~= base);
        }
        for ch in it: s.chars()
            invariant
                buffer_wf(&self.buf),
                self.buf.width == w,
                self.buf.height == h,
                self.buf.front@ == old(self).grid().front@,
                base == old(self).grid().back@,
                base.len() == w * h,
                w == old(self).grid().width,
                h == old(self).grid().height,
                i == it.index(),
                it.seq() == s@,
                x + s@.len() <= usize::MAX,
                self.buf.back@ == text_painted(base, w, s@.take(i as int), style, x as int, y as int),
        {
            proof {
                lemma_text_one_more(base, w, h, s@, i as int, style, x as int, y as int);
            }
            self.buf.put(Cell { ch, style }, (x as usize) + i, y as usize);
            i = i + 1;
        }
        proof {
            assert(s@.take(i as int) =~= s@);
        }
    }

    /// Changes the screen to `width` by `height` default cells.
    pub fn resize(&mut self, width: usize, height: usize)
        requires
            width * height <= usize::MAX,
        ensures
            final(self).grid().width == width,
            final(self).grid().height == height,
            buffer_wf(&final(self).grid()),
            final(self).grid().back@ == Seq::new((width * height) as nat, |i: int| default_cell()),
            final(self).grid().front@ == Seq::new((width * height) as nat, |i: int| default_cell()),
    {
        self.buf.resize(width, height);
    }
    /// 24-bit terminal colour of an RGBA pixel; alpha is dropped.
    fn to_color(c: [u8; 4]) -> (r: Color)
        ensures
            r == pixel_color(c),
    {
        Color::Rgb { r: c[0], g: c[1], b: c[2] }
    }

    /// Shows a frame of `fb_width` by `fb_height` RGBA pixels (row-major in `fb_color`)
    /// at the top-left of the screen, two pixel rows per cell row: each cell takes the
    /// upper pixel as foreground and the lower as background, drawn as a full block when
    /// both are the same and as an upper half block otherwise. Cells beyond the frame or
    /// the screen are left as they are.
    pub fn blit_frame_buffer(&mut self, fb_width: u32, fb_height: u32, fb_color: &Vec<[u8; 4]>)
        requires
            buffer_wf(&old(self).grid()),
            fb_color@.len() == fb_width * fb_height,
            fb_width * fb_height <= u32::MAX,
        ensures
            buffer_wf(&final(self).grid()),
            final(self).grid().width == old(self).grid().width,
            final(self).grid().height == old(self).grid().height,
            final(self).grid().front@ == old(self).grid().front@,
            final(self).grid().back@ == blit_painted(
                old(self).grid().back@,
                old(self).grid().width as int,
                fb_width as int,
                fb_color@,
                blit_cols(old(self).grid().width as int, fb_width as int),
                blit_rows(old(self).grid().height as int, fb_height as int),
                blit_rows(old(self).grid().height as int, fb_height as int),
                0,
            ),
    {
        let ghost w = self.buf.width as int;
        let ghost h = self.buf.height as int;
        let ghost base = self.buf.back@;
        let ghost fb = fb_color@;
        let cols = if self.buf.width() < fb_width as usize { self.buf.width() } else { fb_width as usize };
        let rows = if self.buf.height() < (fb_height / 2) as usize { self.buf.height() } else { (fb_height / 2) as usize };
        proof {
            assert(blit_painted(base, w, fb_width as int, fb, cols as int, rows as int, 0, 0) =~= base);
        }
        let mut y: usize = 0;
        while y < rows
            invariant
                buffer_wf(&self.buf),
                self.buf.width == w,
                self.buf.height == h,
                self.buf.front@ == old(self).grid().front@,
                base == old(self).grid().back@,
                base.len() == w * h,
                w == old(self).grid().width,
                h == old(self).grid().height,
                fb == fb_color@,
                fb.len() == fb_width * fb_height,
                fb_width * fb_height <= u32::MAX,
                cols == blit_cols(w, fb_width as int),
                rows == blit_rows(h, fb_height as int),
                y <= rows,
                self.buf.back@ == blit_painted(base, w, fb_width as int, fb, cols as int, rows as int, y as int, 0),
            decreases rows - y,
        {
            let mut x: usize = 0;
            while x < cols
                invariant
                    buffer_wf(&self.buf),
                    self.buf.width == w,
                    self.buf.height == h,
                    self.buf.front@ == old(self).grid().front@,
                    base == old(self).grid().back@,
                    base.len() == w * h,
                    fb == fb_color@,
                    fb.len() == fb_width * fb_height,
                    fb_width * fb_height <= u32::MAX,
                    cols == blit_cols(w, fb_width as int),
                    rows == blit_rows(h, fb_height as int),
                    y < rows,
                    x <= cols,
                    self.buf.back@ == blit_painted(base, w, fb_width as int, fb, cols as int, rows as int, y as int, x as int),
                decreases cols - x,
            {
                proof {
                    lemma_blit_pixel_indices(fb_width as int, fb_height as int, x as int, y as int);
                }
                let top_idx = ((y as u32) * 2 * fb_width + (x as u32)) as usize;
                let bot_idx = (((y as u32) * 2 + 1) * fb_width + (x as u32)) as usize;
                let top = fb_color[top_idx];
                let bot = fb_color[bot_idx];
                let ch = if top[0] == bot[0] && top[1] == bot[1] && top[2] == bot[2] && top[3] == bot[3] {
                    '\u{2588}'
                } else {
                    '\u{2580}'
                };
                proof {
                    lemma_blit_one_more(base, w, h, fb_width as int, fb, cols as int, rows as int, y as int, x as int);
                }
                self.buf.put(
                    Cell {
                        ch,
                        style: CellStyle {
                            fg: ConsoleRenderingContext2D::to_color(top),
                            bg: ConsoleRenderingContext2D::to_color(bot),
                        },
                    },
                    x,
                    y,
                );
                x = x + 1;
            }
            proof {
                let a = blit_painted(base, w, fb_width as int, fb, cols as int, rows as int, y as int, cols as int);
                let b = blit_painted(base, w, fb_width as int, fb, cols as int, rows as int, y + 1, 0);
                assert(a.len() == base.len());
                assert(b.len() == base.len());
                assert forall|i: int| 0 <= i < a.len() implies a[i] == b[i] by {
                    if w > 0 {
                        lemma_index_roundtrip(w, h, i);
                    } else {
                        assert(w * h == 0) by (nonlinear_arith) requires w == 0;
                    }
                    let ca = i % w < cols && i / w < rows && (i / w < y || (i / w == y && i % w < cols));
                    let cb = i % w < cols && i / w < rows && (i / w < y + 1 || (i / w == y + 1 && i % w < 0));
                    assert(ca == cb);
                }
                assert(a =~= b);
            }
            y = y + 1;
        }
    }
    /// The commands that show the screen's cells on a terminal, row by row from the top
    /// left: each cell is printed after a cursor move when the cursor is not already
    /// there, and after a colour change when its colour is not already current.
    pub fn present(&self) -> (r: Vec<TermCommand>)
        requires
            buffer_wf(&self.grid()),
        ensures
            r@ == present_plan(self.grid().back@, self.grid().width as int),
    {
        let w = self.buf.width;
        let h = self.buf.height;
        let ghost cells = self.buf.back@;
        let mut cmds: Vec<TermCommand> = Vec::new();
        let mut last_fg: Option<Color> = None;
        let mut last_bg: Option<Color> = None;
        let mut cursor: Option<(usize, usize)> = None;
        let mut y: usize = 0;
        proof {
            assert(cmds@ + plan_from(cells, w as int, 0, None, None, None) =~= present_plan(cells, w as int));
        }
        while y < h
            invariant
                buffer_wf(&self.buf),
                w == self.buf.width,
                h == self.buf.height,
                cells == self.buf.back@,
                y <= h,
                cmds@ + plan_from(cells, w as int, y * w, pos_of(cursor), last_fg, last_bg) == present_plan(cells, w as int),
            decreases h - y,
        {
            let mut x: usize = 0;
            assert(y * w + 0 == y * w);
            while x < w
                invariant
                    buffer_wf(&self.buf),
                    w == self.buf.width,
                    h == self.buf.height,
                    cells == self.buf.back@,
                    y < h,
                    x <= w,
                    cmds@ + plan_from(cells, w as int, y * w + x, pos_of(cursor), last_fg, last_bg) == present_plan(cells, w as int),
                decreases w - x,
            {
                proof {
                    lemma_index_of_cell(w as int, h as int, x as int, y as int);
                }
                let i = y * w + x;
                let cell = self.buf.back[i];
                let ghost before = cmds@;
                let ghost k = i as int;
                proof {
                    assert(plan_from(cells, w as int, k, pos_of(cursor), last_fg, last_bg)
                        == cell_commands(cell, x as int, y as int, pos_of(cursor), last_fg, last_bg) + plan_from(
                            cells,
                            w as int,
                            k + 1,
                            Some((x + 1, y as int)),
                            Some(cell.style.fg),
                            Some(cell.style.bg),
                        ));
                }
                let at_cursor = match cursor {
                    Some((cx, cy)) => cx == x && cy == y,
                    None => false,
                };
                if !at_cursor {
                    cmds.push(TermCommand::MoveTo(x, y));
                }
                let fg_current = match last_fg {
                    Some(f) => f == cell.style.fg,
                    None => false,
                };
                if !fg_current {
                    cmds.push(TermCommand::SetForeground(cell.style.fg));
                }
                let bg_current = match last_bg {
                    Some(b) => b == cell.style.bg,
                    None => false,
                };
                if !bg_current {
                    cmds.push(TermCommand::SetBackground(cell.style.bg));
                }
                cmds.push(TermCommand::Print(cell.ch));
                proof {
                    assert(cmds@ =~= before + cell_commands(cell, x as int, y as int, pos_of(cursor), last_fg, last_bg));
                }
                cursor = Some((x + 1, y));
                last_fg = Some(cell.style.fg);
                last_bg = Some(cell.style.bg);
                x = x + 1;
                proof {
                    assert(y * w + x == k + 1);
                }
            }
            proof {
                assert(y * w + w == (y + 1) * w) by (nonlinear_arith);
            }
            y = y + 1;
        }
        proof {
            assert(h * w == w * h) by (nonlinear_arith);
            assert(plan_from(cells, w as int, y * w, pos_of(cursor), last_fg, last_bg) =~= Seq::<TermCommand>::empty());
            assert(cmds@ + Seq::<TermCommand>::empty() =~= cmds@);
        }
        cmds
    }
}

/// A cursor position held as machine integers, as mathematical integers.
pub open spec fn pos_of(c: Option<(usize, usize)>) -> Option<(int, int)> {
    match c {
        Some(p) => Some((p.0 as int, p.1 as int)),
        None => None,
    }
}

/// 24-bit terminal colour of an RGBA pixel.
pub open spec fn pixel_color(c: [u8; 4]) -> Color {
    Color::Rgb { r: c[0], g: c[1], b: c[2] }
}

/// The cell standing for an upper pixel `top` over a lower pixel `bot`.
pub open spec fn half_block_cell(top: [u8; 4], bot: [u8; 4]) -> Cell {
    Cell {
        ch: if top[0] == bot[0] && top[1] == bot[1] && top[2] == bot[2] && top[3] == bot[3] {
            '\u{2588}'
        } else {
            '\u{2580}'
        },
        style: CellStyle { fg: pixel_color(top), bg: pixel_color(bot) },
    }
}

/// Columns of the screen that a frame `fbw` pixels wide covers.
pub open spec fn blit_cols(w: int, fbw: int) -> int {
    if w < fbw { w } else { fbw }
}

/// Rows of the screen that a frame `fbh` pixels high covers, two pixels per row.
pub open spec fn blit_rows(h: int, fbh: int) -> int {
    if h < fbh / 2 { h } else { fbh / 2 }
}

/// The cell for column `x`, row `y` of the screen from frame `fb`, `fbw` pixels wide.
pub open spec fn blit_cell(fb: Seq<[u8; 4]>, fbw: int, x: int, y: int) -> Cell {
    half_block_cell(fb[2 * y * fbw + x], fb[(2 * y + 1) * fbw + x])
}

/// `buf` with the frame drawn into the `cols` by `rows` corner, up to (but excluding)
/// column `col` of row `row`, row by row.
pub open spec fn blit_painted(
    buf: Seq<Cell>,
    w: int,
    fbw: int,
    fb: Seq<[u8; 4]>,
    cols: int,
    rows: int,
    row: int,
    col: int,
) -> Seq<Cell> {
    Seq::new(
        buf.len(),
        |i: int|
            if i % w < cols && i / w < rows && (i / w < row || (i / w == row && i % w < col)) {
                blit_cell(fb, fbw, i % w, i / w)
            } else {
                buf[i]
            },
    )
}

proof fn lemma_blit_pixel_indices(fbw: int, fbh: int, x: int, y: int)
    requires
        0 <= x < fbw,
        0 <= y < fbh / 2,
        fbw * fbh <= u32::MAX,
        fbh <= u32::MAX,
    ensures
        y * 2 * fbw + x == 2 * y * fbw + x,
        0 <= y * 2 <= u32::MAX,
        0 <= y * 2 * fbw <= u32::MAX,
        0 <= 2 * y * fbw + x < fbw * fbh,
        0 <= y * 2 + 1 <= u32::MAX,
        0 <= (y * 2 + 1) * fbw <= u32::MAX,
        0 <= (2 * y + 1) * fbw + x < fbw * fbh,
{
    assert(2 * y + 2 <= fbh) by (nonlinear_arith)
        requires 0 <= y < fbh / 2;
    assert((2 * y + 1) * fbw + x < fbw * fbh) by (nonlinear_arith)
        requires 2 * y + 2 <= fbh, 0 <= x < fbw, y >= 0;
    assert(0 <= 2 * y * fbw) by (nonlinear_arith)
        requires y >= 0, fbw >= 0;
    assert(y * 2 * fbw == 2 * y * fbw) by (nonlinear_arith);
    assert(2 * y * fbw <= (2 * y + 1) * fbw) by (nonlinear_arith)
        requires fbw >= 0, y >= 0;
    assert(fbh >= 1);
    assert(fbw <= fbw * fbh) by (nonlinear_arith)
        requires fbh >= 1, fbw >= 0;
}

proof fn lemma_blit_one_more(
    buf: Seq<Cell>,
    w: int,
    h: int,
    fbw: int,
    fb: Seq<[u8; 4]>,
    cols: int,
    rows: int,
    row: int,
    col: int,
)
    requires
        buf.len() == w * h,
        0 <= row < rows <= h,
        0 <= col < cols <= w,
    ensures
        blit_painted(buf, w, fbw, fb, cols, rows, row, col + 1) == blit_painted(buf, w, fbw, fb, cols, rows, row, col).update(
            cell_index(w, col, row),
            blit_cell(fb, fbw, col, row),
        ),
{
    let lhs = blit_painted(buf, w, fbw, fb, cols, rows, row, col + 1);
    let base = blit_painted(buf, w, fbw, fb, cols, rows, row, col);
    lemma_index_of_cell(w, h, col, row);
    let rhs = base.update(cell_index(w, col, row), blit_cell(fb, fbw, col, row));
    assert forall|i: int| 0 <= i < lhs.len() implies lhs[i] == rhs[i] by {
        lemma_index_roundtrip(w, h, i);
        if i == cell_index(w, col, row) {
        } else {
            assert(!(i % w == col && i / w == row));
        }
    }
    assert(lhs =~= rhs);
}

/// The cell showing character `j` of `text` in `style`.
pub open spec fn text_cell(text: Seq<char>, j: int, style: CellStyle) -> Cell {
    Cell { ch: text[j], style }
}

/// `buf` with the characters of `text` written in `style` along row `y` from column `x`.
pub open spec fn text_painted(buf: Seq<Cell>, w: int, text: Seq<char>, style: CellStyle, x: int, y: int) -> Seq<Cell> {
    Seq::new(
        buf.len(),
        |i: int|
            if i / w == y && x <= i % w < x + text.len() {
                text_cell(text, i % w - x, style)
            } else {
                buf[i]
            },
    )
}

/// Writing text changes exactly the cells of row `y` from column `x` on that
/// the text reaches: the cell at column `cx` of that row shows character
/// `cx - x` of the text in the given style, and every other cell of the grid
/// keeps what it held.
pub proof fn lemma_put_str_changes_only_its_cells(
    buf: Seq<Cell>,
    w: int,
    h: int,
    text: Seq<char>,
    style: CellStyle,
    x: int,
    y: int,
)
    requires
        w > 0,
        h >= 0,
        buf.len() == w * h,
    ensures
        text_painted(buf, w, text, style, x, y).len() == buf.len(),
        forall|cx: int, cy: int|
            #![trigger text_painted(buf, w, text, style, x, y)[cell_index(w, cx, cy)]]
            0 <= cx < w && 0 <= cy < h ==> text_painted(buf, w, text, style, x, y)[cell_index(w, cx, cy)] == (
            if cy == y && x <= cx < x + text.len() {
                Cell { ch: text[cx - x], style: style }
            } else {
                buf[cell_index(w, cx, cy)]
            }),
{
    assert forall|cx: int, cy: int|
        0 <= cx < w && 0 <= cy < h implies #[trigger] text_painted(buf, w, text, style, x, y)[cell_index(w, cx, cy)]
        == (if cy == y && x <= cx < x + text.len() {
            Cell { ch: text[cx - x], style: style }
        } else {
            buf[cell_index(w, cx, cy)]
        }) by {
        lemma_index_of_cell(w, h, cx, cy);
    }
}

/// Drawing a frame buffer sets each cell of the covered corner (as many
/// columns as both are wide, as many rows as the frame has pixel pairs) from
/// the frame's pixel pair at that column: the upper pixel `2 * cy`, the lower
/// `2 * cy + 1`. The foreground shows the upper pixel and the background the
/// lower; the character is a full block exactly when the two pixels agree in
/// all four bytes, and an upper half block otherwise. Every other cell keeps
/// what it held.
pub proof fn lemma_blit_shows_pixel_pairs(buf: Seq<Cell>, w: int, h: int, fbw: int, fbh: int, fb: Seq<[u8; 4]>)
    requires
        w > 0,
        h >= 0,
        buf.len() == w * h,
    ensures
        ({
            let cols = blit_cols(w, fbw);
            let rows = blit_rows(h, fbh);
            let out = blit_painted(buf, w, fbw, fb, cols, rows, rows, 0);
            &&& out.len() == buf.len()
            &&& cols == (if w < fbw { w } else { fbw })
            &&& rows == (if h < fbh / 2 { h } else { fbh / 2 })
            &&& forall|cx: int, cy: int|
                #![trigger out[cell_index(w, cx, cy)]]
                0 <= cx < w && 0 <= cy < h ==> out[cell_index(w, cx, cy)] == (if cx < cols && cy < rows {
                    Cell {
                        ch: if fb[2 * cy * fbw + cx]@ == fb[(2 * cy + 1) * fbw + cx]@ {
                            '\u{2588}'
                        } else {
                            '\u{2580}'
                        },
                        style: CellStyle {
                            fg: Color::Rgb {
                                r: fb[2 * cy * fbw + cx][0],
                                g: fb[2 * cy * fbw + cx][1],
                                b: fb[2 * cy * fbw + cx][2],
                            },
                            bg: Color::Rgb {
                                r: fb[(2 * cy + 1) * fbw + cx][0],
                                g: fb[(2 * cy + 1) * fbw + cx][1],
                                b: fb[(2 * cy + 1) * fbw + cx][2],
                            },
                        },
                    }
                } else {
                    buf[cell_index(w, cx, cy)]
                })
        }),
{
    let cols = blit_cols(w, fbw);
    let rows = blit_rows(h, fbh);
    let out = blit_painted(buf, w, fbw, fb, cols, rows, rows, 0);
    assert forall|cx: int, cy: int|
        0 <= cx < w && 0 <= cy < h implies #[trigger] out[cell_index(w, cx, cy)] == (if cx < cols && cy < rows {
            Cell {
                ch: if fb[2 * cy * fbw + cx]@ == fb[(2 * cy + 1) * fbw + cx]@ {
                    '\u{2588}'
                } else {
                    '\u{2580}'
                },
                style: CellStyle {
                    fg: Color::Rgb {
                        r: fb[2 * cy * fbw + cx][0],
                        g: fb[2 * cy * fbw + cx][1],
                        b: fb[2 * cy * fbw + cx][2],
                    },
                    bg: Color::Rgb {
                        r: fb[(2 * cy + 1) * fbw + cx][0],
                        g: fb[(2 * cy + 1) * fbw + cx][1],
                        b: fb[(2 * cy + 1) * fbw + cx][2],
                    },
                },
            }
        } else {
            buf[cell_index(w, cx, cy)]
        }) by {
        lemma_index_of_cell(w, h, cx, cy);
        let top = fb[2 * cy * fbw + cx];
        let bot = fb[(2 * cy + 1) * fbw + cx];
        if top@ == bot@ {
            assert(top[0] == top@[0] && top[1] == top@[1] && top[2] == top@[2] && top[3] == top@[3]);
            assert(bot[0] == bot@[0] && bot[1] == bot@[1] && bot[2] == bot@[2] && bot[3] == bot@[3]);
        } else {
            if top[0] == bot[0] && top[1] == bot[1] && top[2] == bot[2] && top[3] == bot[3] {
                assert(top@ =~= bot@);
            }
        }
    }
}

proof fn lemma_text_one_more(buf: Seq<Cell>, w: int, h: int, text: Seq<char>, k: int, style: CellStyle, x: int, y: int)
    requires
        w >= 0,
        h >= 0,
        buf.len() == w * h,
        0 <= k < text.len(),
        x >= 0,
        y >= 0,
    ensures
        text_painted(buf, w, text.take(k + 1), style, x, y) == (if x + k < w && y < h {
            text_painted(buf, w, text.take(k), style, x, y).update(
                cell_index(w, x + k, y),
                text_cell(text, k, style),
            )
        } else {
            text_painted(buf, w, text.take(k), style, x, y)
        }),
{
    let lhs = text_painted(buf, w, text.take(k + 1), style, x, y);
    let base = text_painted(buf, w, text.take(k), style, x, y);
    if x + k < w && y < h {
        lemma_index_of_cell(w, h, x + k, y);
        let rhs = base.update(cell_index(w, x + k, y), text_cell(text, k, style));
        assert(lhs.len() == buf.len());
        assert(base.len() == buf.len());
        assert(rhs.len() == buf.len());
        assert forall|i: int| 0 <= i < lhs.len() implies lhs[i] == rhs[i] by {
            lemma_index_roundtrip(w, h, i);
            if i / w == y && x <= i % w < x + k + 1 {
                assert(text.take(k + 1)[i % w - x] == text[i % w - x]);
                if i % w < x + k {
                    assert(text.take(k)[i % w - x] == text[i % w - x]);
                    assert(i != cell_index(w, x + k, y));
                } else {
                    assert(i == cell_index(w, x + k, y));
                }
            } else {
                assert(i != cell_index(w, x + k, y));
            }
        }
        assert(lhs =~= rhs);
    } else {
        assert forall|i: int| 0 <= i < lhs.len() implies lhs[i] == base[i] by {
            if w > 0 {
                lemma_index_roundtrip(w, h, i);
            }
        }
        assert(lhs =~= base);
    }
}

/// A command to the terminal.
#[derive(Clone, Copy, PartialEq, Eq, Structural, Debug)]
pub enum TermCommand {
    /// Move the cursor to column `0`, row `1`.
    MoveTo(usize, usize),
    /// Use this colour for the characters printed from now on.
    SetForeground(Color),
    /// Use this colour behind the characters printed from now on.
    SetBackground(Color),
    /// Print a character at the cursor and move the cursor one column right.
    Print(char),
}

/// What a terminal holds: its cursor, its current colours and the cells it shows.
pub struct TermModel {
    pub cursor: (int, int),
    pub fg: Color,
    pub bg: Color,
    pub screen: Map<(int, int), Cell>,
}

/// The terminal after it carries out `cmd`.
pub open spec fn apply_command(st: TermModel, cmd: TermCommand) -> TermModel {
    match cmd {
        TermCommand::MoveTo(x, y) => TermModel { cursor: (x as int, y as int), ..st },
        TermCommand::SetForeground(c) => TermModel { fg: c, ..st },
        TermCommand::SetBackground(c) => TermModel { bg: c, ..st },
        TermCommand::Print(ch) => TermModel {
            screen: st.screen.insert(st.cursor, Cell { ch, style: CellStyle { fg: st.fg, bg: st.bg } }),
            cursor: (st.cursor.0 + 1, st.cursor.1),
            ..st
        },
    }
}

/// The terminal after it carries out `cmds` in order.
pub open spec fn run_commands(st: TermModel, cmds: Seq<TermCommand>) -> TermModel
    decreases cmds.len(),
{
    if cmds.len() == 0 {
        st
    } else {
        apply_command(run_commands(st, cmds.drop_last()), cmds.last())
    }
}

/// Commands that show `c` at column `x`, row `y`, given what is known of the cursor and
/// colours: a move only when the cursor is not known to be there, a colour change only
/// when the colour is not known to be set.
pub open spec fn cell_commands(
    c: Cell,
    x: int,
    y: int,
    cursor: Option<(int, int)>,
    fg: Option<Color>,
    bg: Option<Color>,
) -> Seq<TermCommand> {
    (if cursor == Some((x, y)) { seq![] } else { seq![TermCommand::MoveTo(x as usize, y as usize)] })
        + (if fg == Some(c.style.fg) { seq![] } else { seq![TermCommand::SetForeground(c.style.fg)] })
        + (if bg == Some(c.style.bg) { seq![] } else { seq![TermCommand::SetBackground(c.style.bg)] })
        + seq![TermCommand::Print(c.ch)]
}

/// Commands that show cells `k..` of the grid `cells`, `w` cells wide, row by row.
pub open spec fn plan_from(
    cells: Seq<Cell>,
    w: int,
    k: int,
    cursor: Option<(int, int)>,
    fg: Option<Color>,
    bg: Option<Color>,
) -> Seq<TermCommand>
    decreases cells.len() - k,
{
    if k < 0 || k >= cells.len() {
        seq![]
    } else {
        let c = cells[k];
        cell_commands(c, k % w, k / w, cursor, fg, bg) + plan_from(
            cells,
            w,
            k + 1,
            Some((k % w + 1, k / w)),
            Some(c.style.fg),
            Some(c.style.bg),
        )
    }
}

/// Commands that show the whole grid `cells`, `w` cells wide, on a terminal in any state.
pub open spec fn present_plan(cells: Seq<Cell>, w: int) -> Seq<TermCommand> {
    plan_from(cells, w, 0, None, None, None)
}

/// The terminal agrees with what is known of its cursor and colours.
pub open spec fn model_agrees(st: TermModel, cursor: Option<(int, int)>, fg: Option<Color>, bg: Option<Color>) -> bool {
    &&& (cursor matches Some(p) ==> st.cursor == p)
    &&& (fg matches Some(f) ==> st.fg == f)
    &&& (bg matches Some(b) ==> st.bg == b)
}

/// Carrying out `a` then `b` is carrying out `a + b`.
pub proof fn lemma_run_concat(st: TermModel, a: Seq<TermCommand>, b: Seq<TermCommand>)
    ensures
        run_commands(st, a + b) == run_commands(run_commands(st, a), b),
    decreases b.len(),
{
    if b.len() == 0 {
        assert(a + b =~= a);
    } else {
        assert((a + b).drop_last() =~= a + b.drop_last());
        assert((a + b).last() == b.last());
        lemma_run_concat(st, a, b.drop_last());
    }
}

proof fn lemma_run_one(st: TermModel, c: TermCommand)
    ensures
        run_commands(st, seq![c]) == apply_command(st, c),
{
    assert(seq![c].drop_last() =~= Seq::<TermCommand>::empty());
    assert(run_commands(st, Seq::<TermCommand>::empty()) == st);
}

/// The commands for one cell leave that cell on screen, the cursor just right of it and
/// its colours current.
proof fn lemma_cell_commands(
    st: TermModel,
    c: Cell,
    x: int,
    y: int,
    cursor: Option<(int, int)>,
    fg: Option<Color>,
    bg: Option<Color>,
)
    requires
        model_agrees(st, cursor, fg, bg),
        0 <= x <= usize::MAX,
        0 <= y <= usize::MAX,
    ensures
        ({
            let r = run_commands(st, cell_commands(c, x, y, cursor, fg, bg));
            &&& r.screen == st.screen.insert((x, y), c)
            &&& r.cursor == (x + 1, y)
            &&& r.fg == c.style.fg
            &&& r.bg == c.style.bg
        }),
{
    let m: Seq<TermCommand> = if cursor == Some((x, y)) { seq![] } else { seq![TermCommand::MoveTo(x as usize, y as usize)] };
    let f: Seq<TermCommand> = if fg == Some(c.style.fg) { seq![] } else { seq![TermCommand::SetForeground(c.style.fg)] };
    let b: Seq<TermCommand> = if bg == Some(c.style.bg) { seq![] } else { seq![TermCommand::SetBackground(c.style.bg)] };
    let p: Seq<TermCommand> = seq![TermCommand::Print(c.ch)];
    lemma_run_concat(st, m, f);
    lemma_run_concat(st, m + f, b);
    lemma_run_concat(st, m + f + b, p);
    let s1 = run_commands(st, m);
    if cursor != Some((x, y)) {
        lemma_run_one(st, TermCommand::MoveTo(x as usize, y as usize));
    }
    assert(s1.cursor == (x, y) && s1.fg == st.fg && s1.bg == st.bg && s1.screen == st.screen);
    let s2 = run_commands(s1, f);
    if fg != Some(c.style.fg) {
        lemma_run_one(s1, TermCommand::SetForeground(c.style.fg));
    }
    assert(s2.cursor == (x, y) && s2.fg == c.style.fg && s2.bg == st.bg && s2.screen == st.screen);
    let s3 = run_commands(s2, b);
    if bg != Some(c.style.bg) {
        lemma_run_one(s2, TermCommand::SetBackground(c.style.bg));
    }
    assert(s3.cursor == (x, y) && s3.fg == c.style.fg && s3.bg == c.style.bg && s3.screen == st.screen);
    lemma_run_one(s3, TermCommand::Print(c.ch));
    assert(Cell { ch: c.ch, style: CellStyle { fg: c.style.fg, bg: c.style.bg } } == c);
}

/// What the screen of `st` shows at column `x`, row `y`, if anything.
pub open spec fn shown_at(st: TermModel, x: int, y: int) -> Option<Cell> {
    if st.screen.contains_key((x, y)) { Some(st.screen[(x, y)]) } else { None }
}

/// Cells `k..` of the `w` by `h` grid `cells` are on the screen of `r` at their column and row.
pub open spec fn cells_shown(cells: Seq<Cell>, w: int, h: int, k: int, r: TermModel) -> bool {
    forall|x: int, y: int|
        0 <= x < w && 0 <= y < h && k <= cell_index(w, x, y) ==> #[trigger] shown_at(r, x, y) == Some(
            cells[cell_index(w, x, y)],
        )
}

/// Every position of the screen other than cells `k..` of the `w` by `h` grid is the same in `r` as in `st`.
pub open spec fn others_kept(w: int, h: int, k: int, st: TermModel, r: TermModel) -> bool {
    forall|x: int, y: int|
        !(0 <= x < w && 0 <= y < h && k <= cell_index(w, x, y)) ==> #[trigger] shown_at(r, x, y) == shown_at(st, x, y)
}

/// Carrying out the commands for cells `k..` of a grid shows exactly those cells, each at
/// its column and row, and leaves every other position of the screen as it was.
pub proof fn lemma_plan_from_shows(
    cells: Seq<Cell>,
    w: int,
    h: int,
    k: int,
    st: TermModel,
    cursor: Option<(int, int)>,
    fg: Option<Color>,
    bg: Option<Color>,
)
    requires
        w > 0,
        cells.len() == w * h,
        w * h <= usize::MAX,
        0 <= k <= cells.len(),
        model_agrees(st, cursor, fg, bg),
    ensures
        cells_shown(cells, w, h, k, run_commands(st, plan_from(cells, w, k, cursor, fg, bg))),
        others_kept(w, h, k, st, run_commands(st, plan_from(cells, w, k, cursor, fg, bg))),
    decreases cells.len() - k,
{
    if k == cells.len() {
        assert(plan_from(cells, w, k, cursor, fg, bg) =~= Seq::<TermCommand>::empty());
        assert forall|x: int, y: int| 0 <= x < w && 0 <= y < h implies !(k <= cell_index(w, x, y)) by {
            lemma_index_of_cell(w, h, x, y);
        }
    } else {
        let c = cells[k];
        let x = k % w;
        let y = k / w;
        lemma_index_roundtrip(w, h, k);
        let head = cell_commands(c, x, y, cursor, fg, bg);
        let tail = plan_from(cells, w, k + 1, Some((x + 1, y)), Some(c.style.fg), Some(c.style.bg));
        assert(plan_from(cells, w, k, cursor, fg, bg) == head + tail);
        lemma_cell_commands(st, c, x, y, cursor, fg, bg);
        let mid = run_commands(st, head);
        lemma_run_concat(st, head, tail);
        lemma_plan_from_shows(cells, w, h, k + 1, mid, Some((x + 1, y)), Some(c.style.fg), Some(c.style.bg));
        let r = run_commands(mid, tail);
        assert forall|x2: int, y2: int|
            0 <= x2 < w && 0 <= y2 < h && k <= cell_index(w, x2, y2) implies #[trigger] shown_at(r, x2, y2) == Some(
                cells[cell_index(w, x2, y2)],
            ) by {
            lemma_index_of_cell(w, h, x2, y2);
            if cell_index(w, x2, y2) == k {
                assert(x2 == x && y2 == y);
                assert(shown_at(r, x, y) == shown_at(mid, x, y));
            }
        }
        assert forall|x2: int, y2: int|
            !(0 <= x2 < w && 0 <= y2 < h && k <= cell_index(w, x2, y2)) implies #[trigger] shown_at(r, x2, y2) == shown_at(
                st,
                x2,
                y2,
            ) by {
            assert((x2, y2) != (x, y));
            assert(shown_at(r, x2, y2) == shown_at(mid, x2, y2));
        }
    }
}

/// Carrying out the commands planned for a grid, from any state of the terminal, leaves
/// every cell of the grid on screen at its column and row, and every other position of
/// the screen as it was.
pub proof fn lemma_present_plan_shows(cells: Seq<Cell>, w: int, h: int, st: TermModel)
    requires
        w > 0,
        cells.len() == w * h,
        w * h <= usize::MAX,
    ensures
        forall|x: int, y: int|
            0 <= x < w && 0 <= y < h ==> #[trigger] shown_at(run_commands(st, present_plan(cells, w)), x, y) == Some(
                cells[cell_index(w, x, y)],
            ),
        forall|x: int, y: int|
            !(0 <= x < w && 0 <= y < h) ==> #[trigger] shown_at(run_commands(st, present_plan(cells, w)), x, y)
                == shown_at(st, x, y),
{
    lemma_plan_from_shows(cells, w, h, 0, st, None, None, None);
    let r = run_commands(st, present_plan(cells, w));
    assert forall|x: int, y: int| 0 <= x < w && 0 <= y < h implies #[trigger] shown_at(r, x, y) == Some(
        cells[cell_index(w, x, y)],
    ) by {
        lemma_index_of_cell(w, h, x, y);
    }
}

} // verus!
