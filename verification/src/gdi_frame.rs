//! Frame planning of the GDI text front end: which rows of which panes
//! are painted again, where each cell lands in pixels, when the whole
//! client area is cleared first, and what each pane leaves behind for
//! the damage tracking of the next frame.
//!
//! The caller reads the panes (lines, cursor, selection, resolved
//! colours) and hands them over as plain values; the GDI calls that draw
//! the planned cells stay with the caller.
use vstd::prelude::*;

verus! {

/// The font variant a cell is drawn with.
#[derive(Clone, Copy, Debug, PartialEq, Eq, Structural)]
pub enum FontStyleKey {
    Regular,
    Bold,
    Italic,
    BoldItalic,
}

/// The font variant for a cell's weight and slant.
pub open spec fn style_of(bold: bool, italic: bool) -> FontStyleKey {
    if bold && italic {
        FontStyleKey::BoldItalic
    } else if bold {
        FontStyleKey::Bold
    } else if italic {
        FontStyleKey::Italic
    } else {
        FontStyleKey::Regular
    }
}

/// Picks the font variant for a cell's weight and slant.
pub fn style_for(bold: bool, italic: bool) -> (r: FontStyleKey)
    ensures
        r == style_of(bold, italic),
{
    match (bold, italic) {
        (false, false) => FontStyleKey::Regular,
        (true, false) => FontStyleKey::Bold,
        (false, true) => FontStyleKey::Italic,
        (true, true) => FontStyleKey::BoldItalic,
    }
}

/// The shape the cursor is drawn with, as the configuration resolved it.
#[derive(Clone, Copy, Debug, PartialEq, Eq, Structural)]
pub enum CursorShape {
    Default,
    BlinkingBlock,
    SteadyBlock,
    BlinkingUnderline,
    SteadyUnderline,
    BlinkingBar,
    SteadyBar,
}

/// Where a pane sits, in cells, and whether it has the focus.
#[derive(Clone, Copy, Debug, PartialEq, Eq, Structural)]
pub struct PaneLayout {
    pub pane_id: u64,
    pub left: usize,
    pub top: usize,
    pub width: usize,
    pub height: usize,
    pub is_active: bool,
}

/// A selection: its first and last stable rows (inclusive), the columns
/// at its two ends, and whether it is rectangular.
#[derive(Clone, Copy, Debug, PartialEq, Eq, Structural)]
pub struct SelectionSpan {
    pub start_col: usize,
    pub start_row: isize,
    pub end_col: usize,
    pub end_row: isize,
    pub rectangular: bool,
}

/// A cursor position: column and stable row.
#[derive(Clone, Copy, Debug, PartialEq, Eq, Structural)]
pub struct CursorPos {
    pub col: usize,
    pub row: isize,
}

/// What one pane looked like when it was last painted.
#[derive(Clone, Copy, Debug)]
pub struct PanePaintState {
    /// The pane's sequence number at that paint.
    pub last_seqno: u64,
    /// The stable row at the top of its viewport.
    pub top: isize,
    /// The visible cursor (column, stable row), if there was one.
    pub cursor: Option<CursorPos>,
    /// The selection, if there was one.
    pub selection: Option<SelectionSpan>,
}

/// The paint state of a pane that was never painted.
pub open spec fn fresh_state() -> PanePaintState {
    PanePaintState { last_seqno: 0, top: 0, cursor: None, selection: None }
}

/// One visible cell of a line, with its colours already resolved.
#[derive(Clone, Debug)]
pub struct CellSnapshot {
    /// The column the cell starts at.
    pub index: usize,
    /// The number of columns it covers (0 is drawn as 1).
    pub width: usize,
    /// Its text in UTF-16.
    pub text: Vec<u16>,
    pub fg: u32,
    pub bg: u32,
    pub bold: bool,
    pub italic: bool,
    pub underline: bool,
    pub strike: bool,
    pub invisible: bool,
}

/// One line of a pane's viewport.
#[derive(Clone, Debug)]
pub struct LineSnapshot {
    /// The sequence number of the line's last change.
    pub seqno: u64,
    /// The selected columns of this line (half open), if any.
    pub selected_cols: Option<(usize, usize)>,
    /// Its visible cells, in column order.
    pub cells: Vec<CellSnapshot>,
}

/// A pane as the frame sees it.
#[derive(Clone, Debug)]
pub struct PaneSnapshot {
    pub layout: PaneLayout,
    /// The stable row at the top of the viewport.
    pub stable_top: isize,
    /// The stable row of the first line in `lines`.
    pub first_row: isize,
    pub lines: Vec<LineSnapshot>,
    /// The pane's current sequence number.
    pub seqno: u64,
    pub cursor_x: usize,
    pub cursor_y: isize,
    /// Whether the terminal shows its cursor.
    pub cursor_shown: bool,
    pub cursor_shape: CursorShape,
    pub selection: Option<SelectionSpan>,
}

/// The palette colours a frame uses, as GDI colour values, and the focus.
#[derive(Clone, Copy, Debug)]
pub struct FrameColors {
    pub default_fg: u32,
    pub default_bg: u32,
    pub sel_fg: u32,
    pub sel_bg: u32,
    pub cursor_fg: u32,
    pub cursor_bg: u32,
    pub focused: bool,
}

/// Cell metrics, padding and window size, in pixels, and the tab bar's
/// placement.
#[derive(Clone, Copy, Debug)]
pub struct FrameGeometry {
    pub cw: i32,
    pub ch: i32,
    pub pad_left: i32,
    pub pad_top: i32,
    pub pixel_width: usize,
    pub pixel_height: usize,
    pub show_tab_bar: bool,
    pub tab_at_bottom: bool,
}

/// The formatted tab bar line, and whether it differs from the one
/// painted last.
#[derive(Clone, Debug)]
pub struct TabBarSnapshot {
    pub cells: Vec<CellSnapshot>,
    pub changed: bool,
}

/// A planned cell: an opaque text run over a rectangle.
#[derive(Clone, Debug)]
pub struct GdiCell {
    pub x: i32,
    pub y: i32,
    pub w: i32,
    pub h: i32,
    pub text: Vec<u16>,
    pub fg: u32,
    pub bg: u32,
    pub style: FontStyleKey,
    pub underline: bool,
    pub strike: bool,
}

/// A planned cell as a value.
pub struct GdiCellView {
    pub x: int,
    pub y: int,
    pub w: int,
    pub h: int,
    pub text: Seq<u16>,
    pub fg: u32,
    pub bg: u32,
    pub style: FontStyleKey,
    pub underline: bool,
    pub strike: bool,
}

impl View for GdiCell {
    type V = GdiCellView;

    open spec fn view(&self) -> GdiCellView {
        GdiCellView {
            x: self.x as int,
            y: self.y as int,
            w: self.w as int,
            h: self.h as int,
            text: self.text@,
            fg: self.fg,
            bg: self.bg,
            style: self.style,
            underline: self.underline,
            strike: self.strike,
        }
    }
}

/// The planned cells as values.
pub open spec fn cells_view(v: Seq<GdiCell>) -> Seq<GdiCellView> {
    v.map_values(|c: GdiCell| c@)
}

/// A cell's width in columns, at least one.
pub open spec fn span(w: usize) -> int {
    if w == 0 {
        1
    } else {
        w as int
    }
}

/// Whether column `idx` lies in the selected columns.
pub open spec fn col_selected(sel: Option<(usize, usize)>, idx: usize) -> bool {
    match sel {
        Some((a, b)) => a <= idx < b,
        None => false,
    }
}

/// The planned cell for a visible cell at line origin `ox`, row pixel `y`.
pub open spec fn cell_plan(
    c: CellSnapshot,
    ox: int,
    y: int,
    cw: int,
    ch: int,
    colors: FrameColors,
    sel: Option<(usize, usize)>,
    hide_invisible: bool,
) -> GdiCellView {
    let selected = col_selected(sel, c.index);
    GdiCellView {
        x: ox + c.index * cw,
        y,
        w: span(c.width) * cw,
        h: ch,
        text: if hide_invisible && c.invisible {
            Seq::empty()
        } else {
            c.text@
        },
        fg: if selected {
            colors.sel_fg
        } else {
            c.fg
        },
        bg: if selected {
            colors.sel_bg
        } else {
            c.bg
        },
        style: style_of(c.bold, c.italic),
        underline: c.underline,
        strike: c.strike,
    }
}

/// The column after the last visible cell of a line (0 for none).
pub open spec fn line_end(cells: Seq<CellSnapshot>) -> int {
    if cells.len() == 0 {
        0
    } else {
        cells.last().index + span(cells.last().width)
    }
}

/// The blank default-coloured run from column `from` to column `ncols`.
pub open spec fn blank_plan(ox: int, y: int, cw: int, ch: int, colors: FrameColors, from: int, ncols: int) -> GdiCellView {
    GdiCellView {
        x: ox + from * cw,
        y,
        w: (ncols - from) * cw,
        h: ch,
        text: Seq::empty(),
        fg: colors.default_fg,
        bg: colors.default_bg,
        style: FontStyleKey::Regular,
        underline: false,
        strike: false,
    }
}

/// The planned cells of one line: each visible cell, then a blank run over
/// the columns past the last one, up to `ncols`.
pub open spec fn line_plan(
    cells: Seq<CellSnapshot>,
    ox: int,
    y: int,
    cw: int,
    ch: int,
    colors: FrameColors,
    sel: Option<(usize, usize)>,
    hide_invisible: bool,
    ncols: int,
) -> Seq<GdiCellView> {
    cells.map_values(|c: CellSnapshot| cell_plan(c, ox, y, cw, ch, colors, sel, hide_invisible)) + if line_end(cells) < ncols {
        seq![blank_plan(ox, y, cw, ch, colors, line_end(cells), ncols)]
    } else {
        Seq::empty()
    }
}

/// Every pixel position of a line's cells fits in an `i32`.
pub open spec fn line_fits(cells: Seq<CellSnapshot>, ox: int, cw: int, ncols: int) -> bool {
    &&& forall|j: int|
        0 <= j < cells.len() ==> #[trigger] cells[j].index + span(cells[j].width) <= usize::MAX
            && ox + (cells[j].index + span(cells[j].width)) * cw <= i32::MAX
    &&& ox + ncols * cw <= i32::MAX
}

/// `base + k * c`, for values whose result fits.
fn scaled(base: i32, k: usize, c: i32) -> (r: i32)
    requires
        0 <= base,
        0 <= c,
        base + k * c <= i32::MAX,
    ensures
        r == base + k * c,
{
    if c == 0 {
        base
    } else {
        assert(k <= i32::MAX) by (nonlinear_arith)
            requires
                c >= 1,
                base >= 0,
                base + k * c <= i32::MAX,
        ;
        base + (k as i32) * c
    }
}

/// A copy of a UTF-16 run.
fn copy_units(v: &Vec<u16>) -> (r: Vec<u16>)
    ensures
        r@ == v@,
{
    let mut r: Vec<u16> = Vec::new();
    let mut i: usize = 0;
    while i < v.len()
        invariant
            i <= v.len(),
            r@ == v@.take(i as int),
        decreases v.len() - i,
    {
        r.push(v[i]);
        i = i + 1;
        assert(r@ == v@.take(i as int));
    }
    assert(v@.take(i as int) == v@);
    r
}

/// Appends the planned cells of one line to `out`.
fn plan_line(
    out: &mut Vec<GdiCell>,
    cells: &Vec<CellSnapshot>,
    ox: i32,
    y: i32,
    cw: i32,
    ch: i32,
    colors: &FrameColors,
    sel: Option<(usize, usize)>,
    hide_invisible: bool,
    ncols: usize,
)
    requires
        0 <= ox,
        0 <= cw,
        line_fits(cells@, ox as int, cw as int, ncols as int),
    ensures
        cells_view(final(out)@) == cells_view(old(out)@) + line_plan(
            cells@,
            ox as int,
            y as int,
            cw as int,
            ch as int,
            *colors,
            sel,
            hide_invisible,
            ncols as int,
        ),
{
    let ghost start = cells_view(out@);
    let ghost f = |c: CellSnapshot| cell_plan(c, ox as int, y as int, cw as int, ch as int, *colors, sel, hide_invisible);
    let mut next_col: usize = 0;
    let mut j: usize = 0;
    while j < cells.len()
        invariant
            j <= cells.len(),
            0 <= ox,
            0 <= cw,
            line_fits(cells@, ox as int, cw as int, ncols as int),
            f == (|c: CellSnapshot| cell_plan(c, ox as int, y as int, cw as int, ch as int, *colors, sel, hide_invisible)),
            cells_view(out@) == start + cells@.take(j as int).map_values(f),
            next_col == line_end(cells@.take(j as int)),
        decreases cells.len() - j,
    {
        let c = &cells[j];
        assert(c.index + span(c.width) <= usize::MAX && ox + (c.index + span(c.width)) * cw <= i32::MAX);
        let width: usize = if c.width == 0 {
            1
        } else {
            c.width
        };
        next_col = c.index + width;
        assert(ox + c.index * cw <= i32::MAX) by (nonlinear_arith)
            requires
                0 <= cw,
                ox + (c.index + width) * cw <= i32::MAX,
        ;
        let x = scaled(ox, c.index, cw);
        assert(width * cw <= i32::MAX) by (nonlinear_arith)
            requires
                0 <= cw,
                0 <= ox,
                ox + (c.index + width) * cw <= i32::MAX,
        ;
        let w = scaled(0, width, cw);
        let selected = match sel {
            Some((a, b)) => a <= c.index && c.index < b,
            None => false,
        };
        let text = if hide_invisible && c.invisible {
            Vec::new()
        } else {
            copy_units(&c.text)
        };
        let cell = GdiCell {
            x,
            y,
            w,
            h: ch,
            text,
            fg: if selected {
                colors.sel_fg
            } else {
                c.fg
            },
            bg: if selected {
                colors.sel_bg
            } else {
                c.bg
            },
            style: style_for(c.bold, c.italic),
            underline: c.underline,
            strike: c.strike,
        };
        let ghost before = out@;
        out.push(cell);
        proof {
            assert(cell@ == f(cells@[j as int]));
            assert(cells@.take(j + 1) == cells@.take(j as int).push(cells@[j as int]));
            assert(cells_view(out@) == cells_view(before).push(cell@));
            assert(cells@.take(j + 1).map_values(f) == cells@.take(j as int).map_values(f).push(f(cells@[j as int])));
        }
        j = j + 1;
    }
    assert(cells@.take(j as int) == cells@);
    if next_col < ncols {
        assert(ox + next_col * cw <= i32::MAX && (ncols - next_col) * cw <= i32::MAX) by (nonlinear_arith)
            requires
                0 <= cw,
                0 <= ox,
                next_col < ncols,
                ox + ncols * cw <= i32::MAX,
        ;
        let x = scaled(ox, next_col, cw);
        let w = scaled(0, ncols - next_col, cw);
        let ghost before = out@;
        let blank = GdiCell {
            x,
            y,
            w,
            h: ch,
            text: Vec::new(),
            fg: colors.default_fg,
            bg: colors.default_bg,
            style: FontStyleKey::Regular,
            underline: false,
            strike: false,
        };
        out.push(blank);
        proof {
            assert(blank@ == blank_plan(ox as int, y as int, cw as int, ch as int, *colors, next_col as int, ncols as int));
            assert(cells_view(out@) == cells_view(before).push(blank@));
        }
    }
}


/// Whether stable row `row` lies in the rows of a selection.
pub open spec fn in_rows(sel: Option<SelectionSpan>, row: int) -> bool {
    match sel {
        Some(s) => s.start_row <= row <= s.end_row,
        None => false,
    }
}

/// The cursor is drawn for a pane: it has the focus and shows its cursor.
pub open spec fn cursor_visible(p: PaneSnapshot) -> bool {
    p.layout.is_active && p.cursor_shown
}

/// Whether line `i` of a pane is painted again: on a full frame every line
/// is; otherwise a line whose content changed since the last paint, the
/// line of the cursor now or at the last paint, and, when the selection
/// changed, each line inside the selection now or before.
pub open spec fn row_dirty(full: bool, p: PaneSnapshot, prev: PanePaintState, i: int) -> bool {
    let row = p.first_row + i;
    ||| full
    ||| p.lines@[i].seqno > prev.last_seqno
    ||| cursor_visible(p) && p.cursor_y == row
    ||| (prev.cursor matches Some(c) && c.row == row)
    ||| p.selection != prev.selection && (in_rows(p.selection, row) || in_rows(prev.selection, row))
}

/// The pixels above the panes: the top padding, and the tab bar when it
/// sits at the top.
pub open spec fn top_offset(g: FrameGeometry) -> int {
    g.pad_top + if g.show_tab_bar && !g.tab_at_bottom {
        g.ch as int
    } else {
        0
    }
}

/// The pixel column of a pane's first cell.
pub open spec fn origin_x(p: PaneSnapshot, g: FrameGeometry) -> int {
    g.pad_left + p.layout.left * g.cw
}

/// The pixel row of a pane's first line.
pub open spec fn origin_y(p: PaneSnapshot, g: FrameGeometry) -> int {
    top_offset(g) + p.layout.top * g.ch
}

/// The planned cells of the first `n` lines of a pane.
pub open spec fn pane_plan(
    full: bool,
    p: PaneSnapshot,
    prev: PanePaintState,
    g: FrameGeometry,
    colors: FrameColors,
    n: int,
) -> Seq<GdiCellView>
    decreases n,
{
    if n <= 0 {
        Seq::empty()
    } else {
        pane_plan(full, p, prev, g, colors, n - 1) + if row_dirty(full, p, prev, n - 1) {
            line_plan(
                p.lines@[n - 1].cells@,
                origin_x(p, g),
                origin_y(p, g) + (n - 1) * g.ch,
                g.cw as int,
                g.ch as int,
                colors,
                p.lines@[n - 1].selected_cols,
                true,
                p.layout.width as int,
            )
        } else {
            Seq::empty()
        }
    }
}

/// Every pixel position of a pane's cells and cursor fits in an `i32`.
pub open spec fn pane_fits(p: PaneSnapshot, g: FrameGeometry) -> bool {
    &&& g.pad_left + (p.layout.left + p.layout.width) * g.cw <= i32::MAX
    &&& origin_y(p, g) + p.lines.len() * g.ch <= i32::MAX
    &&& forall|i: int|
        0 <= i < p.lines.len() ==> line_fits(
            #[trigger] p.lines@[i].cells@,
            origin_x(p, g),
            g.cw as int,
            p.layout.width as int,
        )
    &&& cursor_in_view(p) ==> g.pad_left + (p.layout.left + p.cursor_x + 1) * g.cw <= i32::MAX
}

/// The cursor is drawn and lies on one of the pane's lines.
pub open spec fn cursor_in_view(p: PaneSnapshot) -> bool {
    cursor_visible(p) && p.first_row <= p.cursor_y < p.first_row + p.lines.len()
}

/// Appends the planned cells of the dirty lines of a pane to `out`.
fn plan_pane(
    out: &mut Vec<GdiCell>,
    full: bool,
    p: &PaneSnapshot,
    prev: &PanePaintState,
    g: &FrameGeometry,
    colors: &FrameColors,
)
    requires
        0 <= g.cw,
        0 <= g.ch,
        0 <= g.pad_left,
        0 <= g.pad_top,
        pane_fits(*p, *g),
    ensures
        cells_view(final(out)@) == cells_view(old(out)@) + pane_plan(
            full,
            *p,
            *prev,
            *g,
            *colors,
            p.lines.len() as int,
        ),
{
    let ghost start = cells_view(out@);
    assert(g.pad_left + p.layout.left * g.cw <= i32::MAX) by (nonlinear_arith)
        requires
            0 <= g.cw,
            g.pad_left + (p.layout.left + p.layout.width) * g.cw <= i32::MAX,
    ;
    let ox = scaled(g.pad_left, p.layout.left, g.cw);
    let tab_h: i32 = if g.show_tab_bar && !g.tab_at_bottom {
        g.ch
    } else {
        0
    };
    assert(origin_y(*p, *g) <= i32::MAX) by (nonlinear_arith)
        requires
            0 <= g.ch,
            origin_y(*p, *g) + p.lines.len() * g.ch <= i32::MAX,
    ;
    assert(p.layout.top * g.ch >= 0) by (nonlinear_arith)
        requires
            0 <= g.ch,
    ;
    let top = g.pad_top + tab_h;
    let oy = scaled(top, p.layout.top, g.ch);
    let visible = p.layout.is_active && p.cursor_shown;
    let sel_changed = p.selection != prev.selection;
    let mut i: usize = 0;
    while i < p.lines.len()
        invariant
            i <= p.lines.len(),
            0 <= g.cw,
            0 <= g.ch,
            0 <= g.pad_left,
            pane_fits(*p, *g),
            ox == origin_x(*p, *g),
            oy == origin_y(*p, *g),
            0 <= oy,
            visible == cursor_visible(*p),
            sel_changed == (p.selection != prev.selection),
            cells_view(out@) == start + pane_plan(full, *p, *prev, *g, *colors, i as int),
        decreases p.lines.len() - i,
    {
        let line = &p.lines[i];
        let row: i128 = p.first_row as i128 + i as i128;
        let cursor_here = visible && p.cursor_y as i128 == row;
        let prev_cursor_here = match prev.cursor {
            Some(c) => c.row as i128 == row,
            None => false,
        };
        let in_now = match p.selection {
            Some(s) => s.start_row as i128 <= row && row <= s.end_row as i128,
            None => false,
        };
        let in_prev = match prev.selection {
            Some(s) => s.start_row as i128 <= row && row <= s.end_row as i128,
            None => false,
        };
        let dirty = full || line.seqno > prev.last_seqno || cursor_here || prev_cursor_here || (
        sel_changed && (in_now || in_prev));
        assert(dirty == row_dirty(full, *p, *prev, i as int));
        if dirty {
            assert(oy + i * g.ch <= i32::MAX) by (nonlinear_arith)
                requires
                    0 <= g.ch,
                    i < p.lines.len(),
                    oy + p.lines.len() * g.ch <= i32::MAX,
            ;
            let y = scaled(oy, i, g.ch);
            assert(line_fits(p.lines@[i as int].cells@, origin_x(*p, *g), g.cw as int, p.layout.width as int));
            plan_line(
                out,
                &line.cells,
                ox,
                y,
                g.cw,
                g.ch,
                colors,
                line.selected_cols,
                true,
                p.layout.width,
            );
        }
        i = i + 1;
    }
}


/// A planned cursor.
#[derive(Clone, Debug)]
pub struct GdiCursor {
    pub x: i32,
    pub y: i32,
    pub w: i32,
    pub h: i32,
    pub shape: CursorShape,
    pub bg: u32,
    pub fg: u32,
    pub focused: bool,
    /// The glyph under the cursor, drawn inverted by a block cursor.
    pub text: Vec<u16>,
    pub text_style: FontStyleKey,
}

/// A planned cursor as a value.
pub struct GdiCursorView {
    pub x: int,
    pub y: int,
    pub w: int,
    pub h: int,
    pub shape: CursorShape,
    pub bg: u32,
    pub fg: u32,
    pub focused: bool,
    pub text: Seq<u16>,
    pub text_style: FontStyleKey,
}

impl View for GdiCursor {
    type V = GdiCursorView;

    open spec fn view(&self) -> GdiCursorView {
        GdiCursorView {
            x: self.x as int,
            y: self.y as int,
            w: self.w as int,
            h: self.h as int,
            shape: self.shape,
            bg: self.bg,
            fg: self.fg,
            focused: self.focused,
            text: self.text@,
            text_style: self.text_style,
        }
    }
}

/// The planned cursors as values.
pub open spec fn cursors_view(v: Seq<GdiCursor>) -> Seq<GdiCursorView> {
    v.map_values(|c: GdiCursor| c@)
}

/// The text and font variant of the first cell of a line that starts at
/// column `col`; nothing, in the regular font, when none does.
pub open spec fn glyph_at(cells: Seq<CellSnapshot>, col: usize) -> (Seq<u16>, FontStyleKey)
    decreases cells.len(),
{
    if cells.len() == 0 {
        (Seq::empty(), FontStyleKey::Regular)
    } else if cells[0].index == col {
        (cells[0].text@, style_of(cells[0].bold, cells[0].italic))
    } else {
        glyph_at(cells.drop_first(), col)
    }
}

/// The cursor planned for a pane: drawn when it is visible and on one of
/// the pane's lines, one cell wide, over the glyph beneath it.
pub open spec fn cursor_plan(p: PaneSnapshot, g: FrameGeometry, colors: FrameColors) -> Option<GdiCursorView> {
    if cursor_in_view(p) {
        let sr = p.cursor_y - p.first_row;
        let glyph = glyph_at(p.lines@[sr].cells@, p.cursor_x);
        Some(
            GdiCursorView {
                x: origin_x(p, g) + p.cursor_x * g.cw,
                y: origin_y(p, g) + sr * g.ch,
                w: g.cw as int,
                h: g.ch as int,
                shape: p.cursor_shape,
                bg: colors.cursor_bg,
                fg: colors.cursor_fg,
                focused: colors.focused,
                text: glyph.0,
                text_style: glyph.1,
            },
        )
    } else {
        None
    }
}

/// Finds the glyph under column `col` of a line.
fn find_glyph(cells: &Vec<CellSnapshot>, col: usize) -> (r: (Vec<u16>, FontStyleKey))
    ensures
        (r.0@, r.1) == glyph_at(cells@, col),
{
    let mut j: usize = 0;
    assert(cells@.skip(0) == cells@);
    while j < cells.len()
        invariant
            j <= cells.len(),
            glyph_at(cells@, col) == glyph_at(cells@.skip(j as int), col),
        decreases cells.len() - j,
    {
        assert(cells@.skip(j as int)[0] == cells@[j as int]);
        if cells[j].index == col {
            return (copy_units(&cells[j].text), style_for(cells[j].bold, cells[j].italic));
        }
        assert(cells@.skip(j as int).drop_first() == cells@.skip(j + 1));
        j = j + 1;
    }
    (Vec::new(), FontStyleKey::Regular)
}

/// Plans the cursor of a pane.
fn plan_cursor(p: &PaneSnapshot, g: &FrameGeometry, colors: &FrameColors) -> (r: Option<GdiCursor>)
    requires
        0 <= g.cw,
        0 <= g.ch,
        0 <= g.pad_left,
        0 <= g.pad_top,
        pane_fits(*p, *g),
    ensures
        match r {
            Some(c) => cursor_plan(*p, *g, *colors) == Some(c@),
            None => cursor_plan(*p, *g, *colors) is None,
        },
{
    if !(p.layout.is_active && p.cursor_shown) {
        return None;
    }
    let first: i128 = p.first_row as i128;
    let cy: i128 = p.cursor_y as i128;
    if cy < first || cy - first >= p.lines.len() as i128 {
        return None;
    }
    let sr: usize = (cy - first) as usize;
    assert(g.pad_left + p.layout.left * g.cw + p.cursor_x * g.cw <= i32::MAX
        && p.layout.left * g.cw >= 0) by (nonlinear_arith)
        requires
            0 <= g.cw,
            g.pad_left + (p.layout.left + p.cursor_x + 1) * g.cw <= i32::MAX,
    ;
    let ox = scaled(g.pad_left, p.layout.left, g.cw);
    let x = scaled(ox, p.cursor_x, g.cw);
    let tab_h: i32 = if g.show_tab_bar && !g.tab_at_bottom {
        g.ch
    } else {
        0
    };
    assert(origin_y(*p, *g) + sr * g.ch <= i32::MAX && p.layout.top * g.ch >= 0) by (nonlinear_arith)
        requires
            0 <= g.ch,
            sr < p.lines.len(),
            origin_y(*p, *g) + p.lines.len() * g.ch <= i32::MAX,
    ;
    let oy = scaled(g.pad_top + tab_h, p.layout.top, g.ch);
    let y = scaled(oy, sr, g.ch);
    let (text, text_style) = find_glyph(&p.lines[sr].cells, p.cursor_x);
    Some(
        GdiCursor {
            x,
            y,
            w: g.cw,
            h: g.ch,
            shape: p.cursor_shape,
            bg: colors.cursor_bg,
            fg: colors.cursor_fg,
            focused: colors.focused,
            text,
            text_style,
        },
    )
}


/// The damage-tracking state kept from one frame to the next.
#[derive(Clone, Debug)]
pub struct GdiPaintState {
    /// The next frame clears and paints everything.
    pub needs_full_paint: bool,
    /// The pane layout at the last paint.
    pub last_layout: Vec<PaneLayout>,
    /// The paint state of each pane, by pane id; a later entry for an id
    /// overrides an earlier one.
    pub pane_states: Vec<(u64, PanePaintState)>,
}

/// What a frame draws.
#[derive(Clone, Debug)]
pub struct GdiFrameData {
    pub cells: Vec<GdiCell>,
    pub cursors: Vec<GdiCursor>,
    /// The whole client area is cleared before drawing; otherwise only the
    /// planned cells change and the previous pixels stay.
    pub full_clear: bool,
    /// The tab bar line was planned, so it becomes the one painted last.
    pub tab_bar_drawn: bool,
}

/// The pane states as a map from pane id.
pub open spec fn entries_map(s: Seq<(u64, PanePaintState)>) -> Map<u64, PanePaintState>
    decreases s.len(),
{
    if s.len() == 0 {
        Map::empty()
    } else {
        entries_map(s.drop_last()).insert(s.last().0, s.last().1)
    }
}

/// The paint state of pane `id`, or that of a fresh pane.
pub open spec fn state_of(m: Map<u64, PanePaintState>, id: u64) -> PanePaintState {
    if m.contains_key(id) {
        m[id]
    } else {
        fresh_state()
    }
}

/// What a pane leaves for the next frame once painted.
pub open spec fn new_state(p: PaneSnapshot) -> PanePaintState {
    PanePaintState {
        last_seqno: p.seqno,
        top: p.stable_top,
        cursor: if cursor_visible(p) {
            Some(CursorPos { col: p.cursor_x, row: p.cursor_y })
        } else {
            None
        },
        selection: p.selection,
    }
}

/// The pane states after the first `n` panes were painted.
pub open spec fn states_after(old: Map<u64, PanePaintState>, panes: Seq<PaneSnapshot>, n: int) -> Map<
    u64,
    PanePaintState,
>
    decreases n,
{
    if n <= 0 {
        old
    } else {
        states_after(old, panes, n - 1).insert(panes[n - 1].layout.pane_id, new_state(panes[n - 1]))
    }
}

/// The ids of the first `n` panes.
pub open spec fn pane_ids(panes: Seq<PaneSnapshot>, n: int) -> Set<u64>
    decreases n,
{
    if n <= 0 {
        Set::empty()
    } else {
        pane_ids(panes, n - 1).insert(panes[n - 1].layout.pane_id)
    }
}

/// The planned cells of the first `n` panes, each pane judged against the
/// state the panes before it left.
pub open spec fn frame_cells(
    old: Map<u64, PanePaintState>,
    panes: Seq<PaneSnapshot>,
    full: bool,
    g: FrameGeometry,
    colors: FrameColors,
    n: int,
) -> Seq<GdiCellView>
    decreases n,
{
    if n <= 0 {
        Seq::empty()
    } else {
        let p = panes[n - 1];
        frame_cells(old, panes, full, g, colors, n - 1) + pane_plan(
            full,
            p,
            state_of(states_after(old, panes, n - 1), p.layout.pane_id),
            g,
            colors,
            p.lines.len() as int,
        )
    }
}

/// The planned cursors of the first `n` panes.
pub open spec fn frame_cursors(panes: Seq<PaneSnapshot>, g: FrameGeometry, colors: FrameColors, n: int) -> Seq<
    GdiCursorView,
>
    decreases n,
{
    if n <= 0 {
        Seq::empty()
    } else {
        frame_cursors(panes, g, colors, n - 1) + match cursor_plan(panes[n - 1], g, colors) {
            Some(c) => seq![c],
            None => Seq::empty(),
        }
    }
}

/// The layout of each pane.
pub open spec fn layouts(panes: Seq<PaneSnapshot>) -> Seq<PaneLayout> {
    panes.map_values(|p: PaneSnapshot| p.layout)
}

/// A pane that was painted before with the same viewport top.
pub open spec fn kept_top(old: Map<u64, PanePaintState>, p: PaneSnapshot) -> bool {
    old.contains_key(p.layout.pane_id) && old[p.layout.pane_id].top == p.stable_top
}

/// A frame is cleared and painted whole when a full paint was asked for,
/// when the layout changed, or when some pane is new or scrolled.
pub open spec fn frame_is_full(prev: GdiPaintState, panes: Seq<PaneSnapshot>) -> bool {
    ||| prev.needs_full_paint
    ||| prev.last_layout@ != layouts(panes)
    ||| exists|i: int| 0 <= i < panes.len() && !kept_top(entries_map(prev.pane_states@), #[trigger] panes[i])
}

/// The pixel row of the tab bar.
pub open spec fn tab_y(g: FrameGeometry) -> int {
    if g.tab_at_bottom && g.pixel_height >= g.ch {
        g.pixel_height - g.ch
    } else {
        0
    }
}

/// The number of columns the window is wide.
pub open spec fn tab_cols(g: FrameGeometry) -> int {
    g.pixel_width as int / if g.cw > 0 {
        g.cw as int
    } else {
        1
    }
}

/// The tab bar is painted: it is shown, and the frame is full or the line
/// changed.
pub open spec fn tab_drawn(full: bool, tab: TabBarSnapshot, g: FrameGeometry) -> bool {
    g.show_tab_bar && (full || tab.changed)
}

/// The planned cells of the tab bar: its line across the whole width.
pub open spec fn tab_plan(full: bool, tab: TabBarSnapshot, g: FrameGeometry, colors: FrameColors) -> Seq<
    GdiCellView,
> {
    if tab_drawn(full, tab, g) {
        line_plan(tab.cells@, 0, tab_y(g), g.cw as int, g.ch as int, colors, None, false, tab_cols(g))
    } else {
        Seq::empty()
    }
}

/// Every planned pixel position of a frame fits in an `i32`; metrics and
/// padding are not negative. (The cell metrics are the GDI font's, which
/// its construction makes at least 1; the padding is the configured
/// window padding in pixels, a size. On these the positions only grow
/// with the row and column, which is what keeps each of them in range.)
pub open spec fn frame_fits(panes: Seq<PaneSnapshot>, tab: TabBarSnapshot, g: FrameGeometry) -> bool {
    &&& 0 <= g.cw
    &&& 0 <= g.ch
    &&& 0 <= g.pad_left
    &&& 0 <= g.pad_top
    &&& g.pixel_height <= i32::MAX
    &&& forall|i: int| 0 <= i < panes.len() ==> pane_fits(#[trigger] panes[i], g)
    &&& g.show_tab_bar ==> line_fits(tab.cells@, 0, g.cw as int, tab_cols(g))
}

proof fn lemma_entries_last(s: Seq<(u64, PanePaintState)>, id: u64, j: int)
    requires
        0 <= j < s.len(),
        s[j].0 == id,
        forall|k: int| j < k < s.len() ==> s[k].0 != id,
    ensures
        entries_map(s).contains_key(id),
        entries_map(s)[id] == s[j].1,
    decreases s.len(),
{
    if j < s.len() - 1 {
        lemma_entries_last(s.drop_last(), id, j);
    }
}

proof fn lemma_entries_none(s: Seq<(u64, PanePaintState)>, id: u64)
    requires
        forall|k: int| 0 <= k < s.len() ==> s[k].0 != id,
    ensures
        !entries_map(s).contains_key(id),
    decreases s.len(),
{
    if s.len() > 0 {
        lemma_entries_none(s.drop_last(), id);
    }
}

/// The entry for pane `id`, if there is one.
fn find_state(entries: &Vec<(u64, PanePaintState)>, id: u64) -> (r: Option<PanePaintState>)
    ensures
        r == (if entries_map(entries@).contains_key(id) {
            Some(entries_map(entries@)[id])
        } else {
            None
        }),
{
    let mut j: usize = entries.len();
    while j > 0
        invariant
            j <= entries.len(),
            forall|k: int| j <= k < entries.len() ==> entries@[k].0 != id,
        decreases j,
    {
        if entries[j - 1].0 == id {
            proof {
                lemma_entries_last(entries@, id, j - 1);
            }
            return Some(entries[j - 1].1);
        }
        j = j - 1;
    }
    proof {
        lemma_entries_none(entries@, id);
    }
    None
}

/// Whether two layouts are equal.
fn same_layout(a: &Vec<PaneLayout>, panes: &Vec<PaneSnapshot>) -> (r: bool)
    ensures
        r == (a@ == layouts(panes@)),
{
    if a.len() != panes.len() {
        assert(a@.len() != layouts(panes@).len());
        return false;
    }
    let mut i: usize = 0;
    while i < a.len()
        invariant
            i <= a.len(),
            a.len() == panes.len(),
            forall|k: int| 0 <= k < i ==> a@[k] == #[trigger] layouts(panes@)[k],
        decreases a.len() - i,
    {
        if a[i] != panes[i].layout {
            assert(a@[i as int] != layouts(panes@)[i as int]);
            return false;
        }
        i = i + 1;
    }
    assert(a@ == layouts(panes@));
    true
}

/// The paint state a pane leaves.
fn paint_state_of(p: &PaneSnapshot) -> (r: PanePaintState)
    ensures
        r == new_state(*p),
{
    PanePaintState {
        last_seqno: p.seqno,
        top: p.stable_top,
        cursor: if p.layout.is_active && p.cursor_shown {
            Some(CursorPos { col: p.cursor_x, row: p.cursor_y })
        } else {
            None
        },
        selection: p.selection,
    }
}

/// Plans one frame of the GDI front end from the state the last frame
/// left, and returns what to draw with the state for the next frame.
///
/// With no pane the frame is cleared whole and the state forgotten.
/// Otherwise the frame is full when a full paint was asked for, the layout
/// changed, or a pane is new or scrolled; each pane's dirty lines are
/// planned cell by cell, with a blank run past the end of each line, then
/// each visible cursor, then the tab bar when it changed. The state kept
/// is the layout and, for each pane of it, what it looked like now.
pub fn gdi_plan_frame(
    prev: &GdiPaintState,
    panes: &Vec<PaneSnapshot>,
    tab: &TabBarSnapshot,
    g: &FrameGeometry,
    colors: &FrameColors,
) -> (r: (GdiFrameData, GdiPaintState))
    requires
        frame_fits(panes@, *tab, *g),
    ensures
        panes.len() == 0 ==> {
            &&& r.0.cells@.len() == 0
            &&& r.0.cursors@.len() == 0
            &&& r.0.full_clear
            &&& !r.0.tab_bar_drawn
            &&& !r.1.needs_full_paint
            &&& r.1.last_layout@.len() == 0
            &&& r.1.pane_states@.len() == 0
        },
        panes.len() > 0 ==> {
            let full = frame_is_full(*prev, panes@);
            let old = entries_map(prev.pane_states@);
            let n = panes.len() as int;
            &&& r.0.full_clear == full
            &&& cells_view(r.0.cells@) == frame_cells(old, panes@, full, *g, *colors, n) + tab_plan(
                full,
                *tab,
                *g,
                *colors,
            )
            &&& cursors_view(r.0.cursors@) == frame_cursors(panes@, *g, *colors, n)
            &&& r.0.tab_bar_drawn == tab_drawn(full, *tab, *g)
            &&& !r.1.needs_full_paint
            &&& r.1.last_layout@ == layouts(panes@)
            &&& entries_map(r.1.pane_states@) == states_after(old, panes@, n).restrict(pane_ids(panes@, n))
            &&& entries_map(r.1.pane_states@).dom() == pane_ids(panes@, n)
        },
{
    if panes.len() == 0 {
        let data = GdiFrameData { cells: Vec::new(), cursors: Vec::new(), full_clear: true, tab_bar_drawn: false };
        let state = GdiPaintState { needs_full_paint: false, last_layout: Vec::new(), pane_states: Vec::new() };
        return (data, state);
    }
    let ghost old = entries_map(prev.pane_states@);
    let mut full = prev.needs_full_paint || !same_layout(&prev.last_layout, panes);
    let mut i: usize = 0;
    while i < panes.len()
        invariant
            i <= panes.len(),
            old == entries_map(prev.pane_states@),
            full == (prev.needs_full_paint || prev.last_layout@ != layouts(panes@) || exists|k: int|
                0 <= k < i && !kept_top(old, #[trigger] panes@[k])),
        decreases panes.len() - i,
    {
        let p = &panes[i];
        let kept = match find_state(&prev.pane_states, p.layout.pane_id) {
            Some(st) => st.top == p.stable_top,
            None => false,
        };
        assert(kept == kept_top(old, panes@[i as int]));
        if !kept {
            full = true;
        }
        i = i + 1;
    }
    let mut cells: Vec<GdiCell> = Vec::new();
    let mut cursors: Vec<GdiCursor> = Vec::new();
    let mut entries: Vec<(u64, PanePaintState)> = Vec::new();
    let mut layout: Vec<PaneLayout> = Vec::new();
    let mut i: usize = 0;
    while i < panes.len()
        invariant
            i <= panes.len(),
            old == entries_map(prev.pane_states@),
            frame_fits(panes@, *tab, *g),
            cells_view(cells@) == frame_cells(old, panes@, full, *g, *colors, i as int),
            cursors_view(cursors@) == frame_cursors(panes@, *g, *colors, i as int),
            states_after(old, panes@, i as int) == old.union_prefer_right(entries_map(entries@)),
            entries_map(entries@).dom() == pane_ids(panes@, i as int),
            layout@ == layouts(panes@).take(i as int),
        decreases panes.len() - i,
    {
        let p = &panes[i];
        let id = p.layout.pane_id;
        let ghost before = entries_map(entries@);
        let ghost before_seq = entries@;
        let prev_state = match find_state(&entries, id) {
            Some(st) => st,
            None => match find_state(&prev.pane_states, id) {
                Some(st) => st,
                None => PanePaintState { last_seqno: 0, top: 0, cursor: None, selection: None },
            },
        };
        assert(prev_state == state_of(states_after(old, panes@, i as int), id));
        assert(pane_fits(panes@[i as int], *g));
        plan_pane(&mut cells, full, p, &prev_state, g, colors);
        let ghost cursors_before = cursors@;
        match plan_cursor(p, g, colors) {
            Some(c) => {
                cursors.push(c);
                assert(cursors_view(cursors@) == cursors_view(cursors_before).push(c@));
            },
            None => {
                assert(cursors@ == cursors_before);
            },
        }
        let st = paint_state_of(p);
        entries.push((id, st));
        layout.push(p.layout);
        proof {
            assert(entries_map(entries@) == before.insert(id, st)) by {
                assert(entries@.drop_last() =~= before_seq);
                assert(entries@.last() == (id, st));
            }
            assert(states_after(old, panes@, i + 1) =~= old.union_prefer_right(entries_map(entries@)));
            assert(entries_map(entries@).dom() =~= pane_ids(panes@, i + 1));
            assert(layouts(panes@).take(i + 1) =~= layouts(panes@).take(i as int).push(p.layout));
        }
        i = i + 1;
    }
    assert(layouts(panes@).take(i as int) =~= layouts(panes@));
    let tab_drawn_now = g.show_tab_bar && (full || tab.changed);
    if tab_drawn_now {
        let y: i32 = if g.tab_at_bottom && g.pixel_height >= g.ch as usize {
            (g.pixel_height as i32) - g.ch
        } else {
            0
        };
        let div: usize = if g.cw > 0 {
            g.cw as usize
        } else {
            1
        };
        let cols: usize = g.pixel_width / div;
        plan_line(&mut cells, &tab.cells, 0, y, g.cw, g.ch, colors, None, false, cols);
    }
    proof {
        let n = panes.len() as int;
        let e = entries_map(entries@);
        assert(states_after(old, panes@, n).restrict(pane_ids(panes@, n)) =~= e);
    }
    let data = GdiFrameData { cells, cursors, full_clear: full, tab_bar_drawn: tab_drawn_now };
    let state = GdiPaintState { needs_full_paint: false, last_layout: layout, pane_states: entries };
    (data, state)
}


proof fn lemma_states_after_last(old: Map<u64, PanePaintState>, panes: Seq<PaneSnapshot>, n: int, i: int)
    requires
        0 <= i < n <= panes.len(),
        forall|j: int| i < j < n ==> (#[trigger] panes[j]).layout.pane_id != panes[i].layout.pane_id,
    ensures
        states_after(old, panes, n).contains_key(panes[i].layout.pane_id),
        states_after(old, panes, n)[panes[i].layout.pane_id] == new_state(panes[i]),
        pane_ids(panes, n).contains(panes[i].layout.pane_id),
    decreases n,
{
    if i < n - 1 {
        lemma_states_after_last(old, panes, n - 1, i);
    }
}

/// Planning again panes that did not change, from the state the last
/// frame of them left, gives an incremental frame: nothing asks for a
/// full paint, the layout is the same, and every pane was painted with
/// the same viewport top. (Two panes sharing an id with different tops
/// would break it; pane ids are distinct.)
pub proof fn law_unchanged_panes_repaint_incrementally(
    state: GdiPaintState,
    old: Map<u64, PanePaintState>,
    panes: Seq<PaneSnapshot>,
)
    requires
        forall|i: int, j: int|
            0 <= i < j < panes.len() ==> (#[trigger] panes[i]).layout.pane_id != (#[trigger] panes[j]).layout.pane_id,
        !state.needs_full_paint,
        state.last_layout@ == layouts(panes),
        entries_map(state.pane_states@) == states_after(old, panes, panes.len() as int).restrict(
            pane_ids(panes, panes.len() as int),
        ),
    ensures
        !frame_is_full(state, panes),
{
    let n = panes.len() as int;
    assert forall|i: int| 0 <= i < n implies kept_top(entries_map(state.pane_states@), #[trigger] panes[i]) by {
        lemma_states_after_last(old, panes, n, i);
    }
}


/// Each visible cell of a line is planned from that cell alone: at its
/// column's pixel (`ox + index * cw`) on the line's row, as many cells
/// wide as it covers (at least one), one cell high, with its own text
/// (none when it is hidden and hidden cells are dropped), its own
/// colours unless its column is selected (then the selection's), the
/// font variant of its weight and slant, and its own underline and
/// strike-through.
pub proof fn law_planned_cell_follows_snapshot(
    cells: Seq<CellSnapshot>,
    ox: int,
    y: int,
    cw: int,
    ch: int,
    colors: FrameColors,
    sel: Option<(usize, usize)>,
    hide_invisible: bool,
    ncols: int,
    k: int,
)
    requires
        0 <= k < cells.len(),
    ensures
        ({
            let c = cells[k];
            let p = line_plan(cells, ox, y, cw, ch, colors, sel, hide_invisible, ncols)[k];
            let selected = match sel {
                Some((a, b)) => a <= c.index && c.index < b,
                None => false,
            };
            &&& p.underline == c.underline
            &&& p.strike == c.strike
            &&& p.x == ox + c.index * cw
            &&& p.y == y
            &&& p.w == (if c.width == 0 {
                1
            } else {
                c.width as int
            }) * cw
            &&& p.h == ch
            &&& p.text == (if hide_invisible && c.invisible {
                Seq::<u16>::empty()
            } else {
                c.text@
            })
            &&& p.fg == (if selected {
                colors.sel_fg
            } else {
                c.fg
            })
            &&& p.bg == (if selected {
                colors.sel_bg
            } else {
                c.bg
            })
            &&& (c.bold && c.italic ==> p.style == FontStyleKey::BoldItalic)
            &&& (c.bold && !c.italic ==> p.style == FontStyleKey::Bold)
            &&& (!c.bold && c.italic ==> p.style == FontStyleKey::Italic)
            &&& (!c.bold && !c.italic ==> p.style == FontStyleKey::Regular)
        }),
{
}

/// Past the visible cells a line plans at most one more cell: a blank,
/// default-coloured run in the regular font with no underline or
/// strike-through, present exactly when the last visible cell ends before
/// column `ncols`, from there to `ncols`.
pub proof fn law_line_tail_is_blank(
    cells: Seq<CellSnapshot>,
    ox: int,
    y: int,
    cw: int,
    ch: int,
    colors: FrameColors,
    sel: Option<(usize, usize)>,
    hide_invisible: bool,
    ncols: int,
)
    ensures
        ({
            let plan = line_plan(cells, ox, y, cw, ch, colors, sel, hide_invisible, ncols);
            let end = if cells.len() == 0 {
                0
            } else {
                cells.last().index + (if cells.last().width == 0 {
                    1
                } else {
                    cells.last().width as int
                })
            };
            &&& plan.len() == cells.len() + (if end < ncols {
                1int
            } else {
                0int
            })
            &&& end < ncols ==> {
                let p = plan[cells.len() as int];
                &&& p.x == ox + end * cw
                &&& p.y == y
                &&& p.w == (ncols - end) * cw
                &&& p.h == ch
                &&& p.text.len() == 0
                &&& p.fg == colors.default_fg
                &&& p.bg == colors.default_bg
                &&& p.style == FontStyleKey::Regular
                &&& !p.underline
                &&& !p.strike
            }
        }),
{
}

} // verus!
