use wezterm_core::gdi_frame::{
    gdi_plan_frame, style_for, CellSnapshot, CursorPos, CursorShape, FontStyleKey, FrameColors,
    FrameGeometry, GdiPaintState, LineSnapshot, PaneLayout, PanePaintState, PaneSnapshot,
    SelectionSpan, TabBarSnapshot,
};

fn cell(index: usize, width: usize, ch: char) -> CellSnapshot {
    CellSnapshot {
        index,
        width,
        text: vec![ch as u16],
        fg: 7,
        bg: 0,
        bold: false,
        italic: false,
        underline: false,
        strike: false,
        invisible: false,
    }
}

fn line(seqno: u64, cells: Vec<CellSnapshot>) -> LineSnapshot {
    LineSnapshot { seqno, selected_cols: None, cells }
}

fn pane(id: u64, seqno: u64, lines: Vec<LineSnapshot>) -> PaneSnapshot {
    PaneSnapshot {
        layout: PaneLayout { pane_id: id, left: 0, top: 0, width: 4, height: 2, is_active: true },
        stable_top: 10,
        first_row: 10,
        lines,
        seqno,
        cursor_x: 1,
        cursor_y: 11,
        cursor_shown: true,
        cursor_shape: CursorShape::SteadyBlock,
        selection: None,
    }
}

fn colors() -> FrameColors {
    FrameColors {
        default_fg: 100,
        default_bg: 200,
        sel_fg: 300,
        sel_bg: 400,
        cursor_fg: 500,
        cursor_bg: 600,
        focused: true,
    }
}

fn geometry() -> FrameGeometry {
    FrameGeometry {
        cw: 8,
        ch: 16,
        pad_left: 2,
        pad_top: 3,
        pixel_width: 40,
        pixel_height: 100,
        show_tab_bar: false,
        tab_at_bottom: false,
    }
}

fn no_tab() -> TabBarSnapshot {
    TabBarSnapshot { cells: vec![], changed: false }
}

fn fresh() -> GdiPaintState {
    GdiPaintState { needs_full_paint: true, last_layout: vec![], pane_states: vec![] }
}

#[test]
fn style_follows_weight_and_slant() {
    assert_eq!(style_for(false, false), FontStyleKey::Regular);
    assert_eq!(style_for(true, false), FontStyleKey::Bold);
    assert_eq!(style_for(false, true), FontStyleKey::Italic);
    assert_eq!(style_for(true, true), FontStyleKey::BoldItalic);
}

#[test]
fn no_pane_clears_everything() {
    let (data, state) = gdi_plan_frame(&fresh(), &vec![], &no_tab(), &geometry(), &colors());
    assert!(data.full_clear);
    assert!(data.cells.is_empty());
    assert!(data.cursors.is_empty());
    assert!(!state.needs_full_paint);
    assert!(state.pane_states.is_empty());
}

#[test]
fn first_frame_is_full_with_cell_geometry_and_trailing_blank() {
    let panes = vec![pane(1, 5, vec![line(5, vec![cell(0, 1, 'a'), cell(1, 2, 'b')]), line(5, vec![])])];
    let (data, state) = gdi_plan_frame(&fresh(), &panes, &no_tab(), &geometry(), &colors());
    assert!(data.full_clear);
    // line 0: 'a' at x = 2, 'b' two columns wide, then a blank over column 3
    assert_eq!(data.cells.len(), 4);
    assert_eq!((data.cells[0].x, data.cells[0].y, data.cells[0].w, data.cells[0].h), (2, 3, 8, 16));
    assert_eq!((data.cells[1].x, data.cells[1].w), (10, 16));
    assert_eq!((data.cells[2].x, data.cells[2].w, data.cells[2].bg), (26, 8, 200));
    assert!(data.cells[2].text.is_empty());
    // line 1 is empty: one blank across the pane, one row down
    assert_eq!((data.cells[3].x, data.cells[3].y, data.cells[3].w), (2, 19, 32));
    // the cursor sits on line 1, column 1
    assert_eq!(data.cursors.len(), 1);
    assert_eq!((data.cursors[0].x, data.cursors[0].y), (10, 19));
    assert!(data.cursors[0].text.is_empty());
    assert_eq!(state.pane_states.len(), 1);
    assert_eq!(state.pane_states[0].0, 1);
    assert_eq!(state.pane_states[0].1.last_seqno, 5);
    assert_eq!(state.pane_states[0].1.cursor, Some(CursorPos { col: 1, row: 11 }));
    assert_eq!(state.last_layout.len(), 1);
}

#[test]
fn unchanged_pane_repaints_only_the_cursor_row() {
    let panes = vec![pane(1, 5, vec![line(5, vec![cell(0, 1, 'a')]), line(5, vec![cell(0, 1, 'c')])])];
    let (_, state) = gdi_plan_frame(&fresh(), &panes, &no_tab(), &geometry(), &colors());
    let (data, _) = gdi_plan_frame(&state, &panes, &no_tab(), &geometry(), &colors());
    assert!(!data.full_clear);
    // only line 1 (the cursor's) is planned: its cell and a blank
    assert_eq!(data.cells.len(), 2);
    assert!(data.cells.iter().all(|c| c.y == 19));
}

#[test]
fn changed_line_is_dirty_and_selection_recolours() {
    let panes = vec![pane(1, 5, vec![line(5, vec![cell(0, 1, 'a')]), line(5, vec![cell(0, 1, 'c')])])];
    let (_, state) = gdi_plan_frame(&fresh(), &panes, &no_tab(), &geometry(), &colors());
    let mut next = panes.clone();
    next[0].lines[0].seqno = 6;
    next[0].lines[0].selected_cols = Some((0, 1));
    next[0].selection = Some(SelectionSpan { start_col: 0, start_row: 10, end_col: 0, end_row: 10, rectangular: false });
    let (data, state2) = gdi_plan_frame(&state, &next, &no_tab(), &geometry(), &colors());
    assert!(!data.full_clear);
    assert_eq!(data.cells.len(), 4);
    assert_eq!((data.cells[0].y, data.cells[0].fg, data.cells[0].bg), (3, 300, 400));
    assert!(state2.pane_states[0].1.selection.is_some());
}

#[test]
fn scrolled_or_new_pane_forces_a_full_frame() {
    let panes = vec![pane(1, 5, vec![line(5, vec![])])];
    let (_, state) = gdi_plan_frame(&fresh(), &panes, &no_tab(), &geometry(), &colors());
    let mut scrolled = panes.clone();
    scrolled[0].stable_top = 11;
    let (data, _) = gdi_plan_frame(&state, &scrolled, &no_tab(), &geometry(), &colors());
    assert!(data.full_clear);
    let mut moved = panes.clone();
    moved[0].layout.left = 1;
    let (data, _) = gdi_plan_frame(&state, &moved, &no_tab(), &geometry(), &colors());
    assert!(data.full_clear);
}

#[test]
fn stale_panes_are_dropped_from_the_state() {
    let prev = GdiPaintState {
        needs_full_paint: false,
        last_layout: vec![],
        pane_states: vec![(9, PanePaintState { last_seqno: 1, top: 0, cursor: None, selection: None })],
    };
    let panes = vec![pane(1, 5, vec![line(5, vec![])])];
    let (_, state) = gdi_plan_frame(&prev, &panes, &no_tab(), &geometry(), &colors());
    assert_eq!(state.pane_states.len(), 1);
    assert_eq!(state.pane_states[0].0, 1);
}

#[test]
fn tab_bar_is_drawn_when_changed_at_the_bottom() {
    let mut g = geometry();
    g.show_tab_bar = true;
    g.tab_at_bottom = true;
    let tab = TabBarSnapshot { cells: vec![cell(0, 1, 't')], changed: true };
    let panes = vec![pane(1, 5, vec![])];
    let (data, _) = gdi_plan_frame(&fresh(), &panes, &tab, &g, &colors());
    assert!(data.tab_bar_drawn);
    let n = data.cells.len();
    // the tab cell and a blank over the remaining 4 of 5 columns, at y = 100 - 16
    assert_eq!((data.cells[n - 2].x, data.cells[n - 2].y), (0, 84));
    assert_eq!((data.cells[n - 1].x, data.cells[n - 1].w), (8, 32));
}
