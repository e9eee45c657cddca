use wezterm_core::cell_damage::{detect_dirty_cells, CellDamageState, DirtyCellRect};

fn state(buckets: Vec<u64>, cursors: Vec<(usize, usize)>) -> CellDamageState {
    CellDamageState {
        width: 100,
        height: 50,
        num_cols: 4,
        num_rows: 3,
        cell_buckets: buckets,
        prev_cursor_cells: cursors,
    }
}

fn rect(col: usize, row: usize, width: usize) -> DirtyCellRect {
    DirtyCellRect { col, row, width, height: 1 }
}

#[test]
fn size_change_or_no_previous_frame_redraws_all() {
    let cur = vec![1u64; 12];
    let (r, full) = detect_dirty_cells(&state(vec![1; 12], vec![]), &cur, &[], 101, 50, 4, 3);
    assert!(full && r.is_empty());
    let (r, full) = detect_dirty_cells(&state(vec![], vec![]), &cur, &[], 100, 50, 4, 3);
    assert!(full && r.is_empty());
}

#[test]
fn changed_cells_and_cursors_make_row_runs() {
    let prev = vec![1u64; 12];
    let mut cur = prev.clone();
    cur[1] = 2;
    cur[2] = 2;
    let (r, full) = detect_dirty_cells(&state(prev, vec![(3, 1)]), &cur, &[(0, 2)], 100, 50, 4, 3);
    assert!(!full);
    assert_eq!(r, vec![rect(1, 0, 2), rect(3, 1, 1), rect(0, 2, 1)]);
}

#[test]
fn cursors_outside_the_grid_are_ignored_and_runs_reach_the_end() {
    let prev = vec![1u64; 12];
    let mut cur = prev.clone();
    cur[6] = 9;
    cur[7] = 9;
    let (r, full) = detect_dirty_cells(&state(prev, vec![(9, 0), (0, 7)]), &cur, &[], 100, 50, 4, 3);
    assert!(!full);
    assert_eq!(r, vec![rect(2, 1, 2)]);
}

#[test]
fn more_than_half_dirty_redraws_all() {
    let prev = vec![1u64; 12];
    let mut cur = vec![2u64; 12];
    cur[0] = 1;
    cur[1] = 1;
    cur[2] = 1;
    cur[3] = 1;
    cur[4] = 1;
    // 7 of 12 changed
    let (r, full) = detect_dirty_cells(&state(prev.clone(), vec![]), &cur, &[], 100, 50, 4, 3);
    assert!(full && r.is_empty());
    cur[5] = 1;
    // exactly half is not more than half
    let (_, full) = detect_dirty_cells(&state(prev, vec![]), &cur, &[], 100, 50, 4, 3);
    assert!(!full);
}

#[test]
fn runs_are_maximal_and_cover_every_dirty_cell() {
    let prev = vec![0u64; 12];
    let cur: Vec<u64> = vec![1, 0, 1, 1, 0, 0, 0, 0, 1, 0, 0, 0];
    let (r, full) = detect_dirty_cells(&state(prev, vec![]), &cur, &[], 100, 50, 4, 3);
    assert!(!full);
    assert_eq!(r, vec![rect(0, 0, 1), rect(2, 0, 2), rect(0, 2, 1)]);
}
