//! Damage detection of the Cairo renderer: which screen cells changed
//! since the last frame (their content hash differs, or a cursor is or
//! was on them), and the row-wise runs of changed cells to repaint.
use vstd::prelude::*;

verus! {

/// A run of cells to repaint.
#[derive(Clone, Copy, Debug, PartialEq, Eq, Structural)]
pub struct DirtyCellRect {
    /// Starting column (cell index)
    pub col: usize,
    /// Starting row (cell index)
    pub row: usize,
    /// Number of cells wide
    pub width: usize,
    /// Number of cells tall
    pub height: usize,
}

/// What the last frame left for damage detection.
#[derive(Clone, Debug)]
pub struct CellDamageState {
    pub width: i32,
    pub height: i32,
    pub num_cols: usize,
    pub num_rows: usize,
    /// The content hash of each cell, row by row.
    pub cell_buckets: Vec<u64>,
    /// The cells (column, row) the cursor covered.
    pub prev_cursor_cells: Vec<(usize, usize)>,
}

/// The previous hash of cell `i` (0 past the end).
pub open spec fn prev_hash(prev: Seq<u64>, i: int) -> u64 {
    if 0 <= i < prev.len() {
        prev[i]
    } else {
        0
    }
}

/// Some cursor cell inside the grid is cell `i`.
pub open spec fn cursor_on(cells: Seq<(usize, usize)>, ncols: int, nrows: int, i: int) -> bool {
    exists|j: int|
        0 <= j < cells.len() && cells[j].0 < ncols && cells[j].1 < nrows && #[trigger] cells[j].1 * ncols
            + cells[j].0 == i
}

/// Cell `i` must be repainted: its hash changed, or a cursor is or was
/// on it.
pub open spec fn cell_dirty(
    prev: Seq<u64>,
    cur: Seq<u64>,
    prev_cursors: Seq<(usize, usize)>,
    cur_cursors: Seq<(usize, usize)>,
    ncols: int,
    nrows: int,
    i: int,
) -> bool {
    ||| 0 <= i < cur.len() && cur[i] != prev_hash(prev, i)
    ||| cursor_on(prev_cursors, ncols, nrows, i)
    ||| cursor_on(cur_cursors, ncols, nrows, i)
}

/// The number of `true` entries.
pub open spec fn count_true(s: Seq<bool>) -> nat
    decreases s.len(),
{
    if s.len() == 0 {
        0
    } else {
        count_true(s.drop_last()) + if s.last() {
            1nat
        } else {
            0nat
        }
    }
}

/// The length of the run of `true` entries that `s` starts with.
pub open spec fn leading_run(s: Seq<bool>) -> nat
    decreases s.len(),
{
    if s.len() == 0 || !s[0] {
        0
    } else {
        1 + leading_run(s.drop_first())
    }
}

/// The maximal runs of `true` entries of row `row` of the grid, whose
/// entries `s` start at column `col`, from left to right.
pub open spec fn runs(s: Seq<bool>, row: int, col: int) -> Seq<DirtyCellRect>
    decreases s.len(),
{
    if s.len() == 0 {
        seq![]
    } else if !s[0] {
        runs(s.drop_first(), row, col + 1)
    } else {
        let k = leading_run(s);
        proof {
            lemma_leading_run_le(s);
            assert(k >= 1);
        }
        seq![DirtyCellRect { col: col as usize, row: row as usize, width: k as usize, height: 1 }] + runs(
            s.skip(k as int),
            row,
            col + k,
        )
    }
}

/// The runs of the first `r` rows of a grid `ncols` wide.
pub open spec fn grid_runs(bits: Seq<bool>, ncols: int, r: int) -> Seq<DirtyCellRect>
    decreases r,
{
    if r <= 0 {
        seq![]
    } else {
        grid_runs(bits, ncols, r - 1) + runs(bits.subrange((r - 1) * ncols, r * ncols), r - 1, 0)
    }
}

/// A leading run is no longer than the entries, holds only `true`
/// entries, and is ended by a `false` one or by the end.
pub proof fn lemma_leading_run_le(s: Seq<bool>)
    ensures
        leading_run(s) <= s.len(),
        forall|i: int| 0 <= i < leading_run(s) ==> #[trigger] s[i],
        leading_run(s) < s.len() ==> !s[leading_run(s) as int],
    decreases s.len(),
{
    if s.len() > 0 && s[0] {
        lemma_leading_run_le(s.drop_first());
        assert forall|i: int| 0 <= i < leading_run(s) implies #[trigger] s[i] by {
            if i > 0 {
                assert(s[i] == s.drop_first()[i - 1]);
            }
        }
    }
}

proof fn lemma_leading_run_of(s: Seq<bool>, k: int)
    requires
        0 <= k <= s.len(),
        forall|i: int| 0 <= i < k ==> #[trigger] s[i],
        k == s.len() || !s[k],
    ensures
        leading_run(s) == k,
    decreases s.len(),
{
    if k > 0 {
        lemma_leading_run_of(s.drop_first(), k - 1);
    }
}

/// The maximal runs of dirty cells of one row of the grid.
fn row_runs(out: &mut Vec<DirtyCellRect>, bits: &Vec<bool>, base: usize, ncols: usize, row: usize)
    requires
        base + ncols <= bits.len(),
    ensures
        final(out)@ == old(out)@ + runs(bits@.subrange(base as int, base + ncols), row as int, 0),
{
    let ghost start = out@;
    let ghost s = bits@.subrange(base as int, base + ncols);
    let mut col: usize = 0;
    assert(s.skip(0) =~= s);
    while col < ncols
        invariant
            col <= ncols,
            base + ncols <= bits.len(),
            s == bits@.subrange(base as int, base + ncols),
            start + runs(s, row as int, 0) == out@ + runs(s.skip(col as int), row as int, col as int),
        decreases ncols - col,
    {
        let ghost t = s.skip(col as int);
        assert(t[0] == bits@[base + col]);
        if !bits[base + col] {
            assert(t.drop_first() =~= s.skip(col + 1));
            col = col + 1;
        } else {
            let mut end: usize = col + 1;
            while end < ncols && bits[base + end]
                invariant
                    col < end <= ncols,
                    base + ncols <= bits.len(),
                    forall|i: int| col <= i < end ==> #[trigger] bits@[base + i],
                decreases ncols - end,
            {
                end = end + 1;
            }
            proof {
                assert forall|i: int| 0 <= i < end - col implies #[trigger] t[i] by {
                    assert(t[i] == bits@[base + (col + i)]);
                }
                if end < ncols {
                    assert(t[end - col] == bits@[base + end]);
                }
                lemma_leading_run_of(t, end - col);
                assert(t.skip(end - col) =~= s.skip(end as int));
            }
            out.push(DirtyCellRect { col, row, width: end - col, height: 1 });
            col = end;
        }
    }
    assert(s.skip(col as int) =~= seq![]);
}

/// Which cells of the grid are dirty, row by row.
pub open spec fn dirty_bits(
    st: CellDamageState,
    cur: Seq<u64>,
    cur_cursors: Seq<(usize, usize)>,
    ncols: usize,
    nrows: usize,
) -> Seq<bool> {
    Seq::new(
        (nrows * ncols) as nat,
        |i: int| cell_dirty(st.cell_buckets@, cur, st.prev_cursor_cells@, cur_cursors, ncols as int, nrows as int, i),
    )
}

/// The full-redraw verdict and repaint runs of a frame.
pub open spec fn detect_spec(
    st: CellDamageState,
    cur: Seq<u64>,
    cur_cursors: Seq<(usize, usize)>,
    width: i32,
    height: i32,
    ncols: usize,
    nrows: usize,
) -> (Seq<DirtyCellRect>, bool) {
    if st.width != width || st.height != height || st.num_cols != ncols || st.num_rows != nrows
        || st.cell_buckets.len() == 0 {
        (seq![], true)
    } else {
        let n = nrows * ncols;
        let bits = dirty_bits(st, cur, cur_cursors, ncols, nrows);
        if 2 * count_true(bits) > (if n == 0 {
            1
        } else {
            n
        }) {
            (seq![], true)
        } else {
            (grid_runs(bits, ncols as int, nrows as int), false)
        }
    }
}

proof fn lemma_cell_index(col: int, row: int, ncols: int, nrows: int)
    requires
        0 <= col < ncols,
        0 <= row < nrows,
    ensures
        0 <= row * ncols + col < nrows * ncols,
{
    assert(row * ncols + col < (row + 1) * ncols) by (nonlinear_arith)
        requires
            col < ncols,
    ;
    assert((row + 1) * ncols <= nrows * ncols) by (nonlinear_arith)
        requires
            row + 1 <= nrows,
            ncols > 0,
    ;
    assert(row * ncols >= 0) by (nonlinear_arith)
        requires
            row >= 0,
            ncols > 0,
    ;
}

/// Marks the cells of the cursors inside the grid.
fn mark_cursors(
    bits: &mut Vec<bool>,
    cells: &[(usize, usize)],
    ncols: usize,
    nrows: usize,
)
    requires
        old(bits).len() == nrows * ncols,
    ensures
        final(bits).len() == old(bits).len(),
        forall|i: int|
            0 <= i < final(bits).len() ==> #[trigger] final(bits)@[i] == (old(bits)@[i] || cursor_on(
                cells@,
                ncols as int,
                nrows as int,
                i,
            )),
{
    let ghost start = bits@;
    let mut j: usize = 0;
    while j < cells.len()
        invariant
            j <= cells.len(),
            bits.len() == nrows * ncols,
            start.len() == bits.len(),
            forall|i: int|
                0 <= i < bits.len() ==> #[trigger] bits@[i] == (start[i] || cursor_on(
                    cells@.take(j as int),
                    ncols as int,
                    nrows as int,
                    i,
                )),
        decreases cells.len() - j,
    {
        let (col, row) = cells[j];
        let ghost before = bits@;
        if col < ncols && row < nrows {
            proof {
                lemma_cell_index(col as int, row as int, ncols as int, nrows as int);
            }
            let idx = row * ncols + col;
            bits.set(idx, true);
        }
        proof {
            let t = cells@.take(j + 1);
            assert forall|i: int| 0 <= i < bits.len() implies #[trigger] bits@[i] == (start[i] || cursor_on(
                t,
                ncols as int,
                nrows as int,
                i,
            )) by {
                if cursor_on(t, ncols as int, nrows as int, i) {
                    let q = choose|q: int|
                        0 <= q < t.len() && t[q].0 < ncols && t[q].1 < nrows && #[trigger] (t[q].1 * ncols
                            + t[q].0) == i;
                    if q < j {
                        assert(cells@.take(j as int)[q] == t[q]);
                    }
                }
                if cursor_on(cells@.take(j as int), ncols as int, nrows as int, i) {
                    let q = choose|q: int|
                        0 <= q < j && cells@.take(j as int)[q].0 < ncols && cells@.take(j as int)[q].1 < nrows
                            && #[trigger] (cells@.take(j as int)[q].1 * ncols + cells@.take(j as int)[q].0) == i;
                    assert(t[q] == cells@.take(j as int)[q]);
                }
                if col < ncols && row < nrows && i == row * ncols + col {
                    assert(t[j as int] == (col, row));
                }
            }
        }
        j = j + 1;
    }
    assert(cells@.take(j as int) =~= cells@);
}

/// Detect which screen cells have changed since the last frame.
///
/// A change of the window or grid size, or no previous frame, asks for a
/// full redraw. Otherwise a cell is dirty when its hash differs from the
/// last frame's (a missing previous hash counts as 0) or a cursor covers
/// it now or covered it then; when more than half of the cells are dirty
/// a full redraw is asked for, else the dirty cells are returned as the
/// maximal row-wise runs, row by row from the left.
pub fn detect_dirty_cells(
    state: &CellDamageState,
    current_cell_buckets: &[u64],
    current_cursor_cells: &[(usize, usize)],
    width: i32,
    height: i32,
    num_cols: usize,
    num_rows: usize,
) -> (r: (Vec<DirtyCellRect>, bool))
    requires
        num_rows * num_cols <= usize::MAX,
        forall|k: int|
            num_rows * num_cols <= k < current_cell_buckets@.len() ==> #[trigger] current_cell_buckets@[k]
                == prev_hash(state.cell_buckets@, k),
    ensures
        (r.0@, r.1) == detect_spec(
            *state,
            current_cell_buckets@,
            current_cursor_cells@,
            width,
            height,
            num_cols,
            num_rows,
        ),
{
    if state.width != width || state.height != height || state.num_cols != num_cols || state.num_rows
        != num_rows || state.cell_buckets.len() == 0 {
        return (Vec::new(), true);
    }
    let n = num_rows * num_cols;
    let ghost prev = state.cell_buckets@;
    let ghost cur = current_cell_buckets@;
    let mut bits: Vec<bool> = Vec::new();
    let mut i: usize = 0;
    while i < n
        invariant
            i <= n,
            n == num_rows * num_cols,
            cur == current_cell_buckets@,
            prev == state.cell_buckets@,
            bits@.len() == i,
            forall|k: int| 0 <= k < i ==> #[trigger] bits@[k] == (k < cur.len() && cur[k] != prev_hash(prev, k)),
        decreases n - i,
    {
        let changed = if i < current_cell_buckets.len() {
            let p: u64 = if i < state.cell_buckets.len() {
                state.cell_buckets[i]
            } else {
                0
            };
            current_cell_buckets[i] != p
        } else {
            false
        };
        bits.push(changed);
        i = i + 1;
    }
    mark_cursors(&mut bits, state.prev_cursor_cells.as_slice(), num_cols, num_rows);
    mark_cursors(&mut bits, current_cursor_cells, num_cols, num_rows);
    let ghost spec_bits = Seq::new(
        n as nat,
        |k: int|
            cell_dirty(
                prev,
                cur,
                state.prev_cursor_cells@,
                current_cursor_cells@,
                num_cols as int,
                num_rows as int,
                k,
            ),
    );
    assert(bits@ =~= spec_bits);
    let mut count: usize = 0;
    let mut k: usize = 0;
    while k < n
        invariant
            k <= n,
            bits@.len() == n,
            count == count_true(bits@.take(k as int)),
            count <= k,
        decreases n - k,
    {
        assert(bits@.take(k + 1).drop_last() =~= bits@.take(k as int));
        if bits[k] {
            count = count + 1;
        }
        k = k + 1;
    }
    assert(bits@.take(n as int) =~= bits@);
    let cells: usize = if n == 0 {
        1
    } else {
        n
    };
    if count > cells / 2 {
        return (Vec::new(), true);
    }
    let mut out: Vec<DirtyCellRect> = Vec::new();
    let mut row: usize = 0;
    while row < num_rows
        invariant
            row <= num_rows,
            bits@.len() == num_rows * num_cols,
            num_rows * num_cols <= usize::MAX,
            bits@ == spec_bits,
            out@ == grid_runs(spec_bits, num_cols as int, row as int),
        decreases num_rows - row,
    {
        proof {
            assert((row + 1) * num_cols <= num_rows * num_cols && row * num_cols + num_cols == (row + 1)
                * num_cols && row * num_cols >= 0) by (nonlinear_arith)
                requires
                    row + 1 <= num_rows,
            ;
        }
        let base = row * num_cols;
        row_runs(&mut out, &bits, base, num_cols, row);
        row = row + 1;
    }
    (out, false)
}


/// `e` is a maximal run of `true` entries of a row whose entries `s`
/// start at column `c0`: one row high, at least one cell wide, all of
/// its cells `true`, and the cells just before and after it (if in the
/// row) `false`.
pub open spec fn maximal_run(e: DirtyCellRect, s: Seq<bool>, row: int, c0: int) -> bool {
    &&& e.row == row
    &&& e.height == 1
    &&& e.width >= 1
    &&& c0 <= e.col
    &&& e.col + e.width <= c0 + s.len()
    &&& forall|c: int| e.col - c0 <= c < e.col - c0 + e.width ==> #[trigger] s[c]
    &&& (e.col == c0 || !s[e.col - 1 - c0])
    &&& (e.col + e.width == c0 + s.len() || !s[e.col + e.width - c0])
}

/// Every `true` entry of `s` (whose entries start at column `c0`) lies in
/// one of the runs.
pub open spec fn runs_cover(out: Seq<DirtyCellRect>, s: Seq<bool>, c0: int) -> bool {
    forall|c: int|
        0 <= c < s.len() && #[trigger] s[c] ==> exists|k: int|
            0 <= k < out.len() && #[trigger] out[k].col <= c0 + c < out[k].col + out[k].width
}

/// The runs go from left to right, apart.
pub open spec fn runs_ordered(out: Seq<DirtyCellRect>) -> bool {
    forall|k: int, l: int| 0 <= k < l < out.len() ==> #[trigger] out[k].col + out[k].width < #[trigger] out[l].col
}

/// The runs of a row are exactly its maximal runs of `true` entries,
/// from left to right.
pub proof fn law_runs_are_maximal(s: Seq<bool>, row: int, c0: int)
    requires
        0 <= row <= usize::MAX,
        0 <= c0,
        c0 + s.len() <= usize::MAX,
    ensures
        forall|k: int| 0 <= k < runs(s, row, c0).len() ==> maximal_run(#[trigger] runs(s, row, c0)[k], s, row, c0),
        runs_cover(runs(s, row, c0), s, c0),
        runs_ordered(runs(s, row, c0)),
    decreases s.len(),
{
    let out = runs(s, row, c0);
    if s.len() == 0 {
    } else if !s[0] {
        let t = s.drop_first();
        law_runs_are_maximal(t, row, c0 + 1);
        assert(out == runs(t, row, c0 + 1));
        assert forall|k: int| 0 <= k < out.len() implies maximal_run(#[trigger] out[k], s, row, c0) by {
            let e = out[k];
            assert(maximal_run(e, t, row, c0 + 1));
            assert forall|c: int| e.col - c0 <= c < e.col - c0 + e.width implies #[trigger] s[c] by {
                assert(t[c - 1]);
                assert(s[c] == t[c - 1]);
            }
            if e.col == c0 + 1 {
                assert(!s[0]);
            } else {
                assert(!t[e.col - 1 - (c0 + 1)]);
                assert(s[e.col - 1 - c0] == t[e.col - 1 - (c0 + 1)]);
            }
            if e.col + e.width != c0 + s.len() {
                assert(s[e.col + e.width - c0] == t[e.col + e.width - (c0 + 1)]);
            }
        }
        assert forall|c: int| 0 <= c < s.len() && #[trigger] s[c] implies exists|k: int|
            0 <= k < out.len() && #[trigger] out[k].col <= c0 + c < out[k].col + out[k].width by {
            assert(c >= 1);
            assert(t[c - 1] == s[c]);
            assert(runs_cover(out, t, c0 + 1));
        }
    } else {
        let k0 = leading_run(s);
        lemma_leading_run_le(s);
        let t = s.skip(k0 as int);
        let first = DirtyCellRect { col: c0 as usize, row: row as usize, width: k0 as usize, height: 1 };
        let rest = runs(t, row, c0 + k0);
        law_runs_are_maximal(t, row, c0 + k0);
        assert(out == seq![first] + rest);
        assert(maximal_run(first, s, row, c0));
        assert forall|k: int| 0 <= k < rest.len() implies rest[k].col > c0 + k0 by {
            let e = rest[k];
            assert(maximal_run(e, t, row, c0 + k0));
            if e.col == c0 + k0 {
                assert(t[0]);
                assert(t[0] == s[k0 as int]);
            }
        }
        assert forall|k: int| 0 <= k < out.len() implies maximal_run(#[trigger] out[k], s, row, c0) by {
            if k > 0 {
                let e = out[k];
                assert(e == rest[k - 1]);
                assert(maximal_run(e, t, row, c0 + k0));
                assert forall|c: int| e.col - c0 <= c < e.col - c0 + e.width implies #[trigger] s[c] by {
                    assert(t[c - k0]);
                    assert(s[c] == t[c - k0]);
                }
                assert(e.col > c0 + k0);
                assert(!t[e.col - 1 - (c0 + k0)]);
                assert(s[e.col - 1 - c0] == t[e.col - 1 - (c0 + k0)]);
                if e.col + e.width != c0 + s.len() {
                    assert(s[e.col + e.width - c0] == t[e.col + e.width - (c0 + k0)]);
                }
            }
        }
        assert forall|c: int| 0 <= c < s.len() && #[trigger] s[c] implies exists|k: int|
            0 <= k < out.len() && #[trigger] out[k].col <= c0 + c < out[k].col + out[k].width by {
            if c < k0 {
                assert(out[0] == first);
            } else {
                assert(t[c - k0] == s[c]);
                assert(runs_cover(rest, t, c0 + k0));
                let q = choose|q: int| 0 <= q < rest.len() && #[trigger] rest[q].col <= (c0 + k0) + (c - k0) < rest[q].col + rest[q].width;
                assert(out[q + 1] == rest[q]);
            }
        }
        assert forall|k: int, l: int| 0 <= k < l < out.len() implies #[trigger] out[k].col + out[k].width < #[trigger] out[l].col by {
            assert(out[l] == rest[l - 1]);
            if k > 0 {
                assert(out[k] == rest[k - 1]);
            } else {
                assert(out[k] == first);
            }
        }
    }
}


/// The entries of row `r` of a grid `ncols` wide.
pub open spec fn row_bits(bits: Seq<bool>, ncols: int, r: int) -> Seq<bool> {
    bits.subrange(r * ncols, (r + 1) * ncols)
}

/// The runs of the first `nrows` rows of a grid are exactly the maximal
/// runs of `true` entries of each row, ordered by row, then from left to
/// right.
pub proof fn law_grid_runs_are_maximal(bits: Seq<bool>, ncols: int, nrows: int)
    requires
        0 <= ncols <= usize::MAX,
        0 <= nrows <= usize::MAX,
        nrows * ncols <= bits.len(),
    ensures
        forall|k: int|
            0 <= k < grid_runs(bits, ncols, nrows).len() ==> 0 <= (#[trigger] grid_runs(bits, ncols, nrows)[k]).row
                < nrows && maximal_run(
                grid_runs(bits, ncols, nrows)[k],
                row_bits(bits, ncols, grid_runs(bits, ncols, nrows)[k].row as int),
                grid_runs(bits, ncols, nrows)[k].row as int,
                0,
            ),
        forall|r: int, c: int|
            0 <= r < nrows && 0 <= c < ncols && #[trigger] row_bits(bits, ncols, r)[c] ==> exists|k: int|
                0 <= k < grid_runs(bits, ncols, nrows).len() && (#[trigger] grid_runs(bits, ncols, nrows)[k]).row
                    == r && grid_runs(bits, ncols, nrows)[k].col <= c < grid_runs(bits, ncols, nrows)[k].col
                    + grid_runs(bits, ncols, nrows)[k].width,
        forall|k: int, l: int|
            0 <= k < l < grid_runs(bits, ncols, nrows).len() ==> (#[trigger] grid_runs(bits, ncols, nrows)[k]).row
                < (#[trigger] grid_runs(bits, ncols, nrows)[l]).row || (grid_runs(bits, ncols, nrows)[k].row
                == grid_runs(bits, ncols, nrows)[l].row && grid_runs(bits, ncols, nrows)[k].col
                + grid_runs(bits, ncols, nrows)[k].width < grid_runs(bits, ncols, nrows)[l].col),
    decreases nrows,
{
    if nrows > 0 {
        let r = nrows - 1;
        assert(r * ncols + ncols == nrows * ncols && r * ncols >= 0 && (r * ncols <= nrows * ncols)) by (nonlinear_arith)
            requires
                r == nrows - 1,
                ncols >= 0,
                nrows >= 1,
        ;
        law_grid_runs_are_maximal(bits, ncols, r);
        let g0 = grid_runs(bits, ncols, r);
        let rb = row_bits(bits, ncols, r);
        assert(rb.len() == ncols);
        law_runs_are_maximal(rb, r, 0);
        let rest = runs(rb, r, 0);
        let g = grid_runs(bits, ncols, nrows);
        assert(g == g0 + rest);
        assert forall|k: int| 0 <= k < g.len() implies 0 <= (#[trigger] g[k]).row < nrows && maximal_run(
            g[k],
            row_bits(bits, ncols, g[k].row as int),
            g[k].row as int,
            0,
        ) by {
            if k < g0.len() {
                assert(g[k] == g0[k]);
            } else {
                assert(g[k] == rest[k - g0.len()]);
                assert(maximal_run(rest[k - g0.len()], rb, r, 0));
            }
        }
        assert forall|q: int, c: int|
            0 <= q < nrows && 0 <= c < ncols && #[trigger] row_bits(bits, ncols, q)[c] implies exists|k: int|
                0 <= k < g.len() && (#[trigger] g[k]).row == q && g[k].col <= c < g[k].col + g[k].width by {
            if q < r {
                let k = choose|k: int|
                    0 <= k < g0.len() && (#[trigger] g0[k]).row == q && g0[k].col <= c < g0[k].col + g0[k].width;
                assert(g[k] == g0[k]);
            } else {
                assert(runs_cover(rest, rb, 0));
                let k = choose|k: int| 0 <= k < rest.len() && #[trigger] rest[k].col <= 0 + c < rest[k].col + rest[k].width;
                assert(maximal_run(rest[k], rb, r, 0));
                assert(g[g0.len() + k] == rest[k]);
            }
        }
        assert forall|k: int, l: int| 0 <= k < l < g.len() implies (#[trigger] g[k]).row < (#[trigger] g[l]).row
            || (g[k].row == g[l].row && g[k].col + g[k].width < g[l].col) by {
            if l < g0.len() {
                assert(g[k] == g0[k] && g[l] == g0[l]);
            } else if k < g0.len() {
                assert(g[k] == g0[k] && g0[k].row < r);
                assert(g[l] == rest[l - g0.len()]);
                assert(maximal_run(rest[l - g0.len()], rb, r, 0));
            } else {
                assert(g[k] == rest[k - g0.len()] && g[l] == rest[l - g0.len()]);
                assert(maximal_run(rest[k - g0.len()], rb, r, 0));
                assert(maximal_run(rest[l - g0.len()], rb, r, 0));
            }
        }
    }
}


/// A change of the window's width or height, or of the grid's columns or
/// rows, or no previous frame, asks for a full redraw and no runs.
pub proof fn law_size_change_redraws_all(
    st: CellDamageState,
    cur: Seq<u64>,
    cur_cursors: Seq<(usize, usize)>,
    width: i32,
    height: i32,
    ncols: usize,
    nrows: usize,
)
    requires
        st.width != width || st.height != height || st.num_cols != ncols || st.num_rows != nrows
            || st.cell_buckets@.len() == 0,
    ensures
        detect_spec(st, cur, cur_cursors, width, height, ncols, nrows).0.len() == 0,
        detect_spec(st, cur, cur_cursors, width, height, ncols, nrows).1,
{
}

proof fn lemma_count_none(s: Seq<bool>)
    requires
        forall|i: int| 0 <= i < s.len() ==> !#[trigger] s[i],
    ensures
        count_true(s) == 0,
    decreases s.len(),
{
    if s.len() > 0 {
        lemma_count_none(s.drop_last());
    }
}

proof fn lemma_runs_none(s: Seq<bool>, row: int, col: int)
    requires
        forall|i: int| 0 <= i < s.len() ==> !#[trigger] s[i],
    ensures
        runs(s, row, col).len() == 0,
    decreases s.len(),
{
    if s.len() > 0 {
        lemma_runs_none(s.drop_first(), row, col + 1);
    }
}

proof fn lemma_grid_none(bits: Seq<bool>, ncols: int, r: int)
    requires
        0 <= ncols,
        0 <= r,
        r * ncols <= bits.len(),
        forall|i: int| 0 <= i < bits.len() ==> !#[trigger] bits[i],
    ensures
        grid_runs(bits, ncols, r).len() == 0,
    decreases r,
{
    if r > 0 {
        assert((r - 1) * ncols + ncols == r * ncols && (r - 1) * ncols >= 0) by (nonlinear_arith)
            requires
                r >= 1,
                ncols >= 0,
        ;
        lemma_grid_none(bits, ncols, r - 1);
        let rb = bits.subrange((r - 1) * ncols, r * ncols);
        lemma_runs_none(rb, r - 1, 0);
    }
}

/// A frame of the same size whose cells all hash as before, with no
/// cursor now or before, needs no redraw and has no runs.
pub proof fn law_unchanged_frame_is_quiet(
    st: CellDamageState,
    cur: Seq<u64>,
    width: i32,
    height: i32,
    ncols: usize,
    nrows: usize,
)
    requires
        st.width == width,
        st.height == height,
        st.num_cols == ncols,
        st.num_rows == nrows,
        st.cell_buckets@.len() > 0,
        st.prev_cursor_cells@.len() == 0,
        forall|i: int| 0 <= i < cur.len() ==> #[trigger] cur[i] == (if i < st.cell_buckets@.len() {
            st.cell_buckets@[i]
        } else {
            0
        }),
    ensures
        detect_spec(st, cur, seq![], width, height, ncols, nrows).0.len() == 0,
        !detect_spec(st, cur, seq![], width, height, ncols, nrows).1,
{
    let bits = dirty_bits(st, cur, seq![], ncols, nrows);
    assert forall|i: int| 0 <= i < bits.len() implies !#[trigger] bits[i] by {
        if 0 <= i < cur.len() {
            assert(cur[i] == prev_hash(st.cell_buckets@, i));
        }
    }
    lemma_count_none(bits);
    lemma_grid_none(bits, ncols as int, nrows as int);
}

} // verus!
