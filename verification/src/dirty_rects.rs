//! Damage tracking of the software renderer: dirty rectangles, the clip
//! regions they cut out of a quad, clearing them in a BGRA frame
//! buffer, and full-width bands for uploading them.
use vstd::prelude::*;

verus! {

/// A rectangle of pixels that must be painted again.
#[derive(Clone, Debug)]
pub struct DirtyRect {
    pub x: i32,
    pub y: i32,
    pub width: i32,
    pub height: i32,
}

/// The right and bottom edges of a rectangle fit in an `i32`.
pub open spec fn edges_fit(r: DirtyRect) -> bool {
    i32::MIN <= r.x + r.width <= i32::MAX && i32::MIN <= r.y + r.height <= i32::MAX
}

/// The smaller of two integers.
pub open spec fn min_int(a: int, b: int) -> int {
    if a <= b {
        a
    } else {
        b
    }
}

/// The larger of two integers.
pub open spec fn max_int(a: int, b: int) -> int {
    if a >= b {
        a
    } else {
        b
    }
}

/// The part of the quad `[dx, dx2) x [dy, dy2)` inside `r`, as
/// `[x, y, x2, y2]`, when they overlap.
pub open spec fn clip_of(dx: int, dy: int, dx2: int, dy2: int, r: DirtyRect) -> Option<Seq<i32>> {
    let rx2 = r.x + r.width;
    let ry2 = r.y + r.height;
    if dx < rx2 && dx2 > r.x && dy < ry2 && dy2 > r.y {
        Some(
            seq![
                max_int(dx, r.x as int) as i32,
                max_int(dy, r.y as int) as i32,
                min_int(dx2, rx2) as i32,
                min_int(dy2, ry2) as i32,
            ],
        )
    } else {
        None
    }
}

/// The clip regions of a quad: its overlap with each rectangle it
/// meets, in order.
pub open spec fn clip_rects(dx: int, dy: int, dx2: int, dy2: int, rs: Seq<DirtyRect>) -> Seq<
    Seq<i32>,
>
    decreases rs.len(),
{
    if rs.len() == 0 {
        seq![]
    } else {
        clip_rects(dx, dy, dx2, dy2, rs.drop_last()) + match clip_of(dx, dy, dx2, dy2, rs.last()) {
            Some(c) => seq![c],
            None => seq![],
        }
    }
}

/// Collect per-dirty-rect clip regions for a quad: each entry is the
/// intersection of the quad with one dirty rect, so that a large quad
/// does not overwrite the clean area between two dirty rects. `out` is
/// cleared first.
pub fn collect_clip_rects(
    dest_x: i32,
    dest_y: i32,
    dest_x2: i32,
    dest_y2: i32,
    rects: &[DirtyRect],
    out: &mut Vec<[i32; 4]>,
)
    requires
        forall|i: int| 0 <= i < rects@.len() ==> #[trigger] edges_fit(rects@[i]),
    ensures
        final(out)@.map_values(|a: [i32; 4]| a@) == clip_rects(
            dest_x as int,
            dest_y as int,
            dest_x2 as int,
            dest_y2 as int,
            rects@,
        ),
{
    out.clear();
    let mut i: usize = 0;
    assert(out@.map_values(|a: [i32; 4]| a@) =~= seq![]);
    while i < rects.len()
        invariant
            i <= rects@.len(),
            forall|j: int| 0 <= j < rects@.len() ==> #[trigger] edges_fit(rects@[j]),
            out@.map_values(|a: [i32; 4]| a@) == clip_rects(
                dest_x as int,
                dest_y as int,
                dest_x2 as int,
                dest_y2 as int,
                rects@.take(i as int),
            ),
        decreases rects.len() - i,
    {
        let r = &rects[i];
        assert(edges_fit(rects@[i as int]));
        let rx2 = r.x + r.width;
        let ry2 = r.y + r.height;
        let ghost prev = out@;
        if dest_x < rx2 && dest_x2 > r.x && dest_y < ry2 && dest_y2 > r.y {
            let a = if dest_x >= r.x {
                dest_x
            } else {
                r.x
            };
            let b = if dest_y >= r.y {
                dest_y
            } else {
                r.y
            };
            let c = if dest_x2 <= rx2 {
                dest_x2
            } else {
                rx2
            };
            let d = if dest_y2 <= ry2 {
                dest_y2
            } else {
                ry2
            };
            let arr: [i32; 4] = [a, b, c, d];
            assert(arr@ =~= seq![a, b, c, d]);
            out.push(arr);
            assert(out@.map_values(|a: [i32; 4]| a@) =~= prev.map_values(|a: [i32; 4]| a@).push(
                arr@,
            ));
        }
        assert(rects@.take(i + 1).drop_last() == rects@.take(i as int));
        i = i + 1;
    }
    assert(rects@.take(i as int) == rects@);
}

/// The first column that `clear_rect` clears: the left edge, clamped to
/// the frame.
pub open spec fn clear_x0(r: DirtyRect, fb_w: int) -> int {
    min_int(max_int(r.x as int, 0), fb_w)
}

/// The column after the last one that `clear_rect` clears: the right
/// edge, clamped to the frame and to no less than the first column.
pub open spec fn clear_x1(r: DirtyRect, fb_w: int) -> int {
    max_int(max_int(min_int(r.x + r.width, fb_w), 0), clear_x0(r, fb_w))
}

/// The first row that `clear_rect` clears.
pub open spec fn clear_y0(r: DirtyRect) -> int {
    max_int(r.y as int, 0)
}

/// The row after the last one that `clear_rect` clears: the bottom
/// edge, clamped to the frame.
pub open spec fn clear_y1(r: DirtyRect, fb_h: int) -> int {
    max_int(min_int(r.y + r.height, fb_h), 0)
}

/// Byte `i` lies in the part of a row `y` of the rectangle that is
/// cleared: the row's bytes lie inside the buffer of `len` bytes.
pub open spec fn in_cleared_row(i: int, y: int, fb_w: int, r: DirtyRect, len: int) -> bool {
    (y * fb_w + clear_x1(r, fb_w)) * 4 <= len && (y * fb_w + clear_x0(r, fb_w)) * 4 <= i < (y * fb_w
        + clear_x1(r, fb_w)) * 4
}

/// Byte `i` lies in a cleared row before row `ylim`.
pub open spec fn cleared_before(i: int, ylim: int, fb_w: int, r: DirtyRect, len: int) -> bool {
    exists|y: int| clear_y0(r) <= y < ylim && #[trigger] in_cleared_row(i, y, fb_w, r, len)
}

/// Byte `i` of a buffer of `len` bytes is cleared: it belongs to a pixel
/// of the rectangle (within the frame) whose row lies wholly in the
/// buffer.
pub open spec fn cleared(i: int, fb_w: int, fb_h: int, r: DirtyRect, len: int) -> bool {
    cleared_before(i, clear_y1(r, fb_h), fb_w, r, len)
}

/// The inputs on which `clear_rect` works: a rectangle of non-negative
/// size whose far edges fit an `i32`, and a frame whose byte count fits
/// a `usize`.
pub open spec fn clear_rect_ok(fb_w: int, fb_h: int, r: DirtyRect) -> bool {
    &&& edges_fit(r)
    &&& r.width >= 0
    &&& r.height >= 0
    &&& fb_w * fb_h * 4 <= usize::MAX
}

proof fn lemma_cleared_step(i: int, y: int, fb_w: int, r: DirtyRect, len: int)
    requires
        clear_y0(r) <= y,
    ensures
        cleared_before(i, y + 1, fb_w, r, len) == (cleared_before(i, y, fb_w, r, len)
            || in_cleared_row(i, y, fb_w, r, len)),
{
    if cleared_before(i, y + 1, fb_w, r, len) {
        let w = choose|w: int| clear_y0(r) <= w < y + 1 && #[trigger] in_cleared_row(i, w, fb_w, r, len);
        if w < y {
            assert(cleared_before(i, y, fb_w, r, len));
        }
    }
    if cleared_before(i, y, fb_w, r, len) {
        let w = choose|w: int| clear_y0(r) <= w < y && #[trigger] in_cleared_row(i, w, fb_w, r, len);
        assert(in_cleared_row(i, w, fb_w, r, len));
    }
}

/// Pixel `(px, py)` lies in the rectangle.
pub open spec fn in_rect(r: DirtyRect, px: int, py: int) -> bool {
    r.x <= px < r.x + r.width && r.y <= py < r.y + r.height
}

proof fn lemma_row_of(w: int, y: int, py: int, px: int, k: int, a: int, b: int)
    requires
        0 <= px < w,
        0 <= k < 4,
        0 <= a,
        b <= w,
        (y * w + a) * 4 <= 4 * (py * w + px) + k,
        4 * (py * w + px) + k < (y * w + b) * 4,
    ensures
        y == py,
        a <= px < b,
{
    if y < py {
        assert(y * w + w <= py * w) by (nonlinear_arith)
            requires
                y + 1 <= py,
                w > 0,
        ;
    } else if y > py {
        assert(py * w + w <= y * w) by (nonlinear_arith)
            requires
                py + 1 <= y,
                w > 0,
        ;
    }
}

/// In a frame buffer of exactly `4 * fb_w * fb_h` bytes, a byte of pixel
/// `(px, py)` is cleared exactly when the pixel lies in the rectangle.
proof fn lemma_cleared_pixel(w: int, h: int, r: DirtyRect, px: int, py: int, k: int)
    requires
        0 <= px < w,
        0 <= py < h,
        0 <= k < 4,
    ensures
        0 <= 4 * (py * w + px) + k < 4 * w * h,
        cleared(4 * (py * w + px) + k, w, h, r, 4 * w * h) == in_rect(r, px, py),
{
    let i = 4 * (py * w + px) + k;
    let len = 4 * w * h;
    assert(py * w + w <= h * w) by (nonlinear_arith)
        requires
            py + 1 <= h,
            w > 0,
    ;
    assert(4 * w * h == 4 * (h * w)) by (nonlinear_arith);
    assert(py * w >= 0) by (nonlinear_arith)
        requires
            py >= 0,
            w > 0,
    ;
    if in_rect(r, px, py) {
        assert(in_cleared_row(i, py, w, r, len));
        assert(cleared_before(i, clear_y1(r, h), w, r, len));
    }
    if cleared(i, w, h, r, len) {
        let y = choose|y: int| clear_y0(r) <= y < clear_y1(r, h) && #[trigger] in_cleared_row(i, y, w, r, len);
        lemma_row_of(w, y, py, px, k, clear_x0(r, w), clear_x1(r, w));
    }
}

/// Clear a rectangular region of a BGRA frame buffer (four bytes a
/// pixel, `fb_w` pixels a row) to zero; a row that would run past the
/// end of the buffer is left alone.
pub fn clear_rect(fb: &mut Vec<u8>, fb_w: usize, fb_h: usize, rect: &DirtyRect)
    requires
        clear_rect_ok(fb_w as int, fb_h as int, *rect),
    ensures
        final(fb)@.len() == old(fb)@.len(),
        forall|i: int|
            0 <= i < old(fb)@.len() ==> #[trigger] final(fb)@[i] == (if cleared(
                i,
                fb_w as int,
                fb_h as int,
                *rect,
                old(fb)@.len() as int,
            ) {
                0u8
            } else {
                old(fb)@[i]
            }),
        old(fb)@.len() == 4 * fb_w * fb_h ==> forall|px: int, py: int, k: int|
            0 <= px < fb_w && 0 <= py < fb_h && 0 <= k < 4 ==> #[trigger] final(fb)@[4 * (py * fb_w + px) + k]
                == (if in_rect(*rect, px, py) {
                0u8
            } else {
                old(fb)@[4 * (py * fb_w + px) + k]
            }),
{
    let ghost r = *rect;
    let ghost len = fb@.len() as int;
    let ghost w = fb_w as int;
    let x0: usize = if rect.x < 0 {
        0
    } else if (rect.x as usize) <= fb_w {
        rect.x as usize
    } else {
        fb_w
    };
    let y0: usize = if rect.y >= 0 {
        rect.y as usize
    } else {
        0
    };
    let ex = rect.x + rect.width;
    let ey = rect.y + rect.height;
    let mut x1: usize = if ex < 0 {
        0
    } else if (ex as usize) <= fb_w {
        ex as usize
    } else {
        fb_w
    };
    if x1 < x0 {
        x1 = x0;
    }
    let y1: usize = if ey < 0 {
        0
    } else if (ey as usize) <= fb_h {
        ey as usize
    } else {
        fb_h
    };
    assert(x0 == clear_x0(r, w) && x1 == clear_x1(r, w));
    assert(y0 == clear_y0(r) && y1 == clear_y1(r, fb_h as int));
    assert(x0 <= x1 && x1 <= fb_w);
    let mut y: usize = y0;
    while y < y1
        invariant
            y0 <= y,
            y == y0 || y <= y1,
            y1 == clear_y1(r, fb_h as int),
            y1 <= fb_h,
            x0 <= x1 <= fb_w,
            x0 == clear_x0(r, w),
            x1 == clear_x1(r, w),
            y0 == clear_y0(r),
            w == fb_w as int,
            fb_w * fb_h * 4 <= usize::MAX,
            fb@.len() == len,
            forall|i: int|
                0 <= i < len ==> #[trigger] fb@[i] == (if cleared_before(i, y as int, w, r, len) {
                    0u8
                } else {
                    old(fb)@[i]
                }),
        decreases y1 - y,
    {
        assert((y * fb_w + x1) * 4 <= fb_w * fb_h * 4) by (nonlinear_arith)
            requires
                y < fb_h,
                x1 <= fb_w,
        {
            assert(y * fb_w + x1 <= (fb_h - 1) * fb_w + fb_w);
        }
        let row_start = (y * fb_w + x0) * 4;
        let row_end = (y * fb_w + x1) * 4;
        proof {
            assert forall|i: int| 0 <= i < len implies #[trigger] cleared_before(i, y + 1, w, r, len)
                == (cleared_before(i, y as int, w, r, len) || in_cleared_row(i, y as int, w, r, len)) by {
                lemma_cleared_step(i, y as int, w, r, len);
            }
        }
        if row_end <= fb.len() {
            let mut i: usize = row_start;
            while i < row_end
                invariant
                    row_start <= i <= row_end,
                    row_end <= len,
                    row_start == (y * w + x0) * 4,
                    row_end == (y * w + x1) * 4,
                    x1 == clear_x1(r, w),
                    x0 == clear_x0(r, w),
                    fb@.len() == len,
                    forall|j: int|
                        0 <= j < len ==> #[trigger] fb@[j] == (if cleared_before(j, y as int, w, r, len)
                            || (row_start <= j < i) {
                            0u8
                        } else {
                            old(fb)@[j]
                        }),
                decreases row_end - i,
            {
                fb[i] = 0;
                i = i + 1;
            }
            assert forall|j: int| 0 <= j < len implies #[trigger] fb@[j] == (if cleared_before(
                j,
                y + 1,
                w,
                r,
                len,
            ) {
                0u8
            } else {
                old(fb)@[j]
            }) by {
                assert(cleared_before(j, y + 1, w, r, len) == (cleared_before(j, y as int, w, r, len)
                    || in_cleared_row(j, y as int, w, r, len)));
            }
        } else {
            assert forall|j: int| 0 <= j < len implies #[trigger] fb@[j] == (if cleared_before(
                j,
                y + 1,
                w,
                r,
                len,
            ) {
                0u8
            } else {
                old(fb)@[j]
            }) by {
                assert(!in_cleared_row(j, y as int, w, r, len));
                assert(cleared_before(j, y + 1, w, r, len) == (cleared_before(j, y as int, w, r, len)
                    || in_cleared_row(j, y as int, w, r, len)));
            }
        }
        y = y + 1;
    }
    assert forall|i: int| 0 <= i < len implies cleared_before(i, y as int, w, r, len) == cleared(
        i,
        w,
        fb_h as int,
        r,
        len,
    ) by {
        if y != y1 {
            if cleared_before(i, y as int, w, r, len) {
                let k = choose|k: int| clear_y0(r) <= k < y && #[trigger] in_cleared_row(i, k, w, r, len);
            }
            if cleared(i, w, fb_h as int, r, len) {
                let k = choose|k: int| clear_y0(r) <= k < y1 && #[trigger] in_cleared_row(i, k, w, r, len);
            }
        }
    }
    assert forall|px: int, py: int, k: int|
        old(fb)@.len() == 4 * fb_w * fb_h && 0 <= px < fb_w && 0 <= py < fb_h && 0 <= k < 4 implies #[trigger] fb@[4
            * (py * fb_w + px) + k] == (if in_rect(r, px, py) {
        0u8
    } else {
        old(fb)@[4 * (py * fb_w + px) + k]
    }) by {
        lemma_cleared_pixel(w, fb_h as int, r, px, py, k);
    }
}

/// The rows `[y, y + height)` of a rectangle.
pub open spec fn y_range(r: DirtyRect) -> (i32, i32) {
    (r.y, (r.y + r.height) as i32)
}

/// `sorted` with `x` put after the last range that starts no later than
/// it (ranges that start later move after it).
pub open spec fn insert_by_start(sorted: Seq<(i32, i32)>, x: (i32, i32)) -> Seq<(i32, i32)>
    decreases sorted.len(),
{
    if sorted.len() == 0 {
        seq![x]
    } else if sorted.last().0 <= x.0 {
        sorted.push(x)
    } else {
        insert_by_start(sorted.drop_last(), x).push(sorted.last())
    }
}

/// The ranges in order of their starts; ranges with equal starts keep
/// their order (a stable sort).
pub open spec fn sort_by_start(s: Seq<(i32, i32)>) -> Seq<(i32, i32)>
    decreases s.len(),
{
    if s.len() == 0 {
        seq![]
    } else {
        insert_by_start(sort_by_start(s.drop_last()), s.last())
    }
}

/// The ranges merged from the left: a range that starts at or before
/// the end of the last merged one extends it, any other starts a new
/// one.
pub open spec fn merge_ranges(s: Seq<(i32, i32)>) -> Seq<(i32, i32)>
    decreases s.len(),
{
    if s.len() <= 1 {
        s
    } else {
        let m = merge_ranges(s.drop_last());
        let x = s.last();
        if x.0 <= m.last().1 {
            m.update(
                m.len() - 1,
                (
                    m.last().0,
                    if m.last().1 >= x.1 {
                        m.last().1
                    } else {
                        x.1
                    },
                ),
            )
        } else {
            m.push(x)
        }
    }
}

/// The bands of a list of rectangles: their row ranges sorted by start
/// and merged.
pub open spec fn bands_of(rs: Seq<DirtyRect>) -> Seq<(i32, i32)> {
    merge_ranges(sort_by_start(rs.map_values(|r: DirtyRect| y_range(r))))
}

proof fn lemma_merge_len(s: Seq<(i32, i32)>)
    ensures
        s.len() > 0 ==> merge_ranges(s).len() > 0,
        merge_ranges(s).len() <= s.len(),
    decreases s.len(),
{
    if s.len() > 1 {
        lemma_merge_len(s.drop_last());
    }
}

proof fn lemma_insert_at(s: Seq<(i32, i32)>, x: (i32, i32), p: int)
    requires
        0 <= p <= s.len(),
        forall|j: int| p <= j < s.len() ==> s[j].0 > x.0,
        p == 0 || s[p - 1].0 <= x.0,
    ensures
        insert_by_start(s, x) == s.take(p).push(x) + s.skip(p),
    decreases s.len(),
{
    if s.len() == 0 {
        assert(s.take(p).push(x) + s.skip(p) =~= seq![x]);
    } else if p == s.len() {
        assert(s.take(p) =~= s);
        assert(s.take(p).push(x) + s.skip(p) =~= s.push(x));
    } else {
        lemma_insert_at(s.drop_last(), x, p);
        assert(s.drop_last().take(p) =~= s.take(p));
        assert(s.take(p).push(x) + s.skip(p) =~= (s.drop_last().take(p).push(x) + s.drop_last().skip(
            p,
        )).push(s.last()));
    }
}

/// Coalesce dirty rects into full-width horizontal bands: the row ranges
/// of the rectangles, sorted by start (stably) and merged where they
/// overlap or touch, each as a band `screen_width` wide at column zero.
#[verifier::spinoff_prover]
pub fn coalesce_to_bands(rects: &[DirtyRect], screen_width: u32) -> (r: Vec<DirtyRect>)
    requires
        forall|i: int| 0 <= i < rects@.len() ==> #[trigger] edges_fit(rects@[i]),
        forall|i: int|
            0 <= i < bands_of(rects@).len() ==> i32::MIN <= #[trigger] bands_of(rects@)[i].1
                - bands_of(rects@)[i].0 <= i32::MAX,
    ensures
        r@.len() == bands_of(rects@).len(),
        forall|i: int|
            0 <= i < r@.len() ==> {
                &&& #[trigger] r@[i].x == 0
                &&& r@[i].y == bands_of(rects@)[i].0
                &&& r@[i].width == screen_width as i32
                &&& r@[i].height == bands_of(rects@)[i].1 - bands_of(rects@)[i].0
            },
        r@.len() == 0 <==> rects@.len() == 0,
        forall|i: int| 0 <= i < r@.len() - 1 ==> #[trigger] r@[i].y + r@[i].height < r@[i + 1].y,
        (forall|j: int| 0 <= j < rects@.len() ==> #[trigger] rects@[j].height >= 0) ==> forall|i: int|
            0 <= i < r@.len() ==> #[trigger] r@[i].height >= 0,
        forall|y: int| #[trigger] in_rect_rows(r@, y) == in_rect_rows(rects@, y),
{
    let mut out: Vec<DirtyRect> = Vec::new();
    if rects.len() == 0 {
        assert(rects@.map_values(|r: DirtyRect| y_range(r)) =~= seq![]);
        return out;
    }
    let ghost ranges = rects@.map_values(|r: DirtyRect| y_range(r));
    // The row ranges, sorted by start, stably.
    let mut sorted: Vec<(i32, i32)> = Vec::new();
    let mut i: usize = 0;
    while i < rects.len()
        invariant
            i <= rects@.len(),
            ranges == rects@.map_values(|r: DirtyRect| y_range(r)),
            forall|j: int| 0 <= j < rects@.len() ==> #[trigger] edges_fit(rects@[j]),
            sorted@ == sort_by_start(ranges.take(i as int)),
        decreases rects.len() - i,
    {
        let r = &rects[i];
        assert(edges_fit(rects@[i as int]));
        let x: (i32, i32) = (r.y, r.y + r.height);
        assert(x == ranges[i as int]);
        let mut p: usize = sorted.len();
        while p > 0 && sorted[p - 1].0 > x.0
            invariant
                p <= sorted@.len(),
                forall|j: int| p <= j < sorted@.len() ==> sorted@[j].0 > x.0,
            decreases p,
        {
            p = p - 1;
        }
        proof {
            lemma_insert_at(sorted@, x, p as int);
            assert(ranges.take(i + 1).drop_last() == ranges.take(i as int));
            assert(sorted@.take(p as int).push(x) + sorted@.skip(p as int) =~= sorted@.insert(p as int, x));
        }
        sorted.insert(p, x);
        i = i + 1;
    }
    assert(ranges.take(i as int) == ranges);
    // Merge the ranges that overlap or touch.
    let ghost srt = sorted@;
    proof {
        lemma_merge_len(srt);
    }
    let mut merged: Vec<(i32, i32)> = Vec::new();
    merged.push(sorted[0]);
    let mut k: usize = 1;
    assert(merged@ =~= merge_ranges(srt.take(1)));
    while k < sorted.len()
        invariant
            1 <= k <= sorted@.len(),
            srt == sorted@,
            merged@ == merge_ranges(srt.take(k as int)),
            merged@.len() > 0,
        decreases sorted.len() - k,
    {
        let (start, end) = sorted[k];
        let last = merged.len() - 1;
        let (ls, le) = merged[last];
        proof {
            assert(srt.take(k + 1).drop_last() == srt.take(k as int));
            assert(srt.take(k + 1).last() == srt[k as int]);
        }
        if start <= le {
            let ne = if le >= end {
                le
            } else {
                end
            };
            merged.set(last, (ls, ne));
        } else {
            merged.push((start, end));
        }
        k = k + 1;
    }
    assert(srt.take(k as int) == srt);
    // One full-width band per merged range.
    let ghost bands = merged@;
    assert forall|q: int| 0 <= q < bands.len() implies i32::MIN <= #[trigger] bands[q].1
        - bands[q].0 <= i32::MAX by {
        assert(bands[q] == bands_of(rects@)[q]);
    }
    let width = #[verifier::truncate] (screen_width as i32);
    let mut b: usize = 0;
    while b < merged.len()
        invariant
            b <= merged@.len(),
            bands == merged@,
            bands == bands_of(rects@),
            forall|q: int|
                0 <= q < bands.len() ==> i32::MIN <= #[trigger] bands[q].1 - bands[q].0 <= i32::MAX,
            out@.len() == b,
            width == screen_width as i32,
            forall|q: int|
                0 <= q < b ==> {
                    &&& #[trigger] out@[q].x == 0
                    &&& out@[q].y == bands[q].0
                    &&& out@[q].width == screen_width as i32
                    &&& out@[q].height == bands[q].1 - bands[q].0
                },
        decreases merged.len() - b,
    {
        let (y, y2) = merged[b];
        assert(i32::MIN <= bands[b as int].1 - bands[b as int].0 <= i32::MAX);
        out.push(DirtyRect { x: 0, y, width, height: y2 - y });
        b = b + 1;
    }
    proof {
        lemma_band_facts(rects@);
        let bs = bands_of(rects@);
        assert forall|i: int| 0 <= i < out@.len() - 1 implies #[trigger] out@[i].y + out@[i].height
            < out@[i + 1].y by {
            assert(out@[i].x == 0 && out@[i + 1].x == 0);
            assert(bs[i].1 < bs[i + 1].0);
        }
        assert forall|i: int| 0 <= i < out@.len() implies #[trigger] out@[i].y == bs[i].0 && out@[i].y
            + out@[i].height == bs[i].1 by {
            assert(out@[i].x == 0);
        }
        if forall|j: int| 0 <= j < rects@.len() ==> #[trigger] rects@[j].height >= 0 {
            assert forall|i: int| 0 <= i < out@.len() implies #[trigger] out@[i].height >= 0 by {
                assert(out@[i].x == 0);
                assert(bs[i].0 <= bs[i].1);
            }
        }
        assert forall|y: int| #[trigger] in_rect_rows(out@, y) == in_rect_rows(rects@, y) by {
            law_bands_are_rect_rows(rects@, y);
            let ranges = rects@.map_values(|r: DirtyRect| y_range(r));
            if in_rect_rows(out@, y) {
                let i = choose|i: int| 0 <= i < out@.len() && #[trigger] out@[i].y <= y < out@[i].y + out@[i].height;
                assert(bs[i].0 <= y < bs[i].1);
                assert(in_ranges(bs, y));
                let j = choose|j: int| 0 <= j < ranges.len() && #[trigger] ranges[j].0 <= y < ranges[j].1;
                assert(ranges[j] == y_range(rects@[j]));
                assert(edges_fit(rects@[j]));
                assert(rects@[j].y <= y < rects@[j].y + rects@[j].height);
            }
            if in_rect_rows(rects@, y) {
                let j = choose|j: int| 0 <= j < rects@.len() && #[trigger] rects@[j].y <= y < rects@[j].y + rects@[j].height;
                assert(ranges[j] == y_range(rects@[j]));
                assert(edges_fit(rects@[j]));
                assert(ranges[j].0 <= y < ranges[j].1);
                assert(in_ranges(ranges, y));
                let i = choose|i: int| 0 <= i < bs.len() && #[trigger] bs[i].0 <= y < bs[i].1;
                assert(out@[i].y <= y < out@[i].y + out@[i].height);
            }
        }
    }
    out
}

// ---------------------------------------------------------------------
// Laws
// ---------------------------------------------------------------------
/// A clip region lies inside both the quad and the rectangle it was cut
/// from, and is not empty when the quad and the rectangle are not.
pub proof fn law_clip_inside(dx: i32, dy: i32, dx2: i32, dy2: i32, r: DirtyRect)
    requires
        edges_fit(r),
    ensures
        clip_of(dx as int, dy as int, dx2 as int, dy2 as int, r) matches Some(c) ==> {
            &&& c.len() == 4
            &&& dx <= c[0] && r.x <= c[0]
            &&& dy <= c[1] && r.y <= c[1]
            &&& c[2] <= dx2 && c[2] <= r.x + r.width
            &&& c[3] <= dy2 && c[3] <= r.y + r.height
            &&& (dx < dx2 && r.width > 0 ==> c[0] < c[2])
            &&& (dy < dy2 && r.height > 0 ==> c[1] < c[3])
        },
{
}

/// A sequence with one more item holds what it held and that item.
proof fn lemma_push_contains<A>(t: Seq<A>, x: A)
    ensures
        forall|y: A| t.push(x).contains(y) <==> (t.contains(y) || y == x),
{
    assert forall|y: A| t.push(x).contains(y) <==> (t.contains(y) || y == x) by {
        if t.push(x).contains(y) {
            let k = choose|k: int| 0 <= k < t.len() + 1 && t.push(x)[k] == y;
            if k < t.len() {
                assert(t[k] == y);
            }
        }
        if t.contains(y) {
            let k = choose|k: int| 0 <= k < t.len() && t[k] == y;
            assert(t.push(x)[k] == y);
        }
        if y == x {
            assert(t.push(x)[t.len() as int] == y);
        }
    }
}

/// Ranges in order of their starts.
pub open spec fn sorted_by_start(s: Seq<(i32, i32)>) -> bool {
    forall|i: int, j: int| 0 <= i < j < s.len() ==> s[i].0 <= s[j].0
}

#[verifier::spinoff_prover]
proof fn lemma_insert_sorted(t: Seq<(i32, i32)>, x: (i32, i32))
    requires
        sorted_by_start(t),
    ensures
        sorted_by_start(insert_by_start(t, x)),
        forall|y: (i32, i32)| insert_by_start(t, x).contains(y) <==> (t.contains(y) || y == x),
    decreases t.len(),
{
    if t.len() == 0 {
        lemma_push_contains(t, x);
        assert(t.push(x) =~= seq![x]);
        assert(insert_by_start(t, x) == t.push(x));
        assert forall|y: (i32, i32)| insert_by_start(t, x).contains(y) <==> (t.contains(y) || y
            == x) by {
            assert(t.push(x).contains(y) <==> (t.contains(y) || y == x));
        }
    } else if t.last().0 <= x.0 {
        lemma_push_contains(t, x);
        assert(insert_by_start(t, x) == t.push(x));
        assert forall|y: (i32, i32)| insert_by_start(t, x).contains(y) <==> (t.contains(y) || y
            == x) by {
            assert(t.push(x).contains(y) <==> (t.contains(y) || y == x));
        }
        assert(sorted_by_start(t.push(x))) by {
            assert forall|i: int, j: int| 0 <= i < j < t.push(x).len() implies t.push(x)[i].0
                <= t.push(x)[j].0 by {
                if j == t.len() {
                    assert(t[i].0 <= t[t.len() - 1].0);
                }
            }
        }
    } else {
        let d = t.drop_last();
        assert(sorted_by_start(d));
        lemma_insert_sorted(d, x);
        let r = insert_by_start(d, x);
        assert(d.push(t.last()) =~= t);
        lemma_push_contains(d, t.last());
        lemma_push_contains(r, t.last());
        assert(forall|z: (i32, i32)| #[trigger] r.contains(z) <==> (d.contains(z) || z == x));
        assert(insert_by_start(t, x) == r.push(t.last()));
        assert forall|y: (i32, i32)| insert_by_start(t, x).contains(y) <==> (t.contains(y) || y
            == x) by {
            assert(r.push(t.last()).contains(y) <==> (r.contains(y) || y == t.last()));
            assert(r.contains(y) <==> (d.contains(y) || y == x));
            assert(d.push(t.last()).contains(y) <==> (d.contains(y) || y == t.last()));
        }
        assert forall|k: int| 0 <= k < r.len() implies r[k].0 <= t.last().0 by {
            assert(r.contains(r[k]));
            if d.contains(r[k]) {
                let q = choose|q: int| 0 <= q < d.len() && d[q] == r[k];
                assert(t[q].0 <= t[t.len() - 1].0);
            }
        }
        assert(sorted_by_start(r.push(t.last()))) by {
            assert forall|i: int, j: int| 0 <= i < j < r.push(t.last()).len() implies r.push(
                t.last(),
            )[i].0 <= r.push(t.last())[j].0 by {
                if j == r.len() {
                    assert(r[i].0 <= t.last().0);
                }
            }
        }
    }
}

proof fn lemma_sort_sorted(s: Seq<(i32, i32)>)
    ensures
        sorted_by_start(sort_by_start(s)),
        forall|y: (i32, i32)| sort_by_start(s).contains(y) <==> s.contains(y),
    decreases s.len(),
{
    if s.len() > 0 {
        lemma_sort_sorted(s.drop_last());
        lemma_insert_sorted(sort_by_start(s.drop_last()), s.last());
        assert(s.drop_last().push(s.last()) =~= s);
        lemma_push_contains(s.drop_last(), s.last());
        assert forall|y: (i32, i32)| sort_by_start(s).contains(y) <==> s.contains(y) by {
            assert(sort_by_start(s.drop_last()).contains(y) <==> s.drop_last().contains(y));
            assert(s.drop_last().push(s.last()).contains(y) <==> (s.drop_last().contains(y) || y
                == s.last()));
        }
    } else {
        assert(sort_by_start(s) =~= seq![]);
    }
}

/// Consecutive bands are apart: each ends before the next one starts.
pub open spec fn bands_apart(m: Seq<(i32, i32)>) -> bool {
    forall|i: int| 0 <= i < m.len() - 1 ==> #[trigger] m[i].1 < m[i + 1].0
}

/// Range `x` lies inside band `b`.
pub open spec fn band_covers(b: (i32, i32), x: (i32, i32)) -> bool {
    b.0 <= x.0 && x.1 <= b.1
}

/// No band starts after the start of the last range of `s`.
pub open spec fn starts_by(m: Seq<(i32, i32)>, s: Seq<(i32, i32)>) -> bool {
    forall|i: int| 0 <= i < m.len() ==> #[trigger] m[i].0 <= s.last().0
}

/// Range `x` lies inside some band of `m`.
pub open spec fn covered(m: Seq<(i32, i32)>, x: (i32, i32)) -> bool {
    exists|i: int| 0 <= i < m.len() && #[trigger] band_covers(m[i], x)
}

/// Each range of `s` lies inside some band of `m`.
pub open spec fn covers_all(m: Seq<(i32, i32)>, s: Seq<(i32, i32)>) -> bool {
    forall|j: int| 0 <= j < s.len() ==> #[trigger] covered(m, s[j])
}

proof fn lemma_merge_extend(
    m: Seq<(i32, i32)>,
    d: Seq<(i32, i32)>,
    x: (i32, i32),
    r: Seq<(i32, i32)>,
    s: Seq<(i32, i32)>,
)
    requires
        m.len() > 0,
        d.len() > 0,
        s == d.push(x),
        d.last().0 <= x.0,
        x.0 <= m.last().1,
        r == m.update(
            m.len() - 1,
            (
                m.last().0,
                if m.last().1 >= x.1 {
                    m.last().1
                } else {
                    x.1
                },
            ),
        ),
        bands_apart(m),
        starts_by(m, d),
        covers_all(m, d),
    ensures
        bands_apart(r),
        starts_by(r, s),
        covers_all(r, s),
{
    let l = m.len() - 1;
    assert forall|i: int| 0 <= i < r.len() implies #[trigger] r[i].0 <= s.last().0 by {
        assert(m[i].0 <= d.last().0);
    }
    assert forall|j: int| 0 <= j < s.len() implies #[trigger] covered(r, s[j]) by {
        if j == s.len() - 1 {
            assert(band_covers(r[l], s[j]));
        } else {
            assert(s[j] == d[j]);
            assert(covered(m, d[j]));
            let i = choose|i: int| 0 <= i < m.len() && #[trigger] band_covers(m[i], d[j]);
            assert(band_covers(r[i], s[j]));
        }
    }
    assert forall|i: int| 0 <= i < r.len() - 1 implies #[trigger] r[i].1 < r[i + 1].0 by {
        assert(m[i].1 < m[i + 1].0);
    }
}

proof fn lemma_merge_push(
    m: Seq<(i32, i32)>,
    d: Seq<(i32, i32)>,
    x: (i32, i32),
    s: Seq<(i32, i32)>,
)
    requires
        m.len() > 0,
        d.len() > 0,
        s == d.push(x),
        d.last().0 <= x.0,
        m.last().1 < x.0,
        bands_apart(m),
        starts_by(m, d),
        covers_all(m, d),
    ensures
        bands_apart(m.push(x)),
        starts_by(m.push(x), s),
        covers_all(m.push(x), s),
{
    let r = m.push(x);
    assert forall|i: int| 0 <= i < r.len() implies #[trigger] r[i].0 <= s.last().0 by {
        if i < m.len() {
            assert(m[i].0 <= d.last().0);
        }
    }
    assert forall|j: int| 0 <= j < s.len() implies #[trigger] covered(r, s[j]) by {
        if j == s.len() - 1 {
            assert(band_covers(r[m.len() as int], s[j]));
        } else {
            assert(s[j] == d[j]);
            assert(covered(m, d[j]));
            let i = choose|i: int| 0 <= i < m.len() && #[trigger] band_covers(m[i], d[j]);
            assert(band_covers(r[i], s[j]));
        }
    }
    assert forall|i: int| 0 <= i < r.len() - 1 implies #[trigger] r[i].1 < r[i + 1].0 by {
        if i == m.len() - 1 {
            assert(r[i] == m.last());
        } else {
            assert(m[i].1 < m[i + 1].0);
        }
    }
}

proof fn lemma_merge_step(s: Seq<(i32, i32)>)
    requires
        s.len() > 1,
        sorted_by_start(s),
        merge_ranges(s.drop_last()).len() > 0,
        bands_apart(merge_ranges(s.drop_last())),
        starts_by(merge_ranges(s.drop_last()), s.drop_last()),
        covers_all(merge_ranges(s.drop_last()), s.drop_last()),
    ensures
        merge_ranges(s).len() > 0,
        bands_apart(merge_ranges(s)),
        starts_by(merge_ranges(s), s),
        covers_all(merge_ranges(s), s),
{
    let d = s.drop_last();
    let m = merge_ranges(d);
    let x = s.last();
    assert(d.last().0 <= x.0) by {
        assert(s[s.len() - 2].0 <= s[s.len() - 1].0);
    }
    assert(s == d.push(x));
    if x.0 <= m.last().1 {
        lemma_merge_extend(m, d, x, merge_ranges(s), s);
    } else {
        lemma_merge_push(m, d, x, s);
    }
}

proof fn lemma_merge_cover(s: Seq<(i32, i32)>)
    requires
        sorted_by_start(s),
    ensures
        s.len() > 0 ==> merge_ranges(s).len() > 0,
        bands_apart(merge_ranges(s)),
        starts_by(merge_ranges(s), s),
        covers_all(merge_ranges(s), s),
    decreases s.len(),
{
    if s.len() == 1 {
        assert(band_covers(merge_ranges(s)[0], s[0]));
        assert(covered(merge_ranges(s), s[0]));
        assert(merge_ranges(s)[0].0 == s.last().0);
    } else if s.len() > 1 {
        assert(sorted_by_start(s.drop_last()));
        lemma_merge_cover(s.drop_last());
        lemma_merge_step(s);
    }
}

/// The bands are apart (each ends before the next starts), and the row
/// range of every rectangle lies inside one of them.
pub proof fn law_bands_cover_rects(rs: Seq<DirtyRect>)
    ensures
        bands_apart(bands_of(rs)),
        forall|j: int| 0 <= j < rs.len() ==> #[trigger] covered(bands_of(rs), y_range(rs[j])),
{
    let ranges = rs.map_values(|r: DirtyRect| y_range(r));
    let srt = sort_by_start(ranges);
    let m = merge_ranges(srt);
    lemma_sort_sorted(ranges);
    lemma_merge_cover(srt);
    assert forall|j: int| 0 <= j < rs.len() implies #[trigger] covered(m, y_range(rs[j])) by {
        assert(ranges[j] == y_range(rs[j]));
        assert(ranges.contains(ranges[j]));
        assert(srt.contains(ranges[j]));
        let q = choose|q: int| 0 <= q < srt.len() && srt[q] == ranges[j];
        assert(covered(m, srt[q]));
    }
}


/// Row `y` lies in the rows `[y, y + height)` of one of the rectangles.
pub open spec fn in_rect_rows(rs: Seq<DirtyRect>, y: int) -> bool {
    exists|j: int| 0 <= j < rs.len() && #[trigger] rs[j].y <= y < rs[j].y + rs[j].height
}

/// Row `y` lies in one of the ranges.
pub open spec fn in_ranges(s: Seq<(i32, i32)>, y: int) -> bool {
    exists|j: int| 0 <= j < s.len() && #[trigger] s[j].0 <= y < s[j].1
}

proof fn lemma_merge_within(s: Seq<(i32, i32)>, y: int)
    ensures
        in_ranges(merge_ranges(s), y) ==> in_ranges(s, y),
    decreases s.len(),
{
    if s.len() > 1 {
        let d = s.drop_last();
        let m = merge_ranges(d);
        let x = s.last();
        let r = merge_ranges(s);
        lemma_merge_within(d, y);
        lemma_merge_len(d);
        if in_ranges(r, y) {
            let i = choose|i: int| 0 <= i < r.len() && #[trigger] r[i].0 <= y < r[i].1;
            let in_x = x.0 <= y < x.1;
            if !in_x {
                if x.0 <= m.last().1 {
                    assert(r[i].0 == m[i].0);
                    assert(m[i].0 <= y < m[i].1);
                } else {
                    assert(i < m.len());
                    assert(m[i].0 <= y < m[i].1);
                }
                assert(in_ranges(m, y));
                let j = choose|j: int| 0 <= j < d.len() && #[trigger] d[j].0 <= y < d[j].1;
                assert(s[j] == d[j]);
            } else {
                assert(s[s.len() - 1].0 <= y < s[s.len() - 1].1);
            }
        }
    }
}

/// The bands cover exactly the rows of the rectangles: row `y` lies in
/// some band if and only if it lies in the rows `[y, y + height)` of
/// some rectangle.
pub proof fn law_bands_are_rect_rows(rs: Seq<DirtyRect>, y: int)
    ensures
        in_ranges(bands_of(rs), y) == in_ranges(rs.map_values(|r: DirtyRect| y_range(r)), y),
{
    let ranges = rs.map_values(|r: DirtyRect| y_range(r));
    let srt = sort_by_start(ranges);
    lemma_sort_sorted(ranges);
    law_bands_cover_rects(rs);
    lemma_merge_within(srt, y);
    if in_ranges(ranges, y) {
        let j = choose|j: int| 0 <= j < ranges.len() && #[trigger] ranges[j].0 <= y < ranges[j].1;
        assert(ranges[j] == y_range(rs[j]));
        assert(covered(bands_of(rs), y_range(rs[j])));
        let i = choose|i: int| 0 <= i < bands_of(rs).len() && #[trigger] band_covers(bands_of(rs)[i], y_range(rs[j]));
        assert(bands_of(rs)[i].0 <= y < bands_of(rs)[i].1);
    }
    if in_ranges(bands_of(rs), y) {
        let q = choose|q: int| 0 <= q < srt.len() && #[trigger] srt[q].0 <= y < srt[q].1;
        assert(srt.contains(srt[q]));
        assert(ranges.contains(srt[q]));
        let j = choose|j: int| 0 <= j < ranges.len() && ranges[j] == srt[q];
        assert(ranges[j].0 <= y < ranges[j].1);
    }
}


proof fn lemma_merge_nonneg(s: Seq<(i32, i32)>)
    requires
        forall|k: int| 0 <= k < s.len() ==> #[trigger] s[k].0 <= s[k].1,
    ensures
        forall|i: int| 0 <= i < merge_ranges(s).len() ==> #[trigger] merge_ranges(s)[i].0 <= merge_ranges(s)[i].1,
    decreases s.len(),
{
    if s.len() > 1 {
        let d = s.drop_last();
        assert forall|k: int| 0 <= k < d.len() implies #[trigger] d[k].0 <= d[k].1 by {
            assert(d[k] == s[k]);
        }
        lemma_merge_nonneg(d);
        lemma_merge_len(d);
        assert(s[s.len() - 1].0 <= s[s.len() - 1].1);
    }
}

proof fn lemma_band_facts(rs: Seq<DirtyRect>)
    ensures
        bands_of(rs).len() == 0 <==> rs.len() == 0,
        bands_apart(bands_of(rs)),
        (forall|j: int| 0 <= j < rs.len() ==> #[trigger] rs[j].height >= 0)
            && (forall|j: int| 0 <= j < rs.len() ==> #[trigger] edges_fit(rs[j])) ==> forall|i: int|
            0 <= i < bands_of(rs).len() ==> #[trigger] bands_of(rs)[i].0 <= bands_of(rs)[i].1,
{
    let ranges = rs.map_values(|r: DirtyRect| y_range(r));
    let srt = sort_by_start(ranges);
    lemma_sort_sorted(ranges);
    law_bands_cover_rects(rs);
    lemma_merge_len(srt);
    if rs.len() > 0 {
        assert(ranges.contains(ranges[0]));
        assert(srt.contains(ranges[0]));
    } else {
        assert(ranges =~= seq![]);
        assert(srt =~= seq![]);
    }
    if (forall|j: int| 0 <= j < rs.len() ==> #[trigger] rs[j].height >= 0) && (forall|j: int|
        0 <= j < rs.len() ==> #[trigger] edges_fit(rs[j])) {
        assert forall|k: int| 0 <= k < srt.len() implies #[trigger] srt[k].0 <= srt[k].1 by {
            assert(srt.contains(srt[k]));
            assert(ranges.contains(srt[k]));
            let j = choose|j: int| 0 <= j < ranges.len() && ranges[j] == srt[k];
            assert(ranges[j] == y_range(rs[j]));
            assert(rs[j].height >= 0 && edges_fit(rs[j]));
        }
        lemma_merge_nonneg(srt);
    }
}

} // verus!
