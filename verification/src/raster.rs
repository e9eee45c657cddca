//! Pixel work of the software renderers: cursor glyph ids, glyph blend
//! tables, and solid fills of RGBA and BGRA buffers.
use vstd::prelude::*;
use vstd::arithmetic::div_mod::{
    lemma_div_multiples_vanish, lemma_fundamental_div_mod, lemma_fundamental_div_mod_converse,
};

verus! {

/// Cursor glyphs have the high bit of their glyph id set.
pub open spec fn cursor_flag_set(glyph_id: u32) -> bool {
    glyph_id >= 0x8000_0000
}

/// Check if a glyph id represents a cursor glyph.
pub fn is_cursor_glyph(glyph_id: u32) -> (r: bool)
    ensures
        r == cursor_flag_set(glyph_id),
{
    let masked = glyph_id & 0x8000_0000u32;
    assert(masked != 0 <==> glyph_id >= 0x8000_0000) by (bit_vector)
        requires
            masked == glyph_id & 0x8000_0000u32,
    ;
    masked != 0
}

/// The coverage of a glyph pixel scaled by the foreground alpha.
pub open spec fn scaled_coverage(cov: int, fg_a: int) -> int {
    (cov * fg_a) / 255
}

/// One channel of a foreground blended over a background at a coverage:
/// `(bg * (255 - c) + fg * c) / 255` for the scaled coverage `c`.
pub open spec fn blend_channel(fg: int, bg: int, cov: int, fg_a: int) -> int {
    (bg * (255 - scaled_coverage(cov, fg_a)) + fg * scaled_coverage(cov, fg_a)) / 255
}

/// Blend tables for one foreground and background pair: for each
/// coverage value, the red, green and blue of the blended pixel.
pub struct BlendTables {
    pub r: [u8; 256],
    pub g: [u8; 256],
    pub b: [u8; 256],
}

proof fn lemma_blend_bounds(fg: int, bg: int, cov: int, fg_a: int)
    requires
        0 <= fg <= 255,
        0 <= bg <= 255,
        0 <= cov <= 255,
        0 <= fg_a <= 255,
    ensures
        0 <= scaled_coverage(cov, fg_a) <= 255,
        0 <= bg * (255 - scaled_coverage(cov, fg_a)) + fg * scaled_coverage(cov, fg_a) <= 255 * 255,
        0 <= blend_channel(fg, bg, cov, fg_a) <= 255,
{
    assert(0 <= cov * fg_a <= 255 * 255) by (nonlinear_arith)
        requires
            0 <= cov <= 255,
            0 <= fg_a <= 255,
    ;
    let c = scaled_coverage(cov, fg_a);
    assert(0 <= c <= 255);
    assert(0 <= bg * (255 - c) + fg * c <= 255 * 255) by (nonlinear_arith)
        requires
            0 <= fg <= 255,
            0 <= bg <= 255,
            0 <= c <= 255,
    ;
}

/// Create blend tables for a foreground (with alpha) and background
/// colour: entry `cov` of each table is `blend_channel` of that channel.
pub fn compute_blend_tables(fg: (u8, u8, u8, u8), bg: (u8, u8, u8)) -> (t: BlendTables)
    ensures
        forall|cov: int|
            0 <= cov < 256 ==> {
                &&& #[trigger] t.r@[cov] == blend_channel(fg.0 as int, bg.0 as int, cov, fg.3 as int)
                &&& t.g@[cov] == blend_channel(fg.1 as int, bg.1 as int, cov, fg.3 as int)
                &&& t.b@[cov] == blend_channel(fg.2 as int, bg.2 as int, cov, fg.3 as int)
            },
{
    let mut tables = BlendTables { r: [0u8; 256], g: [0u8; 256], b: [0u8; 256] };
    let fg_a = fg.3 as u16;
    let bg_r = bg.0 as u16;
    let bg_g = bg.1 as u16;
    let bg_b = bg.2 as u16;
    let mut cov: u16 = 0;
    while cov < 256
        invariant
            cov <= 256,
            fg_a == fg.3,
            bg_r == bg.0,
            bg_g == bg.1,
            bg_b == bg.2,
            tables.r@.len() == 256,
            tables.g@.len() == 256,
            tables.b@.len() == 256,
            forall|c: int|
                0 <= c < cov ==> {
                    &&& #[trigger] tables.r@[c] == blend_channel(
                        fg.0 as int,
                        bg.0 as int,
                        c,
                        fg.3 as int,
                    )
                    &&& tables.g@[c] == blend_channel(fg.1 as int, bg.1 as int, c, fg.3 as int)
                    &&& tables.b@[c] == blend_channel(fg.2 as int, bg.2 as int, c, fg.3 as int)
                },
        decreases 256 - cov,
    {
        proof {
            lemma_blend_bounds(fg.0 as int, bg.0 as int, cov as int, fg.3 as int);
            lemma_blend_bounds(fg.1 as int, bg.1 as int, cov as int, fg.3 as int);
            lemma_blend_bounds(fg.2 as int, bg.2 as int, cov as int, fg.3 as int);
        }
        let cov_scaled = (cov * fg_a) / 255;
        let rv = (bg_r * (255 - cov_scaled) + fg.0 as u16 * cov_scaled) / 255;
        let gv = (bg_g * (255 - cov_scaled) + fg.1 as u16 * cov_scaled) / 255;
        let bv = (bg_b * (255 - cov_scaled) + fg.2 as u16 * cov_scaled) / 255;
        assert(cov_scaled == scaled_coverage(cov as int, fg.3 as int));
        assert(rv == blend_channel(fg.0 as int, bg.0 as int, cov as int, fg.3 as int));
        assert(gv == blend_channel(fg.1 as int, bg.1 as int, cov as int, fg.3 as int));
        assert(bv == blend_channel(fg.2 as int, bg.2 as int, cov as int, fg.3 as int));
        let rv = if rv <= 255 {
            rv
        } else {
            255
        };
        let gv = if gv <= 255 {
            gv
        } else {
            255
        };
        let bv = if bv <= 255 {
            bv
        } else {
            255
        };
        tables.r[cov as usize] = rv as u8;
        tables.g[cov as usize] = gv as u8;
        tables.b[cov as usize] = bv as u8;
        assert forall|c: int| 0 <= c < cov + 1 implies {
            &&& #[trigger] tables.r@[c] == blend_channel(fg.0 as int, bg.0 as int, c, fg.3 as int)
            &&& tables.g@[c] == blend_channel(fg.1 as int, bg.1 as int, c, fg.3 as int)
            &&& tables.b@[c] == blend_channel(fg.2 as int, bg.2 as int, c, fg.3 as int)
        } by {
            if c < cov {
                assert(tables.r@[c] == blend_channel(fg.0 as int, bg.0 as int, c, fg.3 as int));
            }
        }
        cov = cov + 1;
    }
    tables
}

/// Pixel `p` of a buffer `width` pixels wide lies in the rectangle of
/// columns `[x0, x1)` and rows `[y0, y1)`.
pub open spec fn pixel_in(p: int, width: int, x0: int, y0: int, x1: int, y1: int) -> bool {
    width > 0 && y0 <= p / width < y1 && x0 <= p % width < x1
}

/// The byte that a solid fill of a BGRA buffer writes at position `k` of
/// a pixel: blue, green, red, then an opaque alpha.
pub open spec fn fill_byte(k: int, r: u8, g: u8, b: u8) -> u8 {
    if k == 0 {
        b
    } else if k == 1 {
        g
    } else if k == 2 {
        r
    } else {
        0xff
    }
}

/// The byte that a solid fill of an RGBA buffer writes at position `k`
/// of a pixel: red, green, blue, then an opaque alpha.
pub open spec fn rgba_byte(k: int, r: u8, g: u8, b: u8) -> u8 {
    if k == 0 {
        r
    } else if k == 1 {
        g
    } else if k == 2 {
        b
    } else {
        0xff
    }
}

/// The smaller of two sizes.
pub open spec fn min_size(a: int, b: int) -> int {
    if a <= b {
        a
    } else {
        b
    }
}

proof fn lemma_pixel_of(y: int, x: int, width: int)
    requires
        0 <= x < width,
        0 <= y,
    ensures
        (y * width + x) / width == y,
        (y * width + x) % width == x,
        0 <= y * width + x,
{
    assert(0 <= y * width) by (nonlinear_arith)
        requires
            0 <= y,
            0 <= width,
    ;
    lemma_fundamental_div_mod_converse(y * width + x, width, y, x);
}

proof fn lemma_byte_of(p: int, k: int)
    requires
        0 <= p,
        0 <= k < 4,
    ensures
        (p * 4 + k) / 4 == p,
        (p * 4 + k) % 4 == k,
{
    lemma_fundamental_div_mod_converse(p * 4 + k, 4, p, k);
}

/// Fill the rectangle of columns `[x0, x1)` and rows `[y0, y1)`, cut to
/// `width` by `height`, of an RGBA buffer `width` pixels wide with an
/// opaque colour.
pub fn fill_rect(
    buf: &mut [u8],
    width: usize,
    x0: usize,
    y0: usize,
    x1: usize,
    y1: usize,
    height: usize,
    r: u8,
    g: u8,
    b: u8,
)
    requires
        x0 < min_size(x1 as int, width as int) && y0 < min_size(y1 as int, height as int) ==> ((
        min_size(y1 as int, height as int) - 1) * width + min_size(x1 as int, width as int)) * 4
            <= old(buf)@.len(),
    ensures
        final(buf)@.len() == old(buf)@.len(),
        forall|i: int|
            0 <= i < old(buf)@.len() ==> #[trigger] final(buf)@[i] == (if pixel_in(
                i / 4,
                width as int,
                x0 as int,
                y0 as int,
                min_size(x1 as int, width as int),
                min_size(y1 as int, height as int),
            ) {
                rgba_byte(i % 4, r, g, b)
            } else {
                old(buf)@[i]
            }),
{
    let x1 = if x1 <= width {
        x1
    } else {
        width
    };
    let y1 = if y1 <= height {
        y1
    } else {
        height
    };
    let blen = buf.len();
    let ghost len = buf@.len() as int;
    let ghost w = width as int;
    let mut y: usize = y0;
    while y < y1
        invariant
            y0 <= y,
            y == y0 || y <= y1,
            x1 <= width,
            buf@.len() == len,
            len == blen,
            w == width,
            x0 < x1 && y0 < y1 ==> ((y1 - 1) * w + x1) * 4 <= len,
            forall|i: int|
                0 <= i < len ==> #[trigger] buf@[i] == (if pixel_in(
                    i / 4,
                    w,
                    x0 as int,
                    y0 as int,
                    x1 as int,
                    y as int,
                ) {
                    rgba_byte(i % 4, r, g, b)
                } else {
                    old(buf)@[i]
                }),
        decreases y1 - y,
    {
        let mut x: usize = x0;
        while x < x1
            invariant
                y0 <= y < y1,
                x0 <= x,
                x == x0 || x <= x1,
                x1 <= width,
                buf@.len() == len,
                len == blen,
                w == width,
                x0 < x1 && y0 < y1 ==> ((y1 - 1) * w + x1) * 4 <= len,
                forall|i: int|
                    0 <= i < len ==> #[trigger] buf@[i] == (if pixel_in(
                        i / 4,
                        w,
                        x0 as int,
                        y0 as int,
                        x1 as int,
                        y as int,
                    ) || (w > 0 && (i / 4) / w == y && x0 <= (i / 4) % w < x) {
                        rgba_byte(i % 4, r, g, b)
                    } else {
                        old(buf)@[i]
                    }),
            decreases x1 - x,
        {
            assert((y * w + x + 1) * 4 <= ((y1 - 1) * w + x1) * 4) by (nonlinear_arith)
                requires
                    y < y1,
                    x < x1,
                    0 <= y,
                    0 <= w,
            {
                assert(y * w <= (y1 - 1) * w);
            }
            let p = y * width + x;
            let idx = p * 4;
            proof {
                lemma_pixel_of(y as int, x as int, w);
            }
            buf[idx] = r;
            buf[idx + 1] = g;
            buf[idx + 2] = b;
            buf[idx + 3] = 0xff;
            proof {
                assert forall|i: int| 0 <= i < len implies #[trigger] buf@[i] == (if pixel_in(
                    i / 4,
                    w,
                    x0 as int,
                    y0 as int,
                    x1 as int,
                    y as int,
                ) || (w > 0 && (i / 4) / w == y && x0 <= (i / 4) % w < x + 1) {
                    rgba_byte(i % 4, r, g, b)
                } else {
                    old(buf)@[i]
                }) by {
                    let q = i / 4;
                    lemma_fundamental_div_mod(i, 4);
                    if idx <= i < idx + 4 {
                        lemma_byte_of(p as int, i - idx);
                    } else {
                        if w > 0 {
                            lemma_fundamental_div_mod(q, w);
                            if q / w == y && q % w == x {
                                assert(w * (q / w) == y * w) by (nonlinear_arith)
                                    requires
                                        q / w == y,
                                ;
                                assert(q == p);
                            }
                        }
                    }
                }
            }
            x = x + 1;
        }
        proof {
            assert forall|i: int| 0 <= i < len implies #[trigger] buf@[i] == (if pixel_in(
                i / 4,
                w,
                x0 as int,
                y0 as int,
                x1 as int,
                y + 1,
            ) {
                rgba_byte(i % 4, r, g, b)
            } else {
                old(buf)@[i]
            }) by {
                let q = i / 4;
                if w > 0 {
                    assert(pixel_in(q, w, x0 as int, y0 as int, x1 as int, y + 1) == (pixel_in(
                        q,
                        w,
                        x0 as int,
                        y0 as int,
                        x1 as int,
                        y as int,
                    ) || ((q / w) == y && x0 <= q % w < x)));
                }
            }
        }
        y = y + 1;
    }
}

/// The end (exclusive) of a run of `len` from `start`, cut at `limit`.
pub open spec fn run_end(start: int, len: int, limit: int) -> int {
    if start >= limit {
        start
    } else {
        min_size(start + len, limit)
    }
}

/// Byte `i` of a buffer with `stride` bytes a row belongs to a pixel of
/// the columns `[x0, x1)` and rows `[y0, y1)`.
pub open spec fn byte_in_cells(i: int, stride: int, x0: int, y0: int, x1: int, y1: int) -> bool {
    stride > 0 && y0 <= i / stride < y1 && x0 <= (i % stride) / 4 < x1
}

proof fn lemma_cell_byte(row: int, col: int, k: int, stride: int, dest_width: int)
    requires
        0 <= row,
        0 <= col < dest_width,
        0 <= k < 4,
        4 * dest_width <= stride,
    ensures
        (row * stride + col * 4 + k) / stride == row,
        (row * stride + col * 4 + k) % stride == col * 4 + k,
        (col * 4 + k) / 4 == col,
        (col * 4 + k) % 4 == k,
{
    assert(0 <= row * stride) by (nonlinear_arith)
        requires
            0 <= row,
            0 <= stride,
    ;
    lemma_fundamental_div_mod_converse(row * stride + col * 4 + k, stride, row, col * 4 + k);
    lemma_fundamental_div_mod_converse(col * 4 + k, 4, col, k);
}

/// Fill the cells of columns `[x, x + width)` and rows
/// `[y, y + height)`, cut to `dest_width` by `dest_height`, of a BGRA
/// buffer of `dest_stride` bytes a row with an opaque colour.
///
/// The buffer is the data of a Cairo ARGB32 image surface, whose stride
/// holds a whole row of pixels (`4 * dest_width <= dest_stride`, as
/// `cairo_format_stride_for_width` gives it), so rows do not overlap;
/// the contract is stated for such buffers, and the buffer must be long
/// enough for the last byte written.
pub fn fill_cell_background(
    dest_data: &mut [u8],
    dest_stride: usize,
    dest_width: usize,
    dest_height: usize,
    x: usize,
    y: usize,
    width: usize,
    height: usize,
    bg: (u8, u8, u8),
)
    requires
        4 * dest_width <= dest_stride,
        ({
            let x1 = run_end(x as int, width as int, dest_width as int);
            let y1 = run_end(y as int, height as int, dest_height as int);
            x < x1 && y < y1 ==> (y1 - 1) * dest_stride + x1 * 4 <= old(dest_data)@.len()
        }),
    ensures
        final(dest_data)@.len() == old(dest_data)@.len(),
        forall|i: int|
            0 <= i < old(dest_data)@.len() ==> #[trigger] final(dest_data)@[i] == (if byte_in_cells(
                i,
                dest_stride as int,
                x as int,
                y as int,
                run_end(x as int, width as int, dest_width as int),
                run_end(y as int, height as int, dest_height as int),
            ) {
                fill_byte((i % dest_stride as int) % 4, bg.0, bg.1, bg.2)
            } else {
                old(dest_data)@[i]
            }),
{
    let blen = dest_data.len();
    let ghost len = dest_data@.len() as int;
    let ghost st = dest_stride as int;
    let x1: usize = if x >= dest_width {
        x
    } else if width <= dest_width - x {
        x + width
    } else {
        dest_width
    };
    let y1: usize = if y >= dest_height {
        y
    } else if height <= dest_height - y {
        y + height
    } else {
        dest_height
    };
    assert(x1 == run_end(x as int, width as int, dest_width as int));
    assert(y1 == run_end(y as int, height as int, dest_height as int));
    let mut row: usize = y;
    while row < y1
        invariant
            y <= row,
            row == y || row <= y1,
            x <= x1,
            x < x1 ==> x1 <= dest_width,
            y1 == run_end(y as int, height as int, dest_height as int),
            x1 == run_end(x as int, width as int, dest_width as int),
            4 * dest_width <= st,
            st == dest_stride,
            dest_data@.len() == len,
            len == blen,
            x < x1 && y < y1 ==> (y1 - 1) * st + x1 * 4 <= len,
            forall|i: int|
                0 <= i < len ==> #[trigger] dest_data@[i] == (if byte_in_cells(
                    i,
                    st,
                    x as int,
                    y as int,
                    x1 as int,
                    row as int,
                ) {
                    fill_byte((i % st) % 4, bg.0, bg.1, bg.2)
                } else {
                    old(dest_data)@[i]
                }),
        decreases y1 - row,
    {
        let mut col: usize = x;
        while col < x1
            invariant
                y <= row < y1,
                x <= col,
                col == x || col <= x1,
                x < x1 ==> x1 <= dest_width,
                4 * dest_width <= st,
                st == dest_stride,
                dest_data@.len() == len,
                len == blen,
                x < x1 && y < y1 ==> (y1 - 1) * st + x1 * 4 <= len,
                forall|i: int|
                    0 <= i < len ==> #[trigger] dest_data@[i] == (if byte_in_cells(
                        i,
                        st,
                        x as int,
                        y as int,
                        x1 as int,
                        row as int,
                    ) || (st > 0 && i / st == row && x <= (i % st) / 4 < col) {
                        fill_byte((i % st) % 4, bg.0, bg.1, bg.2)
                    } else {
                        old(dest_data)@[i]
                    }),
            decreases x1 - col,
        {
            assert(row * st + col * 4 + 4 <= (y1 - 1) * st + x1 * 4) by (nonlinear_arith)
                requires
                    row < y1,
                    col < x1,
                    0 <= row,
                    0 <= st,
            {
                assert(row * st <= (y1 - 1) * st);
            }
            let off = row * dest_stride + col * 4;
            proof {
                lemma_cell_byte(row as int, col as int, 0, st, dest_width as int);
                lemma_cell_byte(row as int, col as int, 1, st, dest_width as int);
                lemma_cell_byte(row as int, col as int, 2, st, dest_width as int);
                lemma_cell_byte(row as int, col as int, 3, st, dest_width as int);
            }
            dest_data[off] = bg.2;
            dest_data[off + 1] = bg.1;
            dest_data[off + 2] = bg.0;
            dest_data[off + 3] = 255;
            proof {
                assert forall|i: int| 0 <= i < len implies #[trigger] dest_data@[i] == (if byte_in_cells(
                    i,
                    st,
                    x as int,
                    y as int,
                    x1 as int,
                    row as int,
                ) || (st > 0 && i / st == row && x <= (i % st) / 4 < col + 1) {
                    fill_byte((i % st) % 4, bg.0, bg.1, bg.2)
                } else {
                    old(dest_data)@[i]
                }) by {
                    if off <= i < off + 4 {
                        lemma_cell_byte(row as int, col as int, i - off, st, dest_width as int);
                    } else if st > 0 && i / st == row && (i % st) / 4 == col {
                        lemma_fundamental_div_mod(i, st);
                        lemma_fundamental_div_mod(i % st, 4);
                        assert(st * (i / st) == row * st) by (nonlinear_arith)
                            requires
                                i / st == row,
                        ;
                        assert(4 * ((i % st) / 4) == col * 4);
                        assert(0 <= (i % st) % 4 < 4);
                        assert(off <= i < off + 4);
                    }
                }
            }
            col = col + 1;
        }
        row = row + 1;
    }
}

/// A blend table gives the background where a glyph does not cover the
/// pixel, and the foreground where an opaque foreground covers it fully.
pub proof fn law_blend_ends(fg: u8, bg: u8, fg_a: u8)
    ensures
        blend_channel(fg as int, bg as int, 0, fg_a as int) == bg,
        blend_channel(fg as int, bg as int, 255, 255) == fg,
{
    assert(scaled_coverage(0, fg_a as int) == 0);
    lemma_div_multiples_vanish(bg as int, 255);
    assert(bg * (255 - 0) + fg * 0 == 255 * bg) by (nonlinear_arith);
    lemma_div_multiples_vanish(255, 255);
    assert(scaled_coverage(255, 255) == 255);
    lemma_div_multiples_vanish(fg as int, 255);
    assert(bg * (255 - 255) + fg * 255 == 255 * fg) by (nonlinear_arith);
}

} // verus!
