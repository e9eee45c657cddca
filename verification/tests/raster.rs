use wezterm_core::raster::{compute_blend_tables, fill_cell_background, fill_rect, is_cursor_glyph};

#[test]
fn cursor_glyphs_have_the_high_bit() {
    assert!(is_cursor_glyph(0x8000_0000));
    assert!(is_cursor_glyph(0xffff_ffff));
    assert!(is_cursor_glyph(0x8000_1234));
    assert!(!is_cursor_glyph(0));
    assert!(!is_cursor_glyph(0x7fff_ffff));
}

#[test]
fn blend_tables_formula() {
    let t = compute_blend_tables((200, 100, 50, 128), (10, 20, 30));
    for cov in 0..256u32 {
        let cs = cov * 128 / 255;
        let expect = |fg: u32, bg: u32| ((bg * (255 - cs) + fg * cs) / 255) as u8;
        assert_eq!(t.r[cov as usize], expect(200, 10));
        assert_eq!(t.g[cov as usize], expect(100, 20));
        assert_eq!(t.b[cov as usize], expect(50, 30));
    }
    // One value worked by hand: cov 255 scales to 128.
    assert_eq!(t.r[255], ((10 * 127 + 200 * 128) / 255) as u8);
}

#[test]
fn blend_tables_ends() {
    let t = compute_blend_tables((250, 0, 7, 255), (3, 200, 90));
    assert_eq!((t.r[0], t.g[0], t.b[0]), (3, 200, 90));
    assert_eq!((t.r[255], t.g[255], t.b[255]), (250, 0, 7));
    let t = compute_blend_tables((250, 0, 7, 0), (3, 200, 90));
    assert_eq!((t.r[255], t.g[255], t.b[255]), (3, 200, 90));
}

#[test]
fn fill_rect_paints_rgba_inside_and_clips() {
    let width = 3usize;
    let height = 2usize;
    let mut buf = vec![1u8; width * height * 4];
    // Columns 1.. and rows 0..5, cut to the 3x2 frame.
    fill_rect(&mut buf, width, 1, 0, 10, 5, height, 10, 20, 30);
    for y in 0..height {
        for x in 0..width {
            let i = (y * width + x) * 4;
            if x >= 1 {
                assert_eq!(&buf[i..i + 4], &[10, 20, 30, 0xff]);
            } else {
                assert_eq!(&buf[i..i + 4], &[1, 1, 1, 1]);
            }
        }
    }
}

#[test]
fn fill_rect_empty_region_changes_nothing() {
    let mut buf = vec![5u8; 16];
    fill_rect(&mut buf, 2, 2, 0, 2, 2, 2, 1, 2, 3);
    assert_eq!(buf, vec![5u8; 16]);
}

#[test]
fn fill_cell_background_uses_the_stride() {
    // 2x2 pixels, 12 bytes a row (4 bytes of padding).
    let mut data = vec![0u8; 24];
    fill_cell_background(&mut data, 12, 2, 2, 1, 0, 5, 5, (9, 8, 7));
    let mut expect = vec![0u8; 24];
    for row in 0..2 {
        let off = row * 12 + 4;
        expect[off..off + 4].copy_from_slice(&[7, 8, 9, 255]);
    }
    assert_eq!(data, expect);
}

#[test]
fn fill_cell_background_outside_the_frame_changes_nothing() {
    let mut data = vec![3u8; 32];
    fill_cell_background(&mut data, 8, 2, 4, 2, 0, 1, 1, (1, 2, 3));
    fill_cell_background(&mut data, 8, 2, 4, 0, 4, 1, 1, (1, 2, 3));
    assert_eq!(data, vec![3u8; 32]);
}
