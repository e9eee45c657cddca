use wezterm_core::dirty_rects::{clear_rect, coalesce_to_bands, collect_clip_rects, DirtyRect};

#[test]
fn coalesce_to_bands_merges_overlapping() {
    let rects = vec![
        DirtyRect { x: 0, y: 10, width: 100, height: 20 },
        DirtyRect { x: 0, y: 25, width: 100, height: 20 },
    ];
    let bands = coalesce_to_bands(&rects, 100);
    assert_eq!(bands.len(), 1);
    assert_eq!(bands[0].y, 10);
    assert_eq!(bands[0].height, 35); // 10..45
}

#[test]
fn coalesce_to_bands_keeps_disjoint() {
    let rects = vec![
        DirtyRect { x: 0, y: 0, width: 100, height: 10 },
        DirtyRect { x: 0, y: 50, width: 100, height: 10 },
    ];
    let bands = coalesce_to_bands(&rects, 100);
    assert_eq!(bands.len(), 2);
}

#[test]
fn coalesce_to_bands_empty() {
    let bands = coalesce_to_bands(&[], 100);
    assert!(bands.is_empty());
}

#[test]
fn collect_clip_rects_intersection() {
    let rects = vec![DirtyRect { x: 10, y: 10, width: 20, height: 20 }];
    let mut out = Vec::new();
    // Quad fully inside dirty rect
    collect_clip_rects(12, 12, 25, 25, &rects, &mut out);
    assert_eq!(out.len(), 1);
    assert_eq!(out[0], [12, 12, 25, 25]);

    // Quad partially overlapping
    out.clear();
    collect_clip_rects(0, 0, 15, 15, &rects, &mut out);
    assert_eq!(out.len(), 1);
    assert_eq!(out[0], [10, 10, 15, 15]);

    // Quad not overlapping
    out.clear();
    collect_clip_rects(0, 0, 5, 5, &rects, &mut out);
    assert!(out.is_empty());
}

#[test]
fn clear_rect_zeroes_region() {
    let mut fb = vec![255u8; 4 * 4 * 4]; // 4x4 pixel framebuffer, all white
    let rect = DirtyRect { x: 1, y: 1, width: 2, height: 2 };
    clear_rect(&mut fb, 4, 4, &rect);
    // Check that pixel (1,1) is zero
    let idx = (1 * 4 + 1) * 4;
    assert_eq!(fb[idx..idx + 4], [0, 0, 0, 0]);
    // Check that pixel (0,0) is still white
    assert_eq!(fb[0..4], [255, 255, 255, 255]);
}

#[test]
fn clear_rect_clears_exactly_the_rect_within_the_frame() {
    let mut fb = vec![7u8; 4 * 3 * 4]; // 4x3 pixels
    let rect = DirtyRect { x: -1, y: 2, width: 3, height: 5 };
    clear_rect(&mut fb, 4, 3, &rect);
    for y in 0..3usize {
        for x in 0..4usize {
            let expect = if y == 2 && x < 2 { 0 } else { 7 };
            for k in 0..4usize {
                assert_eq!(fb[(y * 4 + x) * 4 + k], expect, "pixel ({x},{y})");
            }
        }
    }
}

#[test]
fn clear_rect_skips_rows_past_the_buffer() {
    // The buffer holds only the first row of a 2x2 frame.
    let mut fb = vec![9u8; 2 * 4];
    let rect = DirtyRect { x: 0, y: 0, width: 2, height: 2 };
    clear_rect(&mut fb, 2, 2, &rect);
    assert_eq!(fb, vec![0u8; 8]);
}

#[test]
fn clip_regions_follow_rect_order_and_clear_out_first() {
    let rects = vec![
        DirtyRect { x: 0, y: 0, width: 10, height: 10 },
        DirtyRect { x: 100, y: 100, width: 10, height: 10 },
        DirtyRect { x: 5, y: 5, width: 10, height: 10 },
    ];
    let mut out = vec![[1, 2, 3, 4]];
    collect_clip_rects(2, 2, 8, 8, &rects, &mut out);
    assert_eq!(out, vec![[2, 2, 8, 8], [5, 5, 8, 8]]);
}

#[test]
fn bands_are_sorted_apart_and_cover_every_rect() {
    let rects = vec![
        DirtyRect { x: 3, y: 40, width: 5, height: 5 },
        DirtyRect { x: 0, y: 0, width: 1, height: 10 },
        DirtyRect { x: 9, y: 10, width: 2, height: 3 },
        DirtyRect { x: 1, y: 30, width: 2, height: 2 },
    ];
    let bands = coalesce_to_bands(&rects, 640);
    let ys: Vec<(i32, i32)> = bands.iter().map(|b| (b.y, b.y + b.height)).collect();
    // 0..10 and 10..13 touch and merge; 30..32 and 40..45 stay apart.
    assert_eq!(ys, vec![(0, 13), (30, 32), (40, 45)]);
    for b in &bands {
        assert_eq!(b.x, 0);
        assert_eq!(b.width, 640);
    }
    for w in ys.windows(2) {
        assert!(w[0].1 < w[1].0);
    }
    for r in &rects {
        assert!(ys.iter().any(|&(a, b)| a <= r.y && r.y + r.height <= b));
    }
}

#[test]
fn bands_with_equal_starts_keep_input_order() {
    // A band of negative height followed by one starting at the same
    // row: the stable order decides how they merge.
    let rects = vec![
        DirtyRect { x: 0, y: 5, width: 1, height: -2 },
        DirtyRect { x: 0, y: 5, width: 1, height: 4 },
    ];
    let bands = coalesce_to_bands(&rects, 10);
    let ys: Vec<(i32, i32)> = bands.iter().map(|b| (b.y, b.y + b.height)).collect();
    assert_eq!(ys, vec![(5, 3), (5, 9)]);
}

#[test]
fn clear_rect_off_frame_clears_nothing() {
    let rects = [
        DirtyRect { x: 5, y: 0, width: 2, height: 2 },
        DirtyRect { x: -5, y: 0, width: 2, height: 2 },
        DirtyRect { x: 0, y: -5, width: 2, height: 2 },
        DirtyRect { x: 0, y: 4, width: 2, height: 2 },
    ];
    for rect in rects {
        let mut fb = vec![3u8; 4 * 3 * 4];
        clear_rect(&mut fb, 4, 3, &rect);
        assert_eq!(fb, vec![3u8; 4 * 3 * 4], "{rect:?}");
    }
}

#[test]
fn bands_hold_exactly_the_rect_rows() {
    let rects = vec![
        DirtyRect { x: 0, y: 10, width: 5, height: 5 },
        DirtyRect { x: 3, y: 0, width: 1, height: 2 },
        DirtyRect { x: 1, y: 14, width: 1, height: 6 },
    ];
    let bands = coalesce_to_bands(&rects, 50);
    for y in -5..30 {
        let in_band = bands.iter().any(|b| b.y <= y && y < b.y + b.height);
        let in_rect = rects.iter().any(|r| r.y <= y && y < r.y + r.height);
        assert_eq!(in_band, in_rect, "row {y}");
    }
}

#[test]
fn clear_rect_empty_frame_of_great_width_changes_nothing() {
    let mut fb: Vec<u8> = vec![];
    let rect = DirtyRect { x: 0, y: 0, width: 5, height: 5 };
    clear_rect(&mut fb, 1usize << 40, 0, &rect);
    assert!(fb.is_empty());
}
