use aipix_core::pixel_buffer::PixelBuffer;
use aipix_core::select_tools::{
    color_distance, delete_selection, extract_selection, paste_buffer, select_ellipse,
    select_lasso_add_point, select_magic_wand, select_rectangle,
};
use aipix_core::selection::{apply_selection_mode, Selection, SelectionMode};

fn count_selected(sel: &Selection) -> usize {
    let mut n = 0;
    for y in 0..sel.height {
        for x in 0..sel.width {
            if sel.is_selected(x, y) {
                n += 1;
            }
        }
    }
    n
}

#[test]
fn selection_mode_algebra() {
    // Masks A (existing) and B (new shape), checked cell by cell on a 2x2
    // canvas: Add is union, Subtract difference, Intersect intersection,
    // Replace the new mask.
    let a = [true, true, false, false];
    let b = vec![true, false, true, false];
    let cases = [
        (SelectionMode::Add, [true, true, true, false]),
        (SelectionMode::Subtract, [false, true, false, false]),
        (SelectionMode::Intersect, [true, false, false, false]),
        (SelectionMode::Replace, [true, false, true, false]),
    ];
    for (mode, expected) in cases {
        let mut sel = Selection::new(2, 2);
        for i in 0..4u32 {
            sel.select_pixel(i % 2, i / 2, a[i as usize]);
        }
        apply_selection_mode(&mut sel, &b, mode);
        for i in 0..4u32 {
            assert_eq!(sel.is_selected(i % 2, i / 2), expected[i as usize]);
        }
    }
}

#[test]
fn select_rectangle_scenario() {
    // Two overlapping 2x2 squares on a 4x4 canvas select exactly 7 cells.
    let mut sel = Selection::new(4, 4);
    select_rectangle(&mut sel, 0, 0, 1, 1, SelectionMode::Replace);
    select_rectangle(&mut sel, 1, 1, 2, 2, SelectionMode::Add);
    assert_eq!(count_selected(&sel), 7);
    assert!(sel.is_selected(1, 1));
    assert!(!sel.is_selected(3, 3));
    assert!(!sel.is_empty());
}

#[test]
fn select_rectangle_modes_and_bounds() {
    let mut sel = Selection::new(4, 4);
    select_rectangle(&mut sel, 0, 0, 3, 3, SelectionMode::Replace);
    select_rectangle(&mut sel, 0, 0, 1, 3, SelectionMode::Subtract);
    assert_eq!(count_selected(&sel), 8);
    let b = sel.bounds.unwrap();
    assert_eq!((b.min_x, b.max_x, b.min_y, b.max_y), (2, 3, 0, 3));
    select_rectangle(&mut sel, 2, 0, 2, 3, SelectionMode::Intersect);
    assert_eq!(count_selected(&sel), 4);
}

#[test]
fn select_ellipse_band_and_disc() {
    // Degenerate vertical axis: a horizontal band.
    let mut sel = Selection::new(5, 5);
    select_ellipse(&mut sel, 2, 2, 2, 3, SelectionMode::Replace);
    // dx = 0, dy = 1: rows 1..=3 fully selected.
    assert_eq!(count_selected(&sel), 15);
    // A round ellipse selects the diamond plus center row/column ends.
    let mut sel2 = Selection::new(5, 5);
    select_ellipse(&mut sel2, 2, 2, 4, 2, SelectionMode::Replace);
    assert!(sel2.is_selected(0, 2));
    assert!(sel2.is_selected(4, 2));
    assert!(sel2.is_selected(2, 2));
    // Equal center and edge point changes nothing.
    let mut sel3 = Selection::new(3, 3);
    select_ellipse(&mut sel3, 1, 1, 1, 1, SelectionMode::Replace);
    assert!(sel3.is_empty());
}

#[test]
fn select_all_invert_clear() {
    let mut sel = Selection::new(3, 2);
    sel.select_all();
    assert_eq!(count_selected(&sel), 6);
    let b = sel.bounds.unwrap();
    assert_eq!((b.min_x, b.max_x, b.min_y, b.max_y), (0, 2, 0, 1));
    sel.select_pixel(1, 1, false);
    sel.update_bounds();
    sel.invert();
    assert_eq!(count_selected(&sel), 1);
    assert!(sel.is_selected(1, 1));
    sel.clear();
    assert!(sel.is_empty());
    assert_eq!(count_selected(&sel), 0);
}

#[test]
fn magic_wand_grows_within_tolerance() {
    let mut buffer = PixelBuffer::new(4, 1);
    buffer.set_pixel(0, 0, [100, 100, 100, 255]).unwrap();
    buffer.set_pixel(1, 0, [104, 100, 100, 255]).unwrap();
    buffer.set_pixel(2, 0, [180, 100, 100, 255]).unwrap();
    buffer.set_pixel(3, 0, [100, 100, 100, 255]).unwrap();
    let mut sel = Selection::new(4, 1);
    select_magic_wand(&buffer, &mut sel, 0, 0, 2, SelectionMode::Replace).unwrap();
    assert!(sel.is_selected(0, 0));
    assert!(sel.is_selected(1, 0)); // distance 4/3 = 1 <= 2
    assert!(!sel.is_selected(2, 0)); // distance 80/3 = 26 > 2
    assert!(!sel.is_selected(3, 0)); // within tolerance but not connected
    assert!(select_magic_wand(&buffer, &mut sel, 9, 0, 2, SelectionMode::Replace).is_err());
}

#[test]
fn color_distance_is_mean_absolute_rgb() {
    assert_eq!(color_distance([0, 0, 0, 0], [0, 0, 0, 255]), 0);
    assert_eq!(color_distance([10, 20, 30, 0], [13, 26, 39, 9]), 6);
    assert_eq!(color_distance([255, 255, 255, 0], [0, 0, 0, 0]), 255);
}

#[test]
fn lasso_fills_square() {
    let mut sel = Selection::new(4, 4);
    let points = vec![(0, 0), (3, 0), (3, 3), (0, 3)];
    select_lasso_add_point(&mut sel, &points, SelectionMode::Replace);
    // Half-open crossing counting fills rows 0..3 between columns 0 and 3.
    assert!(sel.is_selected(1, 1));
    assert!(sel.is_selected(0, 0));
    assert!(sel.is_selected(3, 2));
    assert!(!sel.is_selected(0, 3));
    assert_eq!(count_selected(&sel), 12);
}

#[test]
fn lasso_fills_triangle() {
    let mut sel = Selection::new(6, 6);
    let points = vec![(0, 0), (5, 0), (0, 5)];
    select_lasso_add_point(&mut sel, &points, SelectionMode::Replace);
    assert!(sel.is_selected(1, 1));
    assert!(!sel.is_empty());
    // Fewer than three points is a no-op.
    let mut sel2 = Selection::new(6, 6);
    let two = vec![(0, 0), (5, 5)];
    select_lasso_add_point(&mut sel2, &two, SelectionMode::Replace);
    assert!(sel2.is_empty());
}

#[test]
fn extract_delete_paste_round_trip() {
    let mut buffer = PixelBuffer::new(4, 4);
    buffer.set_pixel(1, 1, [1, 2, 3, 255]).unwrap();
    buffer.set_pixel(2, 1, [4, 5, 6, 255]).unwrap();
    let mut sel = Selection::new(4, 4);
    select_rectangle(&mut sel, 1, 1, 2, 1, SelectionMode::Replace);

    let (clip, ox, oy) = extract_selection(&buffer, &sel).unwrap();
    assert_eq!((ox, oy), (1, 1));
    assert_eq!((clip.width, clip.height), (2, 1));
    assert_eq!(clip.get_pixel(0, 0).unwrap(), [1, 2, 3, 255]);
    assert_eq!(clip.get_pixel(1, 0).unwrap(), [4, 5, 6, 255]);

    delete_selection(&mut buffer, &sel);
    assert_eq!(buffer.get_pixel(1, 1).unwrap(), [0, 0, 0, 0]);

    paste_buffer(&mut buffer, &clip, 0, 3).unwrap();
    assert_eq!(buffer.get_pixel(0, 3).unwrap(), [1, 2, 3, 255]);
    assert_eq!(buffer.get_pixel(1, 3).unwrap(), [4, 5, 6, 255]);

    // Nothing selected: extract yields None.
    let empty = Selection::new(4, 4);
    assert!(extract_selection(&buffer, &empty).is_none());
}

#[test]
fn paste_skips_fully_transparent_pixels() {
    let mut dest = PixelBuffer::new(2, 1);
    dest.set_pixel(0, 0, [9, 9, 9, 255]).unwrap();
    dest.set_pixel(1, 0, [9, 9, 9, 255]).unwrap();
    let mut src = PixelBuffer::new(2, 1);
    src.set_pixel(1, 0, [1, 1, 1, 128]).unwrap();
    paste_buffer(&mut dest, &src, 0, 0).unwrap();
    // Source (0,0) has zero alpha: skipped. Source (1,0) is partially
    // transparent: it overwrites, no blending.
    assert_eq!(dest.get_pixel(0, 0).unwrap(), [9, 9, 9, 255]);
    assert_eq!(dest.get_pixel(1, 0).unwrap(), [1, 1, 1, 128]);
}
