use aipix_core::dirty_region::{DirtyRegion, Rect};
use aipix_core::renderer::PixelRenderer;

#[test]
fn rect_basics() {
    let r = Rect::new(1, 2, 3, 4);
    assert!(!r.is_empty());
    assert!(Rect::new(0, 0, 0, 5).is_empty());
    assert!(Rect::new(0, 0, 5, -1).is_empty());

    let a = Rect::new(0, 0, 4, 4);
    let b = Rect::new(2, 2, 4, 4);
    let c = Rect::new(10, 10, 1, 1);
    assert!(a.intersects(&b));
    assert!(!a.intersects(&c));

    let u = a.union(&b);
    assert_eq!((u.x, u.y, u.width, u.height), (0, 0, 6, 6));
}

#[test]
fn dirty_region_bounds_is_minimal_cover() {
    // After a sequence of add_rect / add_point / add_line calls, get_bounds
    // is the smallest rectangle covering everything added.
    let mut region = DirtyRegion::new();
    assert!(region.is_empty());
    assert!(region.get_bounds().is_none());

    region.add_rect(Rect::new(2, 3, 4, 2));
    region.add_point(10, 10, 2); // square from (9,9) of side 2
    region.add_line(0, 0, 5, 1, 2); // box from (-1,-1), 7x3

    let b = region.get_bounds().unwrap();
    assert_eq!((b.x, b.y), (-1, -1));
    assert_eq!((b.x + b.width, b.y + b.height), (11, 11));
    assert_eq!(region.rects().len(), 3);

    region.clear();
    assert!(region.is_empty());
}

#[test]
fn dirty_region_drops_empty_rects() {
    let mut region = DirtyRegion::new();
    region.add_rect(Rect::new(5, 5, 0, 3));
    region.add_point(4, 4, 0);
    assert!(region.is_empty());
}

#[test]
fn optimize_merges_intersecting_rects() {
    let mut region = DirtyRegion::new();
    region.add_rect(Rect::new(0, 0, 4, 4));
    region.add_rect(Rect::new(2, 2, 4, 4));
    region.add_rect(Rect::new(20, 20, 2, 2));
    let before = region.get_bounds().unwrap();
    region.optimize();
    assert_eq!(region.rects().len(), 2);
    let after = region.get_bounds().unwrap();
    assert_eq!(
        (before.x, before.y, before.width, before.height),
        (after.x, after.y, after.width, after.height)
    );
}

#[test]
fn renderer_store_lifecycle() {
    let mut renderer = PixelRenderer::new(4, 4).unwrap();
    let data = renderer.get_image_data();
    assert_eq!(data.len(), 64);
    assert!(data.iter().all(|&b| b == 255));
    assert!(renderer.get_dirty_bounds().is_none());

    renderer.clear([1, 2, 3, 4]);
    let data = renderer.get_image_data();
    assert_eq!(&data[0..4], &[1, 2, 3, 4]);
    let b = renderer.get_dirty_bounds().unwrap();
    assert_eq!((b.x, b.y, b.width, b.height), (0, 0, 4, 4));

    renderer.clear_dirty_region();
    assert!(renderer.get_dirty_bounds().is_none());

    renderer.mark_stroke_dirty(0, 0, 2, 2, 1);
    let b = renderer.get_dirty_bounds().unwrap();
    assert_eq!((b.x, b.y, b.width, b.height), (0, 0, 3, 3));

    renderer.resize(2, 2).unwrap();
    let data = renderer.get_image_data();
    assert_eq!(data.len(), 16);
    assert!(data.iter().all(|&b| b == 255));
    let b = renderer.get_dirty_bounds().unwrap();
    assert_eq!((b.width, b.height), (2, 2));
}

#[test]
fn renderer_opaque_fill() {
    let mut renderer = PixelRenderer::new(4, 3).unwrap();
    renderer.fill_rect_opaque(Rect::new(1, 1, 2, 5), [1, 2, 3, 4]);
    let data = renderer.get_image_data();
    // Inside the clipped rectangle.
    assert_eq!(&data[(1 * 4 + 1) * 4..(1 * 4 + 1) * 4 + 4], &[1, 2, 3, 4]);
    assert_eq!(&data[(2 * 4 + 2) * 4..(2 * 4 + 2) * 4 + 4], &[1, 2, 3, 4]);
    // Outside it.
    assert_eq!(&data[0..4], &[255, 255, 255, 255]);
    assert_eq!(&data[(1 * 4 + 3) * 4..(1 * 4 + 3) * 4 + 4], &[255, 255, 255, 255]);
    let b = renderer.get_dirty_bounds().unwrap();
    assert_eq!((b.x, b.y, b.width, b.height), (1, 1, 2, 5));
}

#[test]
fn renderer_viewport_crops_and_pads() {
    let mut renderer = PixelRenderer::new(3, 2).unwrap();
    let mut data = renderer.get_image_data();
    // Pixel (1,0) gets a marker color.
    data[4..8].copy_from_slice(&[7, 8, 9, 10]);
    renderer.set_image_data(data);

    let view = renderer.render_viewport(1, 0, 2, 2).unwrap();
    assert_eq!(view.len(), 16);
    // Result pixel (0,0) is source pixel (1,0).
    assert_eq!(&view[0..4], &[7, 8, 9, 10]);
    // Result pixel (1,1) is source pixel (2,1): untouched white.
    assert_eq!(&view[12..16], &[255, 255, 255, 255]);

    // A viewport past the extent stays at the white fill.
    let view = renderer.render_viewport(2, 1, 2, 2).unwrap();
    assert_eq!(&view[4..8], &[255, 255, 255, 255]);
    assert_eq!(&view[8..16], &[255u8; 8][..]);

    // A negative origin shifts the copy: result cell (x, y) shows store cell
    // (origin_x + x, origin_y + y), white wherever that is off the store.
    let view = renderer.render_viewport(-1, 0, 2, 1).unwrap();
    assert_eq!(&view[0..4], &[255, 255, 255, 255]);
    assert_eq!(&view[4..8], &[255, 255, 255, 255]); // store (0,0): untouched white
    let view = renderer.render_viewport(0, -1, 2, 2).unwrap();
    assert_eq!(&view[0..8], &[255u8; 8][..]); // row -1: off the store
    assert_eq!(&view[12..16], &[7, 8, 9, 10]); // cell (1,1) -> store (1,0)
}
