use aipix_core::color::{hex_to_rgba, rgba_to_hex};
use aipix_core::pixel_buffer::PixelBuffer;
use aipix_core::tools::circle;
use aipix_core::tools::eraser;
use aipix_core::tools::eyedropper;
use aipix_core::tools::fill;
use aipix_core::tools::pencil;
use aipix_core::tools::rectangle;
use aipix_core::tools::replace_all_color;

#[test]
fn test_hex_to_rgba() {
    assert_eq!(hex_to_rgba("#FF0000").unwrap(), [255, 0, 0, 255]);
    assert_eq!(hex_to_rgba("#00FF00").unwrap(), [0, 255, 0, 255]);
    assert_eq!(hex_to_rgba("#0000FF").unwrap(), [0, 0, 255, 255]);
    assert_eq!(hex_to_rgba("FFFFFF").unwrap(), [255, 255, 255, 255]);
}

#[test]
fn test_rgba_to_hex() {
    assert_eq!(rgba_to_hex([255, 0, 0, 255]), "#ff0000");
    assert_eq!(rgba_to_hex([0, 255, 0, 255]), "#00ff00");
    assert_eq!(rgba_to_hex([0, 0, 255, 255]), "#0000ff");
}

#[test]
fn test_pencil() {
    let mut buffer = PixelBuffer::new(10, 10);
    pencil(&mut buffer, 5, 5, [255, 0, 0, 255]).unwrap();
    assert_eq!(buffer.get_pixel(5, 5).unwrap(), [255, 0, 0, 255]);
}

#[test]
fn test_eraser() {
    let mut buffer = PixelBuffer::new(10, 10);
    buffer.set_pixel(5, 5, [255, 0, 0, 255]).unwrap();
    eraser(&mut buffer, 5, 5).unwrap();
    assert_eq!(buffer.get_pixel(5, 5).unwrap(), [0, 0, 0, 0]);
}

#[test]
fn hex_rgba_round_trip() {
    for (r, g, b) in [(0u8, 0u8, 0u8), (12, 200, 7), (255, 255, 255), (1, 2, 3)] {
        let hex = rgba_to_hex([r, g, b, 255]);
        assert_eq!(hex_to_rgba(&hex).unwrap(), [r, g, b, 255]);
    }
}

#[test]
fn hex_parsing_edge_cases() {
    assert!(hex_to_rgba("").is_err());
    assert!(hex_to_rgba("#12345").is_err());
    assert!(hex_to_rgba("#1234567").is_err());
    assert!(hex_to_rgba("zzzzzz").is_err());
    assert!(hex_to_rgba("#ff00zz").is_err());
    assert_eq!(hex_to_rgba("#11223344").unwrap(), [0x11, 0x22, 0x33, 0x44]);
    assert_eq!(hex_to_rgba("#ABCDEF").unwrap(), [0xab, 0xcd, 0xef, 255]);
    // Only a single leading '#' is part of the format.
    assert!(hex_to_rgba("##ABCDEF").is_err());
}

#[test]
fn eyedropper_reads_and_respects_bounds() {
    let mut buffer = PixelBuffer::new(3, 3);
    buffer.set_pixel(2, 1, [10, 20, 30, 40]).unwrap();
    assert_eq!(eyedropper(&buffer, 2, 1), Some([10, 20, 30, 40]));
    assert_eq!(eyedropper(&buffer, 3, 1), None);
    assert!(buffer.set_pixel(0, 3, [1, 1, 1, 1]).is_err());
}

#[test]
fn line_draws_diagonal() {
    let mut buffer = PixelBuffer::new(4, 4);
    aipix_core::tools::line(&mut buffer, 0, 0, 3, 3, [7, 7, 7, 255]).unwrap();
    for i in 0..4 {
        assert_eq!(buffer.get_pixel(i, i).unwrap(), [7, 7, 7, 255]);
    }
    assert_eq!(buffer.get_pixel(0, 1).unwrap(), [0, 0, 0, 0]);
}

#[test]
fn rectangle_filled_scenario() {
    // On a 4x4 transparent buffer, a filled red rectangle over the whole
    // canvas colors the interior.
    let mut buffer = PixelBuffer::new(4, 4);
    rectangle(&mut buffer, 0, 0, 3, 3, [255, 0, 0, 255], true).unwrap();
    assert_eq!(buffer.get_pixel(2, 2).unwrap(), [255, 0, 0, 255]);
    assert_eq!(buffer.get_pixel(0, 0).unwrap(), [255, 0, 0, 255]);
}

#[test]
fn rectangle_outline_leaves_interior() {
    let mut buffer = PixelBuffer::new(5, 5);
    rectangle(&mut buffer, 1, 1, 3, 3, [9, 9, 9, 255], false).unwrap();
    assert_eq!(buffer.get_pixel(1, 1).unwrap(), [9, 9, 9, 255]);
    assert_eq!(buffer.get_pixel(3, 2).unwrap(), [9, 9, 9, 255]);
    assert_eq!(buffer.get_pixel(2, 2).unwrap(), [0, 0, 0, 0]);
    assert!(rectangle(&mut buffer, 0, 0, 5, 5, [9, 9, 9, 255], true).is_err());
}

#[test]
fn circle_outline_scenario() {
    // A circle centered at (2,2) through (2,0) (radius 2), outlined, sets the
    // cardinal points and leaves the center untouched.
    let mut buffer = PixelBuffer::new(4, 4);
    circle(&mut buffer, 2, 2, 2, 0, [1, 2, 3, 255], false).unwrap();
    assert_eq!(buffer.get_pixel(2, 0).unwrap(), [1, 2, 3, 255]);
    assert_eq!(buffer.get_pixel(0, 2).unwrap(), [1, 2, 3, 255]);
    assert_eq!(buffer.get_pixel(2, 2).unwrap(), [0, 0, 0, 0]);
}

#[test]
fn circle_filled_covers_disc() {
    let mut buffer = PixelBuffer::new(5, 5);
    circle(&mut buffer, 2, 2, 4, 2, [8, 8, 8, 255], true).unwrap();
    assert_eq!(buffer.get_pixel(2, 2).unwrap(), [8, 8, 8, 255]);
    assert_eq!(buffer.get_pixel(4, 2).unwrap(), [8, 8, 8, 255]);
    assert_eq!(buffer.get_pixel(4, 4).unwrap(), [0, 0, 0, 0]);
    // Radius zero is a no-op.
    let mut small = PixelBuffer::new(2, 2);
    circle(&mut small, 1, 1, 1, 1, [5, 5, 5, 5], true).unwrap();
    assert_eq!(small.get_pixel(1, 1).unwrap(), [0, 0, 0, 0]);
}

#[test]
fn fill_floods_connected_region() {
    let mut buffer = PixelBuffer::new(4, 1);
    // Wall at x = 2 separates the row.
    buffer.set_pixel(2, 0, [9, 9, 9, 255]).unwrap();
    fill(&mut buffer, 0, 0, [1, 1, 1, 255]).unwrap();
    assert_eq!(buffer.get_pixel(0, 0).unwrap(), [1, 1, 1, 255]);
    assert_eq!(buffer.get_pixel(1, 0).unwrap(), [1, 1, 1, 255]);
    assert_eq!(buffer.get_pixel(2, 0).unwrap(), [9, 9, 9, 255]);
    assert_eq!(buffer.get_pixel(3, 0).unwrap(), [0, 0, 0, 0]);
    assert!(fill(&mut buffer, 9, 0, [1, 1, 1, 255]).is_err());
}

#[test]
fn fill_is_a_no_op_on_matching_color() {
    let mut buffer = PixelBuffer::new(3, 3);
    rectangle(&mut buffer, 0, 0, 2, 2, [4, 5, 6, 255], true).unwrap();
    let before = buffer.data.clone();
    fill(&mut buffer, 1, 1, [4, 5, 6, 255]).unwrap();
    assert_eq!(buffer.data, before);
}

#[test]
fn replace_color_matches_rgb_only() {
    let mut buffer = PixelBuffer::new(2, 1);
    buffer.set_pixel(0, 0, [10, 20, 30, 77]).unwrap();
    buffer.set_pixel(1, 0, [10, 20, 31, 255]).unwrap();
    // Target alpha differs from the stored alpha; RGB alone decides.
    replace_all_color(&mut buffer, [10, 20, 30, 255], [1, 1, 1, 128]);
    assert_eq!(buffer.get_pixel(0, 0).unwrap(), [1, 1, 1, 128]);
    assert_eq!(buffer.get_pixel(1, 0).unwrap(), [10, 20, 31, 255]);
}
