use graphics_engine::color::Color;
use graphics_engine::key::key_from_bits;
use graphics_engine::raster::{camera_row, glyph, image_bytes, pixel_at, text_frame};

fn key(v: f32) -> i32 {
    key_from_bits(v.to_bits())
}

#[test]
fn pixel_order_runs_down_columns() {
    assert_eq!(pixel_at(0, 2, 3), (0, 0));
    assert_eq!(pixel_at(2, 2, 3), (0, 2));
    assert_eq!(pixel_at(3, 2, 3), (1, 0));
    assert_eq!(pixel_at(5, 2, 3), (1, 2));
}

#[test]
fn camera_rows_run_up() {
    assert_eq!(camera_row(0, 4), 3);
    assert_eq!(camera_row(3, 4), 0);
}

#[test]
fn image_bytes_are_row_major() {
    // width 2, height 3; pixel (x, y) comes at position x * 3 + y
    let pixels: Vec<Color> = (0..6u8).map(|i| Color::new(i, 10 + i, 20 + i)).collect();
    let out = image_bytes(2, 3, &pixels);
    assert_eq!(out.len(), 18);
    let expected_order = [0u8, 3, 1, 4, 2, 5];
    for (j, &p) in expected_order.iter().enumerate() {
        assert_eq!(&out[3 * j..3 * j + 3], &[p, 10 + p, 20 + p]);
    }
}

#[test]
fn image_bytes_of_empty_image() {
    assert!(image_bytes(0, 5, &vec![]).is_empty());
}

#[test]
fn glyphs_follow_thresholds() {
    assert_eq!(glyph(key(-0.5)), ' ');
    assert_eq!(glyph(key(-1e-20)), ' ');
    assert_eq!(glyph(key(-0.0)), '.');
    assert_eq!(glyph(key(0.0)), '.');
    assert_eq!(glyph(key(0.1)), '.');
    assert_eq!(glyph(key(0.2)), '*');
    assert_eq!(glyph(key(0.49)), '*');
    assert_eq!(glyph(key(0.5)), 'O');
    assert_eq!(glyph(key(0.79)), 'O');
    assert_eq!(glyph(key(0.8)), '#');
    assert_eq!(glyph(key(1.0)), '#');
}

#[test]
fn text_frame_breaks_rows() {
    let glyphs: Vec<char> = "abcdef".chars().collect();
    let out: String = text_frame(3, 2, &glyphs).into_iter().collect();
    assert_eq!(out, "abc\ndef\n");
    let none: String = text_frame(0, 2, &vec![]).into_iter().collect();
    assert_eq!(none, "\n\n");
}
