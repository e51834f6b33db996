use image::Rgb;
use mandelbrot_generator::canvas::Canvas;

const BLACK: Rgb<u8> = Rgb([0, 0, 0]);
const WHITE: Rgb<u8> = Rgb([255, 255, 255]);

/// The positions of the canvas that show the given colour, column by column.
fn positions_of(canvas: &Canvas, color: Rgb<u8>) -> Vec<(u32, u32)> {
    let mut found: Vec<(u32, u32)> = Vec::new();
    for x in 0..canvas.width {
        for y in 0..canvas.height {
            if canvas.get_pixel(x, y) == color {
                found.push((x, y));
            }
        }
    }
    found
}

#[test]
fn new_canvas_is_black_with_white_stroke() {
    let canvas = Canvas::new(4, 3);
    assert_eq!(canvas.width, 4);
    assert_eq!(canvas.height, 3);
    assert_eq!(canvas.stroke, WHITE);
    assert_eq!(positions_of(&canvas, BLACK).len(), 12);
}

#[test]
fn empty_canvas_has_no_samples() {
    let canvas = Canvas::new(0, 7);
    assert_eq!(canvas.to_raw().len(), 0);
}

#[test]
fn put_pixel_sets_one_pixel() {
    let mut canvas = Canvas::new(3, 3);
    canvas.put_pixel(1, 2, Rgb([10, 20, 30]));
    assert_eq!(canvas.get_pixel(1, 2), Rgb([10, 20, 30]));
    assert_eq!(positions_of(&canvas, BLACK).len(), 8);
}

#[test]
fn put_pixel_outside_changes_nothing() {
    let mut canvas = Canvas::new(3, 3);
    canvas.put_pixel(3, 0, WHITE);
    canvas.put_pixel(0, 3, WHITE);
    canvas.put_pixel(u32::MAX, u32::MAX, WHITE);
    assert_eq!(positions_of(&canvas, BLACK).len(), 9);
}

#[test]
fn diagonal_line_covers_exactly_the_diagonal() {
    let mut canvas = Canvas::new(10, 10);
    canvas.line(0, 0, 3, 3);
    assert_eq!(positions_of(&canvas, WHITE), vec![(0, 0), (1, 1), (2, 2), (3, 3)]);
    assert_eq!(positions_of(&canvas, BLACK).len(), 96);
}

#[test]
fn line_partly_outside_keeps_its_inner_part() {
    let mut canvas = Canvas::new(5, 5);
    canvas.line(3, 3, 8, 8);
    assert_eq!(positions_of(&canvas, WHITE), vec![(3, 3), (4, 4)]);
}

#[test]
fn line_wholly_outside_draws_nothing() {
    let mut canvas = Canvas::new(4, 4);
    canvas.line(10, 0, 10, 20);
    canvas.line(4_000_000_000, 4_000_000_000, 4_000_000_010, 4_000_000_003);
    assert_eq!(positions_of(&canvas, BLACK).len(), 16);
}

#[test]
fn low_slope_line_rounds_ties_down() {
    let mut canvas = Canvas::new(8, 8);
    canvas.line(0, 0, 5, 2);
    assert_eq!(
        positions_of(&canvas, WHITE),
        vec![(0, 0), (1, 0), (2, 1), (3, 1), (4, 2), (5, 2)]
    );
}

#[test]
fn low_slope_line_going_up() {
    let mut canvas = Canvas::new(8, 8);
    canvas.line(0, 3, 6, 1);
    assert_eq!(
        positions_of(&canvas, WHITE),
        vec![(0, 3), (1, 3), (2, 2), (3, 2), (4, 2), (5, 1), (6, 1)]
    );
}

#[test]
fn high_slope_line_has_one_pixel_per_row() {
    let mut canvas = Canvas::new(8, 8);
    canvas.line(0, 0, 2, 5);
    assert_eq!(
        positions_of(&canvas, WHITE),
        vec![(0, 0), (0, 1), (1, 2), (1, 3), (2, 4), (2, 5)]
    );
}

#[test]
fn high_slope_line_leaning_left() {
    let mut canvas = Canvas::new(8, 8);
    canvas.line(4, 1, 2, 6);
    assert_eq!(
        positions_of(&canvas, WHITE),
        vec![(2, 5), (2, 6), (3, 3), (3, 4), (4, 1), (4, 2)]
    );
}

#[test]
fn both_directions_draw_the_same_line() {
    let ends: Vec<(u32, u32, u32, u32)> = vec![
        (0, 0, 7, 3),
        (1, 6, 5, 0),
        (2, 0, 3, 7),
        (6, 1, 0, 4),
        (0, 0, 7, 7),
        (7, 0, 0, 7),
    ];
    for (x1, y1, x2, y2) in ends {
        let mut forward = Canvas::new(8, 8);
        forward.line(x1, y1, x2, y2);
        let mut backward = Canvas::new(8, 8);
        backward.line(x2, y2, x1, y1);
        assert_eq!(forward.to_raw(), backward.to_raw());
    }
}

#[test]
fn horizontal_and_vertical_lines() {
    let mut canvas = Canvas::new(5, 5);
    canvas.line(1, 2, 3, 2);
    assert_eq!(positions_of(&canvas, WHITE), vec![(1, 2), (2, 2), (3, 2)]);
    let mut canvas = Canvas::new(5, 5);
    canvas.line(4, 3, 4, 0);
    assert_eq!(positions_of(&canvas, WHITE), vec![(4, 0), (4, 1), (4, 2), (4, 3)]);
}

#[test]
fn line_between_equal_ends_is_one_pixel() {
    let mut canvas = Canvas::new(5, 5);
    canvas.line(2, 3, 2, 3);
    assert_eq!(positions_of(&canvas, WHITE), vec![(2, 3)]);
}

#[test]
fn line_uses_the_stroke() {
    let mut canvas = Canvas::new(4, 4);
    canvas.stroke = Rgb([1, 2, 3]);
    canvas.line(0, 1, 3, 1);
    assert_eq!(
        positions_of(&canvas, Rgb([1, 2, 3])),
        vec![(0, 1), (1, 1), (2, 1), (3, 1)]
    );
}

#[test]
fn line_draws_over_what_was_there() {
    let mut canvas = Canvas::new(4, 4);
    canvas.put_pixel(1, 1, Rgb([9, 9, 9]));
    canvas.put_pixel(2, 0, Rgb([9, 9, 9]));
    canvas.line(0, 0, 3, 3);
    assert_eq!(canvas.get_pixel(1, 1), WHITE);
    assert_eq!(canvas.get_pixel(2, 0), Rgb([9, 9, 9]));
}

#[test]
fn samples_run_row_by_row() {
    let mut canvas = Canvas::new(2, 2);
    canvas.put_pixel(1, 0, Rgb([1, 2, 3]));
    canvas.put_pixel(0, 1, Rgb([4, 5, 6]));
    assert_eq!(canvas.to_raw(), vec![0, 0, 0, 1, 2, 3, 4, 5, 6, 0, 0, 0]);
}

#[test]
fn samples_make_the_same_image() {
    let mut canvas = Canvas::new(3, 2);
    canvas.line(0, 0, 2, 1);
    let copy = image::RgbImage::from_raw(3, 2, canvas.to_raw()).unwrap();
    for x in 0..3u32 {
        for y in 0..2u32 {
            assert_eq!(*copy.get_pixel(x, y), canvas.get_pixel(x, y));
        }
    }
}
