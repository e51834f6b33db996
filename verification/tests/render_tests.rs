use image::Rgb;
use mandelbrot_generator::buffer::ResultBuffer;
use mandelbrot_generator::canvas::Canvas;
use mandelbrot_generator::coord::Pixel;
use mandelbrot_generator::mandelbrot_kernel::escape_time;
use mandelbrot_generator::render::{compute_column, paint, paint_column, render, Mode};
use num_complex::Complex;

const BLACK: Rgb<u8> = Rgb([0, 0, 0]);
const WHITE: Rgb<u8> = Rgb([255, 255, 255]);

/// The escape time of the orbit of `c` under `z * z + c`.
fn escape(c_re: f64, c_im: f64, max_iterations: u16) -> u16 {
    let c = Complex::new(c_re, c_im);
    let step = |z: Complex<f64>| z * z + c;
    let escaped = |z: Complex<f64>| z.norm_sqr() > 4.0;
    escape_time(Complex::new(0.0, 0.0), &step, &escaped, max_iterations)
}

/// The kernel of a square image with the usual view of the set.
fn usual_view(side: u32, max_iterations: u16) -> impl Fn(u32, u32) -> u16 {
    let center = Pixel::new(side / 2, side / 2);
    let scale: f64 = 1.0 / 0.67;
    let x_per_px: f64 = scale / (side as f64 - center.x as f64);
    let y_per_px: f64 = scale / center.y as f64;
    move |x: u32, y: u32| {
        let offset: (i64, i64) = Pixel::new(x, y).offset_from(center);
        escape(
            offset.0 as f64 * x_per_px - 0.75,
            offset.1 as f64 * y_per_px,
            max_iterations,
        )
    }
}

#[test]
fn new_buffer_is_zero() {
    let buffer = ResultBuffer::new(3, 2);
    assert_eq!(buffer.width, 3);
    assert_eq!(buffer.height, 2);
    assert_eq!(buffer.data, vec![0; 6]);
}

#[test]
fn buffer_without_pixels() {
    assert_eq!(ResultBuffer::new(0, 5).data.len(), 0);
    assert_eq!(ResultBuffer::new(5, 0).data.len(), 0);
}

#[test]
fn buffer_stores_column_after_column() {
    let mut buffer = ResultBuffer::new(3, 2);
    buffer.store_column(1, &vec![7, 9]);
    assert_eq!(buffer.data, vec![0, 0, 7, 9, 0, 0]);
    buffer.store_column(2, &vec![1, 2]);
    buffer.store_column(0, &vec![3, 4]);
    assert_eq!(buffer.data, vec![3, 4, 7, 9, 1, 2]);
    assert_eq!(buffer.get(0, 0), 3);
    assert_eq!(buffer.get(0, 1), 4);
    assert_eq!(buffer.get(1, 0), 7);
    assert_eq!(buffer.get(2, 1), 2);
}

#[test]
fn storing_a_column_again_replaces_it() {
    let mut buffer = ResultBuffer::new(2, 2);
    buffer.store_column(1, &vec![5, 6]);
    buffer.store_column(1, &vec![8, 9]);
    assert_eq!(buffer.data, vec![0, 0, 8, 9]);
}

#[test]
fn column_asks_the_kernel_for_every_row() {
    let kernel = |x: u32, y: u32| (x * 100 + y) as u16;
    assert_eq!(compute_column(3, 4, &kernel), vec![300, 301, 302, 303]);
    assert_eq!(compute_column(3, 0, &kernel), Vec::<u16>::new());
}

#[test]
fn render_fills_every_pixel() {
    let kernel = |x: u32, y: u32| (x * 10 + y + 1) as u16;
    let buffer = render(5, 3, 2, &kernel);
    assert_eq!(buffer.width, 5);
    assert_eq!(buffer.height, 3);
    for x in 0..5u32 {
        for y in 0..3u32 {
            assert_eq!(buffer.get(x, y), (x * 10 + y + 1) as u16);
        }
    }
}

#[test]
fn render_with_more_workers_than_columns() {
    let kernel = |x: u32, y: u32| (x + 2 * y + 1) as u16;
    let buffer = render(3, 2, 8, &kernel);
    assert_eq!(buffer.data, vec![1, 3, 2, 4, 3, 5]);
}

#[test]
fn render_of_an_empty_image() {
    let kernel = |_x: u32, _y: u32| 1u16;
    assert_eq!(render(0, 0, 4, &kernel).data, Vec::<u16>::new());
    assert_eq!(render(0, 3, 1, &kernel).data, Vec::<u16>::new());
    assert_eq!(render(3, 0, 2, &kernel).data, Vec::<u16>::new());
}

#[test]
fn render_does_not_depend_on_the_number_of_workers() {
    let kernel = usual_view(16, 50);
    let alone = render(16, 16, 1, &kernel);
    for threads in [2usize, 3, 4, 5, 16, 17, 64] {
        let shared = render(16, 16, threads, &kernel);
        assert_eq!(shared.data, alone.data, "{threads} workers");
    }
}

#[test]
fn images_of_one_and_four_workers_are_the_same() {
    let kernel = usual_view(12, 40);
    let mut images: Vec<Vec<u8>> = Vec::new();
    for threads in [1usize, 4] {
        let buffer = render(12, 12, threads, &kernel);
        let mut canvas = Canvas::new(12, 12);
        paint(&mut canvas, &buffer, 40, Mode::Colored, 7, 30);
        images.push(canvas.to_raw());
    }
    assert_eq!(images[0], images[1]);
}

#[test]
fn counts_lie_between_one_and_the_limit() {
    let kernel = usual_view(16, 25);
    let buffer = render(16, 16, 4, &kernel);
    for count in buffer.data.iter().copied() {
        assert!(1 <= count && count <= 25);
    }
}

#[test]
fn small_binary_image_end_to_end() {
    let kernel = usual_view(4, 10);
    let buffer = render(4, 4, 2, &kernel);
    let mut canvas = Canvas::new(4, 4);
    paint(&mut canvas, &buffer, 10, Mode::Binary, 1, 0);
    // the pixel next to the origin of the plane
    assert_eq!(buffer.get(3, 2), 10);
    assert_eq!(canvas.get_pixel(3, 2), BLACK);
    // the corners, far out
    assert_eq!(buffer.get(0, 0), 1);
    assert_eq!(canvas.get_pixel(0, 0), WHITE);
    assert_eq!(canvas.get_pixel(0, 3), WHITE);
    // every pixel is black or white
    for x in 0..4u32 {
        for y in 0..4u32 {
            let color = canvas.get_pixel(x, y);
            assert!(color == BLACK || color == WHITE);
            assert_eq!(color == BLACK, buffer.get(x, y) == 10);
        }
    }
}

#[test]
fn paint_colours_each_pixel_by_its_count() {
    let mut buffer = ResultBuffer::new(2, 2);
    buffer.store_column(0, &vec![30, 100]);
    buffer.store_column(1, &vec![90, 1]);
    let mut canvas = Canvas::new(2, 2);
    paint(&mut canvas, &buffer, 100, Mode::Colored, 1, 0);
    assert_eq!(canvas.get_pixel(0, 0), Rgb([255, 127, 0]));
    assert_eq!(canvas.get_pixel(0, 1), BLACK);
    assert_eq!(canvas.get_pixel(1, 0), Rgb([127, 255, 0]));
    assert_eq!(canvas.get_pixel(1, 1), Rgb([255, 4, 0]));
}

#[test]
fn paint_in_binary_mode() {
    let mut buffer = ResultBuffer::new(2, 1);
    buffer.store_column(0, &vec![5]);
    buffer.store_column(1, &vec![9]);
    let mut canvas = Canvas::new(2, 1);
    paint(&mut canvas, &buffer, 9, Mode::Binary, 3, 3);
    assert_eq!(canvas.to_raw(), vec![255, 255, 255, 0, 0, 0]);
}

#[test]
fn paint_covers_what_was_drawn() {
    let buffer = ResultBuffer::new(3, 3);
    let mut canvas = Canvas::new(3, 3);
    canvas.line(0, 0, 2, 2);
    paint(&mut canvas, &buffer, 0, Mode::Binary, 1, 0);
    assert_eq!(canvas.to_raw(), vec![0; 27]);
}

#[test]
fn paint_column_leaves_the_other_columns() {
    let mut buffer = ResultBuffer::new(3, 2);
    buffer.store_column(1, &vec![1, 9]);
    let mut canvas = Canvas::new(3, 2);
    canvas.put_pixel(0, 0, Rgb([7, 7, 7]));
    canvas.put_pixel(1, 1, Rgb([7, 7, 7]));
    paint_column(&mut canvas, &buffer, 1, 9, Mode::Binary, 1, 0);
    assert_eq!(canvas.get_pixel(0, 0), Rgb([7, 7, 7]));
    assert_eq!(canvas.get_pixel(1, 0), WHITE);
    assert_eq!(canvas.get_pixel(1, 1), BLACK);
    assert_eq!(canvas.get_pixel(2, 0), BLACK);
}
