//! The image surface: a grid of RGB pixels with a stroke colour for drawing
//! straight lines.

use crate::buffer::lemma_cell_place;
use crate::mandelbrot_color::rgb;
use image::Rgb;
use vstd::prelude::*;

verus! {

/// The pixels of a canvas, held in an `image::RgbImage`.
///
/// Verus sees nothing of the image.  What the wrappers below say of it is
/// stated over [`buffer_size`] and [`buffer_pixels`], and is taken from the
/// `image` crate, not proved.
#[verifier::external_body]
pub struct PixelBuffer {
    image: image::RgbImage,
}

/// The size of the image: the number of its columns, then that of its rows.
pub uninterp spec fn buffer_size(buffer: PixelBuffer) -> (u32, u32);

/// The colour of each pixel of the image, by column and row.
pub uninterp spec fn buffer_pixels(buffer: PixelBuffer) -> Map<(int, int), Rgb<u8>>;

/// The positions of a grid of the given size.
pub open spec fn grid(width: u32, height: u32) -> Set<(int, int)> {
    Set::new(|p: (int, int)| 0 <= p.0 < width && 0 <= p.1 < height)
}

/// A grid of the given size with every pixel black.
pub open spec fn blank(width: u32, height: u32) -> Map<(int, int), Rgb<u8>> {
    Map::new(|p: (int, int)| grid(width, height).contains(p), |p: (int, int)| rgb(0, 0, 0))
}

impl PixelBuffer {
    /// `image::ImageBuffer::new`: an image of the given size whose samples
    /// are all zero.  It panics when the three bytes per pixel do not fit in
    /// one vector, which the precondition rules out.
    #[verifier::external_body]
    pub(crate) fn new(width: u32, height: u32) -> (buffer: PixelBuffer)
        requires
            3 * width * height <= isize::MAX,
        ensures
            buffer_size(buffer) == (width, height),
            buffer_pixels(buffer) == blank(width, height),
    {
        PixelBuffer { image: image::RgbImage::new(width, height) }
    }

    /// `image::ImageBuffer::put_pixel`: replaces the pixel at `(x, y)` and
    /// leaves the size and every other pixel as they were.  It panics
    /// outside the image, which the precondition rules out.
    #[verifier::external_body]
    pub(crate) fn put(&mut self, x: u32, y: u32, color: Rgb<u8>)
        requires
            x < buffer_size(*old(self)).0,
            y < buffer_size(*old(self)).1,
        ensures
            buffer_size(*final(self)) == buffer_size(*old(self)),
            buffer_pixels(*final(self)) == buffer_pixels(*old(self)).insert(
                (x as int, y as int),
                color,
            ),
    {
        self.image.put_pixel(x, y, color)
    }

    /// `image::ImageBuffer::get_pixel`: the pixel at `(x, y)`.  It panics
    /// outside the image, which the precondition rules out.
    #[verifier::external_body]
    pub(crate) fn get(&self, x: u32, y: u32) -> (color: Rgb<u8>)
        requires
            x < buffer_size(*self).0,
            y < buffer_size(*self).1,
        ensures
            color == buffer_pixels(*self)[(x as int, y as int)],
    {
        *self.image.get_pixel(x, y)
    }
}

/// How far a line has moved along its minor axis after `k` steps along its
/// major axis: `k * minor / major`, rounded to the nearest whole number, a
/// tie going to the lower one.
pub open spec fn minor_steps(k: int, minor: int, major: int) -> int {
    if major == 0 {
        0
    } else {
        (2 * (k * minor) + major - 1) / (2 * major)
    }
}

/// The distance between two coordinates.
pub open spec fn span(a: int, b: int) -> int {
    if a < b {
        b - a
    } else {
        a - b
    }
}

/// The row in which a line of low slope from `(x1, y1)` to `(x2, y2)`, with
/// `x1 <= x2`, crosses column `x`.
pub open spec fn low_row(x1: int, y1: int, x2: int, y2: int, x: int) -> int {
    let n = minor_steps(x - x1, span(y1, y2), x2 - x1);
    if y2 < y1 {
        y1 - n
    } else {
        y1 + n
    }
}

/// The column in which a line of high slope from `(x1, y1)` to `(x2, y2)`,
/// with `y1 <= y2`, crosses row `y`.
pub open spec fn high_column(x1: int, y1: int, x2: int, y2: int, y: int) -> int {
    let n = minor_steps(y - y1, span(x1, x2), y2 - y1);
    if x2 < x1 {
        x1 - n
    } else {
        x1 + n
    }
}

/// Whether `(x, y)` lies on the line of low slope from `(x1, y1)` to
/// `(x2, y2)`: one position in each column from `x1` to `x2`.
pub open spec fn on_low(x1: int, y1: int, x2: int, y2: int, x: int, y: int) -> bool {
    x1 <= x <= x2 && y == low_row(x1, y1, x2, y2, x)
}

/// Whether `(x, y)` lies on the line of high slope from `(x1, y1)` to
/// `(x2, y2)`: one position in each row from `y1` to `y2`.
pub open spec fn on_high(x1: int, y1: int, x2: int, y2: int, x: int, y: int) -> bool {
    y1 <= y <= y2 && x == high_column(x1, y1, x2, y2, y)
}

/// Whether `(x, y)` lies on the line between `(x1, y1)` and `(x2, y2)`.
///
/// A line that is wider than it is tall has low slope and is followed
/// column by column from its left end; any other line is followed row by
/// row from its upper end.  Both directions of a line give the same
/// positions.
pub open spec fn on_line(x1: int, y1: int, x2: int, y2: int, x: int, y: int) -> bool {
    if span(y1, y2) < span(x1, x2) {
        if x1 > x2 {
            on_low(x2, y2, x1, y1, x, y)
        } else {
            on_low(x1, y1, x2, y2, x, y)
        }
    } else {
        if y1 > y2 {
            on_high(x2, y2, x1, y1, x, y)
        } else {
            on_high(x1, y1, x2, y2, x, y)
        }
    }
}

/// A line is the same from either end: the positions between `(x1, y1)`
/// and `(x2, y2)` are those between `(x2, y2)` and `(x1, y1)`.
pub proof fn lemma_line_has_no_direction(x1: int, y1: int, x2: int, y2: int, x: int, y: int)
    ensures
        on_line(x1, y1, x2, y2, x, y) == on_line(x2, y2, x1, y1, x, y),
{
}

/// A line holds both of its ends.
pub proof fn lemma_line_holds_its_ends(x1: int, y1: int, x2: int, y2: int)
    ensures
        on_line(x1, y1, x2, y2, x1, y1),
        on_line(x1, y1, x2, y2, x2, y2),
{
    let wide = span(x1, x2);
    let tall = span(y1, y2);
    if tall < wide {
        lemma_steps_at_the_ends(tall, wide);
    } else {
        lemma_steps_at_the_ends(wide, tall);
    }
}

/// A line has made no minor step at its start and all of them at its end.
proof fn lemma_steps_at_the_ends(minor: int, major: int)
    requires
        0 <= minor <= major,
    ensures
        minor_steps(0, minor, major) == 0,
        minor_steps(major, minor, major) == minor,
{
    if major > 0 {
        assert(0 * minor == 0);
        vstd::arithmetic::div_mod::lemma_fundamental_div_mod_converse(
            major - 1,
            2 * major,
            0,
            major - 1,
        );
        assert(2 * (major * minor) + major - 1 == minor * (2 * major) + (major - 1))
            by (nonlinear_arith);
        vstd::arithmetic::div_mod::lemma_fundamental_div_mod_converse(
            2 * (major * minor) + major - 1,
            2 * major,
            minor,
            major - 1,
        );
    }
}

/// The decision value of the line stepper determines the number of minor
/// steps made so far: while it stays in its range, that number is the
/// rounded quotient.
proof fn lemma_decision_gives_steps(k: int, n: int, minor: int, major: int, sel: int)
    requires
        major > 0,
        sel == 2 * minor - major + 2 * (k * minor) - 2 * (n * major),
        2 * minor - 2 * major < sel <= 2 * minor,
    ensures
        n == minor_steps(k, minor, major),
{
    let total = 2 * (k * minor) + major - 1;
    let rest = total - 2 * (n * major);
    assert(n * (2 * major) == 2 * (n * major)) by (nonlinear_arith);
    assert(total == n * (2 * major) + rest);
    vstd::arithmetic::div_mod::lemma_fundamental_div_mod_converse(total, 2 * major, n, rest);
}

/// Between the ends of a line the minor steps stay between nought and the
/// line's minor extent.
proof fn lemma_steps_bounded(k: int, minor: int, major: int)
    requires
        0 <= k <= major,
        0 <= minor,
    ensures
        0 <= minor_steps(k, minor, major) <= minor,
{
    if major > 0 {
        let total = 2 * (k * minor) + major - 1;
        assert(0 <= k * minor <= major * minor) by (nonlinear_arith)
            requires
                0 <= k <= major,
                0 <= minor,
        ;
        assert(total < (2 * major) * (minor + 1)) by (nonlinear_arith)
            requires
                total == 2 * (k * minor) + major - 1,
                k * minor <= major * minor,
                major > 0,
        ;
        let width = 2 * major;
        let q = total / width;
        let r = total % width;
        vstd::arithmetic::div_mod::lemma_fundamental_div_mod(total, width);
        vstd::arithmetic::div_mod::lemma_mod_pos_bound(total, width);
        assert(0 <= q <= minor) by (nonlinear_arith)
            requires
                total == width * q + r,
                0 <= r < width,
                0 <= total < width * (minor + 1),
        ;
    }
}

/// A pixel grid with a stroke colour.
pub struct Canvas {
    pub width: u32,
    pub height: u32,
    pub stroke: Rgb<u8>,
    pub img_buffer: PixelBuffer,
}

impl Canvas {
    /// The fields `width` and `height` give the size of the image, the
    /// image holds one colour for each position of that grid, and its
    /// samples, three to a pixel, fit in one vector.
    pub open spec fn wf(&self) -> bool {
        &&& buffer_size(self.img_buffer) == (self.width, self.height)
        &&& buffer_pixels(self.img_buffer).dom() == grid(self.width, self.height)
        &&& 3 * self.width * self.height <= isize::MAX
    }

    /// The pixels of the canvas, by column and row.
    pub open spec fn pixels(&self) -> Map<(int, int), Rgb<u8>> {
        buffer_pixels(self.img_buffer)
    }

    /// The colour at column `x`, row `y`.
    pub open spec fn pixel(&self, x: int, y: int) -> Rgb<u8> {
        self.pixels()[(x, y)]
    }

    /// Whether `(x, y)` is a position of the canvas.
    pub open spec fn contains(&self, x: int, y: int) -> bool {
        0 <= x < self.width && 0 <= y < self.height
    }

    /// A black canvas of the given size with a white stroke.
    pub fn new(width: u32, height: u32) -> (canvas: Canvas)
        requires
            3 * width * height <= isize::MAX,
        ensures
            canvas.wf(),
            canvas.width == width,
            canvas.height == height,
            canvas.stroke == rgb(255, 255, 255),
            canvas.pixels() == blank(width, height),
    {
        let canvas = Canvas {
            width,
            height,
            stroke: Rgb([255u8, 255u8, 255u8]),
            img_buffer: PixelBuffer::new(width, height),
        };
        assert(canvas.pixels().dom() =~= grid(width, height));
        canvas
    }

    fn in_bounds(&self, x: u32, y: u32) -> (inside: bool)
        ensures
            inside == self.contains(x as int, y as int),
    {
        x < self.width && y < self.height
    }

    /// Sets the pixel at `(x, y)` to `color`.  A position outside the canvas
    /// is passed over: nothing changes.
    pub fn put_pixel(&mut self, x: u32, y: u32, color: Rgb<u8>)
        requires
            old(self).wf(),
        ensures
            final(self).wf(),
            final(self).width == old(self).width,
            final(self).height == old(self).height,
            final(self).stroke == old(self).stroke,
            final(self).pixels() == if old(self).contains(x as int, y as int) {
                old(self).pixels().insert((x as int, y as int), color)
            } else {
                old(self).pixels()
            },
    {
        if self.in_bounds(x, y) {
            self.img_buffer.put(x, y, color);
            assert(self.pixels().dom() =~= grid(self.width, self.height));
        }
    }

    /// The colour of the pixel at `(x, y)`.
    pub fn get_pixel(&self, x: u32, y: u32) -> (color: Rgb<u8>)
        requires
            self.wf(),
            self.contains(x as int, y as int),
        ensures
            color == self.pixel(x as int, y as int),
    {
        self.img_buffer.get(x, y)
    }

    /// Draws the line between `(x1, y1)` and `(x2, y2)` in the stroke
    /// colour.  The positions of the line that lie outside the canvas are
    /// passed over; every pixel off the line stays as it was.
    pub fn line(&mut self, x1: u32, y1: u32, x2: u32, y2: u32)
        requires
            old(self).wf(),
        ensures
            final(self).wf(),
            final(self).width == old(self).width,
            final(self).height == old(self).height,
            final(self).stroke == old(self).stroke,
            forall|x: int, y: int|
                old(self).contains(x, y) ==> #[trigger] final(self).pixel(x, y) == if on_line(
                    x1 as int,
                    y1 as int,
                    x2 as int,
                    y2 as int,
                    x,
                    y,
                ) {
                    old(self).stroke
                } else {
                    old(self).pixel(x, y)
                },
    {
        let rise: u32 = if y1 < y2 {
            y2 - y1
        } else {
            y1 - y2
        };
        let run: u32 = if x1 < x2 {
            x2 - x1
        } else {
            x1 - x2
        };
        if rise < run {
            if x1 > x2 {
                self.line_low(x2, y2, x1, y1);
            } else {
                self.line_low(x1, y1, x2, y2);
            }
        } else {
            if y1 > y2 {
                self.line_high(x2, y2, x1, y1);
            } else {
                self.line_high(x1, y1, x2, y2);
            }
        }
    }

    /// Follows a line of low slope from its left end, column by column.
    fn line_low(&mut self, x1: u32, y1: u32, x2: u32, y2: u32)
        requires
            old(self).wf(),
            x1 <= x2,
            span(y1 as int, y2 as int) < x2 - x1,
        ensures
            final(self).wf(),
            final(self).width == old(self).width,
            final(self).height == old(self).height,
            final(self).stroke == old(self).stroke,
            forall|x: int, y: int|
                old(self).contains(x, y) ==> #[trigger] final(self).pixel(x, y) == if on_low(
                    x1 as int,
                    y1 as int,
                    x2 as int,
                    y2 as int,
                    x,
                    y,
                ) {
                    old(self).stroke
                } else {
                    old(self).pixel(x, y)
                },
    {
        let dx: i64 = x2 as i64 - x1 as i64;
        let mut dy: i64 = y2 as i64 - y1 as i64;

        let mut yi: i64 = 1;
        if dy < 0 {
            yi = -1;
            dy = -dy;
        }
        let mut sel: i64 = 2 * dy - dx;
        let mut y: i64 = y1 as i64;
        let stroke = self.stroke;
        let ghost mut n: int = 0;
        assert(0 * dy == 0 && 0 * dx == 0);

        let mut x: u64 = x1 as u64;
        while x <= x2 as u64
            invariant
                self.wf(),
                self.width == old(self).width,
                self.height == old(self).height,
                self.stroke == old(self).stroke,
                stroke == old(self).stroke,
                x1 <= x <= x2 + 1,
                dx == x2 - x1,
                dy == span(y1 as int, y2 as int),
                dy < dx,
                yi == if y2 < y1 {
                    -1i64
                } else {
                    1i64
                },
                0 <= n <= x - x1,
                y == if y2 < y1 {
                    y1 - n
                } else {
                    y1 + n
                },
                sel == 2 * dy - dx + 2 * ((x - x1) * dy) - 2 * (n * dx),
                2 * dy - 2 * dx < sel <= 2 * dy,
                forall|px: int, py: int|
                    old(self).contains(px, py) ==> #[trigger] self.pixel(px, py) == if px < x
                        && on_low(x1 as int, y1 as int, x2 as int, y2 as int, px, py) {
                        stroke
                    } else {
                        old(self).pixel(px, py)
                    },
            decreases x2 + 1 - x,
        {
            let ghost k: int = x - x1;
            proof {
                lemma_decision_gives_steps(k, n, dy as int, dx as int, sel as int);
                lemma_steps_bounded(k, dy as int, dx as int);
            }
            assert(y == low_row(x1 as int, y1 as int, x2 as int, y2 as int, x as int));
            let ghost before = *self;
            self.put_pixel(x as u32, y as u32, stroke);
            assert forall|px: int, py: int| old(self).contains(px, py) implies #[trigger] self.pixel(
                px,
                py,
            ) == if px < x + 1 && on_low(x1 as int, y1 as int, x2 as int, y2 as int, px, py) {
                stroke
            } else {
                old(self).pixel(px, py)
            } by {
                if px == x && py == y {
                    assert(before.contains(px, py));
                } else {
                    assert((px, py) != (x as int, y as int));
                    assert(self.pixel(px, py) == before.pixel(px, py));
                }
            }
            if sel > 0 {
                y = y + yi;
                sel = sel + 2 * (dy - dx);
                proof {
                    assert((n + 1) * dx == n * dx + dx) by (nonlinear_arith);
                    n = n + 1;
                }
            } else {
                sel = sel + 2 * dy;
            }
            assert((k + 1) * dy == k * dy + dy) by (nonlinear_arith);
            x = x + 1;
        }
    }

    /// Follows a line of high slope from its upper end, row by row.
    fn line_high(&mut self, x1: u32, y1: u32, x2: u32, y2: u32)
        requires
            old(self).wf(),
            y1 <= y2,
            span(x1 as int, x2 as int) <= y2 - y1,
        ensures
            final(self).wf(),
            final(self).width == old(self).width,
            final(self).height == old(self).height,
            final(self).stroke == old(self).stroke,
            forall|x: int, y: int|
                old(self).contains(x, y) ==> #[trigger] final(self).pixel(x, y) == if on_high(
                    x1 as int,
                    y1 as int,
                    x2 as int,
                    y2 as int,
                    x,
                    y,
                ) {
                    old(self).stroke
                } else {
                    old(self).pixel(x, y)
                },
    {
        let mut dx: i64 = x2 as i64 - x1 as i64;
        let dy: i64 = y2 as i64 - y1 as i64;

        let mut xi: i64 = 1;
        if dx < 0 {
            xi = -1;
            dx = -dx;
        }
        let mut sel: i64 = 2 * dx - dy;
        let mut x: i64 = x1 as i64;
        let stroke = self.stroke;
        let ghost mut n: int = 0;
        assert(0 * dy == 0 && 0 * dx == 0);

        let mut y: u64 = y1 as u64;
        while y <= y2 as u64
            invariant
                self.wf(),
                self.width == old(self).width,
                self.height == old(self).height,
                self.stroke == old(self).stroke,
                stroke == old(self).stroke,
                y1 <= y <= y2 + 1,
                dy == y2 - y1,
                dx == span(x1 as int, x2 as int),
                dx <= dy,
                xi == if x2 < x1 {
                    -1i64
                } else {
                    1i64
                },
                0 <= n <= y - y1,
                x == if x2 < x1 {
                    x1 - n
                } else {
                    x1 + n
                },
                dy == 0 ==> n == 0 && sel == 0,
                dy > 0 ==> sel == 2 * dx - dy + 2 * ((y - y1) * dx) - 2 * (n * dy),
                dy > 0 ==> 2 * dx - 2 * dy < sel <= 2 * dx,
                forall|px: int, py: int|
                    old(self).contains(px, py) ==> #[trigger] self.pixel(px, py) == if py < y
                        && on_high(x1 as int, y1 as int, x2 as int, y2 as int, px, py) {
                        stroke
                    } else {
                        old(self).pixel(px, py)
                    },
            decreases y2 + 1 - y,
        {
            let ghost k: int = y - y1;
            proof {
                if dy > 0 {
                    lemma_decision_gives_steps(k, n, dx as int, dy as int, sel as int);
                }
                lemma_steps_bounded(k, dx as int, dy as int);
            }
            assert(x == high_column(x1 as int, y1 as int, x2 as int, y2 as int, y as int));
            let ghost before = *self;
            self.put_pixel(x as u32, y as u32, stroke);
            assert forall|px: int, py: int| old(self).contains(px, py) implies #[trigger] self.pixel(
                px,
                py,
            ) == if py < y + 1 && on_high(x1 as int, y1 as int, x2 as int, y2 as int, px, py) {
                stroke
            } else {
                old(self).pixel(px, py)
            } by {
                if px == x && py == y {
                    assert(before.contains(px, py));
                } else {
                    assert((px, py) != (x as int, y as int));
                    assert(self.pixel(px, py) == before.pixel(px, py));
                }
            }
            if sel > 0 {
                x = x + xi;
                sel = sel + 2 * (dx - dy);
                proof {
                    assert((n + 1) * dy == n * dy + dy) by (nonlinear_arith);
                    n = n + 1;
                }
            } else {
                sel = sel + 2 * dx;
            }
            assert((k + 1) * dx == k * dx + dx) by (nonlinear_arith);
            y = y + 1;
        }
    }

    /// The samples of the image as an image file holds them: row after row
    /// from the top, in each row pixel after pixel from the left, and for
    /// each pixel its red, green and blue channel.
    pub open spec fn samples(&self) -> Seq<u8> {
        Seq::new(
            (3 * self.width * self.height) as nat,
            |i: int| self.pixel((i / 3) % (self.width as int), (i / 3) / (self.width as int)).0[i % 3],
        )
    }

    /// Copies the samples of the image out, in the order of
    /// [`Canvas::samples`].
    pub fn to_raw(&self) -> (raw: Vec<u8>)
        requires
            self.wf(),
        ensures
            raw@ == self.samples(),
    {
        let mut raw: Vec<u8> = Vec::new();
        let mut y: u32 = 0;
        assert(0 * self.width == 0);
        while y < self.height
            invariant
                self.wf(),
                y <= self.height,
                raw.len() == 3 * (y * self.width),
                forall|i: int| 0 <= i < raw.len() ==> #[trigger] raw[i] == self.samples()[i],
            decreases self.height - y,
        {
            let mut x: u32 = 0;
            while x < self.width
                invariant
                    self.wf(),
                    y < self.height,
                    x <= self.width,
                    raw.len() == 3 * (y * self.width + x),
                    forall|i: int| 0 <= i < raw.len() ==> #[trigger] raw[i] == self.samples()[i],
                decreases self.width - x,
            {
                let color = self.img_buffer.get(x, y);
                let ghost place = y * self.width + x;
                proof {
                    lemma_cell_place(y as int, x as int, self.height as int, self.width as int);
                    assert(3 * place + 2 < 3 * self.width * self.height) by (nonlinear_arith)
                        requires
                            0 <= place < self.height * self.width,
                    ;
                    assert((3 * place) / 3 == place && (3 * place + 1) / 3 == place && (3 * place
                        + 2) / 3 == place);
                }
                raw.push(color.0[0]);
                raw.push(color.0[1]);
                raw.push(color.0[2]);
                x = x + 1;
            }
            assert((y + 1) * self.width == y * self.width + self.width) by (nonlinear_arith);
            y = y + 1;
        }
        assert(3 * (self.height * self.width) == 3 * self.width * self.height) by (nonlinear_arith);
        assert(raw@ =~= self.samples());
        raw
    }
}

} // verus!
