//! The render engine: iteration counts for every pixel, column by column,
//! and the colouring pass that turns them into an image.
//!
//! The engine does not know how a count comes about.  It takes the kernel as
//! a function from a pixel's column and row to its count, asks it once for
//! every pixel and keeps what it answers.

use crate::buffer::ResultBuffer;
use crate::canvas::Canvas;
use crate::mandelbrot_color::{get_rgb, rgb, wheel};
use crate::partition::{lemma_column_owner, share, striped, worker_columns};
use image::Rgb;
use vstd::prelude::*;

verus! {

/// How iteration counts become colours.
#[derive(Copy, Clone, Debug, PartialEq, Eq, Structural)]
pub enum Mode {
    /// Black inside the set, white outside.
    Binary,
    /// Black inside the set, a hue that follows the count outside.
    Colored,
}

/// The colour of a pixel whose orbit took `iterations` steps.
///
/// A count equal to `max_iterations` says that the orbit did not escape: the
/// pixel belongs to the set and is black in either mode.  Any other pixel is
/// white in binary mode; in coloured mode its hue, in degrees, is
/// `iterations * frequency + offset`, turned round the wheel.
pub open spec fn color_of(
    iterations: u16,
    max_iterations: u16,
    mode: Mode,
    frequency: u32,
    offset: u32,
) -> Rgb<u8> {
    if iterations == max_iterations {
        rgb(0, 0, 0)
    } else {
        match mode {
            Mode::Binary => rgb(255, 255, 255),
            Mode::Colored => wheel((iterations * frequency + offset) % 360),
        }
    }
}

/// Computes [`color_of`]: the colour depends on these five values and on
/// nothing else.
pub fn color_for(
    iterations: u16,
    max_iterations: u16,
    mode: Mode,
    frequency: u32,
    offset: u32,
) -> (color: Rgb<u8>)
    ensures
        color == color_of(iterations, max_iterations, mode, frequency, offset),
{
    if iterations == max_iterations {
        Rgb([0u8, 0u8, 0u8])
    } else {
        match mode {
            Mode::Binary => Rgb([255u8, 255u8, 255u8]),
            Mode::Colored => {
                assert(iterations * frequency <= 0xffff * 0xffff_ffff) by (nonlinear_arith)
                    requires
                        0 <= iterations <= 0xffff,
                        0 <= frequency <= 0xffff_ffff,
                ;
                let turned: u64 = iterations as u64 * frequency as u64 + offset as u64;
                let hue: u64 = turned % 360;
                get_rgb(hue as u32)
            },
        }
    }
}

/// Whether the count that `buffer` holds for the pixel `(x, y)` is one that
/// `kernel` gave for that pixel.
pub open spec fn filled<K: Fn(u32, u32) -> u16>(
    buffer: ResultBuffer,
    kernel: K,
    x: int,
    y: int,
) -> bool {
    call_ensures(kernel, (x as u32, y as u32), buffer.at(x, y))
}

/// The counts of column `x`, from the top row down, as `kernel` gives them.
pub fn compute_column<K: Fn(u32, u32) -> u16>(x: u32, height: u32, kernel: &K) -> (column: Vec<u16>)
    requires
        forall|y: u32| y < height ==> call_requires(*kernel, (x, y)),
    ensures
        column.len() == height,
        forall|y: int|
            0 <= y < height ==> call_ensures(*kernel, (x, y as u32), #[trigger] column[y]),
{
    let mut column: Vec<u16> = Vec::new();
    let mut y: u32 = 0;
    while y < height
        invariant
            y <= height,
            column.len() == y,
            forall|y: u32| y < height ==> call_requires(*kernel, (x, y)),
            forall|i: int| 0 <= i < y ==> call_ensures(*kernel, (x, i as u32), #[trigger] column[i]),
        decreases height - y,
    {
        let iterations = kernel(x, y);
        column.push(iterations);
        y = y + 1;
    }
    column
}

/// Renders an image of the given size: every pixel gets the count that
/// `kernel` gives for it.
///
/// The work is laid out as for `threads` workers, each with the columns of
/// its stripe, and done by one worker after the other.  The outcome does
/// not depend on the number of workers.
pub fn render<K: Fn(u32, u32) -> u16>(
    width: u32,
    height: u32,
    threads: usize,
    kernel: &K,
) -> (buffer: ResultBuffer)
    requires
        threads >= 1,
        2 * width * height <= isize::MAX,
        forall|x: u32, y: u32| x < width && y < height ==> call_requires(*kernel, (x, y)),
    ensures
        buffer.wf(),
        buffer.width == width,
        buffer.height == height,
        forall|x: int, y: int| buffer.contains(x, y) ==> #[trigger] filled(buffer, *kernel, x, y),
{
    let mut buffer = ResultBuffer::new(width, height);
    let mut worker: usize = 0;
    while worker < threads
        invariant
            threads >= 1,
            worker <= threads,
            buffer.wf(),
            buffer.width == width,
            buffer.height == height,
            forall|x: u32, y: u32| x < width && y < height ==> call_requires(*kernel, (x, y)),
            forall|x: int, y: int|
                buffer.contains(x, y) && x % (threads as int) < worker ==> #[trigger] filled(
                    buffer,
                    *kernel,
                    x,
                    y,
                ),
        decreases threads - worker,
    {
        let columns = worker_columns(worker, threads, width);
        let mut j: usize = 0;
        while j < columns.len()
            invariant
                threads >= 1,
                worker < threads,
                j <= columns.len(),
                buffer.wf(),
                buffer.width == width,
                buffer.height == height,
                columns.len() == share(worker as int, threads as int, width as int),
                forall|k: int|
                    0 <= k < columns.len() ==> #[trigger] columns[k] == striped(
                        worker as int,
                        threads as int,
                        width as int,
                    )[k],
                forall|x: u32, y: u32| x < width && y < height ==> call_requires(*kernel, (x, y)),
                forall|x: int, y: int|
                    buffer.contains(x, y) && (x % (threads as int) < worker || (x % (
                    threads as int) == worker && x / (threads as int) < j)) ==> #[trigger] filled(
                        buffer,
                        *kernel,
                        x,
                        y,
                    ),
            decreases columns.len() - j,
        {
            let x = columns[j];
            proof {
                crate::partition::lemma_striped_columns(
                    worker as int,
                    threads as int,
                    width as int,
                );
                let s = striped(worker as int, threads as int, width as int);
                assert(s.contains(s[j as int]));
            }
            let column = compute_column(x, height, kernel);
            let ghost before = buffer;
            buffer.store_column(x, &column);
            assert forall|cx: int, cy: int|
                buffer.contains(cx, cy) && (cx % (threads as int) < worker || (cx % (
                threads as int) == worker && cx / (threads as int) < j + 1)) implies #[trigger] filled(
                buffer,
                *kernel,
                cx,
                cy,
            ) by {
                if cx == x {
                    assert(buffer.at(cx, cy) == column[cy]);
                } else {
                    assert(buffer.at(cx, cy) == before.at(cx, cy));
                    lemma_column_owner(cx, threads as int, width as int);
                    if cx % (threads as int) == worker && cx / (threads as int) == j {
                        assert(striped(worker as int, threads as int, width as int)[j as int]
                            == cx);
                    }
                    assert(filled(before, *kernel, cx, cy));
                }
            }
            j = j + 1;
        }
        proof {
            assert forall|x: int, y: int|
                buffer.contains(x, y) && x % (threads as int) < worker + 1 implies #[trigger] filled(
                buffer,
                *kernel,
                x,
                y,
            ) by {
                lemma_column_owner(x, threads as int, width as int);
            }
        }
        worker = worker + 1;
    }
    proof {
        assert forall|x: int, y: int| buffer.contains(x, y) implies #[trigger] filled(
            buffer,
            *kernel,
            x,
            y,
        ) by {
            lemma_column_owner(x, threads as int, width as int);
        }
    }
    buffer
}

/// Colours one column of the canvas: each of its pixels gets the colour of
/// its iteration count.  The other columns stay as they were.
pub fn paint_column(
    canvas: &mut Canvas,
    buffer: &ResultBuffer,
    x: u32,
    max_iterations: u16,
    mode: Mode,
    frequency: u32,
    offset: u32,
)
    requires
        old(canvas).wf(),
        buffer.wf(),
        old(canvas).width == buffer.width,
        old(canvas).height == buffer.height,
        x < buffer.width,
    ensures
        final(canvas).wf(),
        final(canvas).width == old(canvas).width,
        final(canvas).height == old(canvas).height,
        final(canvas).stroke == old(canvas).stroke,
        forall|px: int, py: int|
            buffer.contains(px, py) ==> #[trigger] final(canvas).pixel(px, py) == if px == x {
                color_of(buffer.at(px, py), max_iterations, mode, frequency, offset)
            } else {
                old(canvas).pixel(px, py)
            },
{
    let height = buffer.height;
    let mut y: u32 = 0;
    while y < height
        invariant
            canvas.wf(),
            buffer.wf(),
            canvas.width == buffer.width,
            canvas.height == buffer.height,
            canvas.stroke == old(canvas).stroke,
            height == buffer.height,
            x < buffer.width,
            y <= height,
            forall|px: int, py: int|
                buffer.contains(px, py) ==> #[trigger] canvas.pixel(px, py) == if px == x && py
                    < y {
                    color_of(buffer.at(px, py), max_iterations, mode, frequency, offset)
                } else {
                    old(canvas).pixel(px, py)
                },
        decreases height - y,
    {
        let iterations = buffer.get(x, y);
        let color = color_for(iterations, max_iterations, mode, frequency, offset);
        let ghost before = *canvas;
        canvas.put_pixel(x, y, color);
        assert forall|px: int, py: int| buffer.contains(px, py) implies #[trigger] canvas.pixel(
            px,
            py,
        ) == if px == x && py < y + 1 {
            color_of(buffer.at(px, py), max_iterations, mode, frequency, offset)
        } else {
            old(canvas).pixel(px, py)
        } by {
            if px == x && py == y {
                assert(before.contains(px, py));
            } else {
                assert((px, py) != (x as int, y as int));
                assert(canvas.pixel(px, py) == before.pixel(px, py));
            }
        }
        y = y + 1;
    }
}

/// The colouring pass: sets every pixel of the canvas to the colour of its
/// iteration count.
pub fn paint(
    canvas: &mut Canvas,
    buffer: &ResultBuffer,
    max_iterations: u16,
    mode: Mode,
    frequency: u32,
    offset: u32,
)
    requires
        old(canvas).wf(),
        buffer.wf(),
        old(canvas).width == buffer.width,
        old(canvas).height == buffer.height,
    ensures
        final(canvas).wf(),
        final(canvas).width == old(canvas).width,
        final(canvas).height == old(canvas).height,
        final(canvas).stroke == old(canvas).stroke,
        forall|x: int, y: int|
            buffer.contains(x, y) ==> #[trigger] final(canvas).pixel(x, y) == color_of(
                buffer.at(x, y),
                max_iterations,
                mode,
                frequency,
                offset,
            ),
{
    let width = buffer.width;
    let mut x: u32 = 0;
    while x < width
        invariant
            canvas.wf(),
            buffer.wf(),
            canvas.width == buffer.width,
            canvas.height == buffer.height,
            canvas.stroke == old(canvas).stroke,
            width == buffer.width,
            x <= width,
            forall|px: int, py: int|
                buffer.contains(px, py) && px < x ==> #[trigger] canvas.pixel(px, py) == color_of(
                    buffer.at(px, py),
                    max_iterations,
                    mode,
                    frequency,
                    offset,
                ),
        decreases width - x,
    {
        paint_column(canvas, buffer, x, max_iterations, mode, frequency, offset);
        x = x + 1;
    }
}

/// A render does not depend on how the columns were split among workers:
/// where the kernel gives one count for each pixel, two buffers of one size
/// that it filled hold the same counts, whatever the number of workers of
/// either render.
pub proof fn lemma_render_is_determined<K: Fn(u32, u32) -> u16>(
    one: ResultBuffer,
    other: ResultBuffer,
    kernel: K,
)
    requires
        one.wf(),
        other.wf(),
        one.width == other.width,
        one.height == other.height,
        forall|x: int, y: int| one.contains(x, y) ==> #[trigger] filled(one, kernel, x, y),
        forall|x: int, y: int| other.contains(x, y) ==> #[trigger] filled(other, kernel, x, y),
        forall|x: u32, y: u32, p: u16, q: u16|
            #[trigger] call_ensures(kernel, (x, y), p) && #[trigger] call_ensures(kernel, (x, y), q)
                ==> p == q,
    ensures
        one.data@ == other.data@,
{
    let width = one.width as int;
    let height = one.height as int;
    assert forall|i: int| 0 <= i < one.data@.len() implies one.data@[i] == other.data@[i] by {
        if height == 0 {
            assert(width * height == 0) by (nonlinear_arith)
                requires
                    height == 0,
            ;
        } else {
            let x = i / height;
            let y = i % height;
            vstd::arithmetic::div_mod::lemma_fundamental_div_mod(i, height);
            vstd::arithmetic::div_mod::lemma_mod_pos_bound(i, height);
            vstd::arithmetic::div_mod::lemma_div_pos_is_pos(i, height);
            assert(height * x == x * height) by (nonlinear_arith);
            assert(x < width) by (nonlinear_arith)
                requires
                    x * height + y < width * height,
                    0 <= y,
                    0 < height,
            ;
            assert(filled(one, kernel, x, y));
            assert(filled(other, kernel, x, y));
        }
    }
    assert(one.data@ =~= other.data@);
}

/// The colouring pass settles the whole image: two canvases of one size,
/// painted from the same counts with the same settings, show the same
/// pixels.
pub proof fn lemma_paint_is_determined(
    one: Canvas,
    other: Canvas,
    buffer: ResultBuffer,
    max_iterations: u16,
    mode: Mode,
    frequency: u32,
    offset: u32,
)
    requires
        one.wf(),
        other.wf(),
        one.width == buffer.width == other.width,
        one.height == buffer.height == other.height,
        forall|x: int, y: int|
            buffer.contains(x, y) ==> #[trigger] one.pixel(x, y) == color_of(
                buffer.at(x, y),
                max_iterations,
                mode,
                frequency,
                offset,
            ),
        forall|x: int, y: int|
            buffer.contains(x, y) ==> #[trigger] other.pixel(x, y) == color_of(
                buffer.at(x, y),
                max_iterations,
                mode,
                frequency,
                offset,
            ),
    ensures
        one.pixels() == other.pixels(),
{
    assert forall|p: (int, int)| one.pixels().dom().contains(p) implies one.pixels()[p]
        == other.pixels()[p] by {
        assert(one.pixel(p.0, p.1) == other.pixel(p.0, p.1));
    }
    assert(one.pixels() =~= other.pixels());
}

} // verus!
