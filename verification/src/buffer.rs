//! The buffer of iteration counts that a render fills column by column.

use vstd::prelude::*;

verus! {

/// One iteration count for each pixel of an image, column after column: the
/// count of the pixel in column `x` and row `y` stands at `x * height + y`.
pub struct ResultBuffer {
    pub width: u32,
    pub height: u32,
    pub data: Vec<u16>,
}

/// A cell of a grid has its own place among the `width * height` cells.
pub proof fn lemma_cell_place(x: int, y: int, width: int, height: int)
    requires
        0 <= x < width,
        0 <= y < height,
    ensures
        0 <= x * height + y < width * height,
        (x * height + y) / height == x,
        (x * height + y) % height == y,
{
    assert(0 <= x * height && (x + 1) * height <= width * height) by (nonlinear_arith)
        requires
            0 <= x < width,
            0 < height,
    ;
    assert((x + 1) * height == x * height + height) by (nonlinear_arith);
    vstd::arithmetic::div_mod::lemma_fundamental_div_mod_converse(x * height + y, height, x, y);
}

impl ResultBuffer {
    /// The buffer holds exactly one count for each pixel.
    pub open spec fn wf(&self) -> bool {
        self.data.len() == self.width * self.height
    }

    /// Whether `(x, y)` is a pixel of the image.
    pub open spec fn contains(&self, x: int, y: int) -> bool {
        0 <= x < self.width && 0 <= y < self.height
    }

    /// The count of the pixel in column `x` and row `y`.
    pub open spec fn at(&self, x: int, y: int) -> u16 {
        self.data[x * self.height + y]
    }

    /// A buffer for an image of the given size, every count zero.
    pub fn new(width: u32, height: u32) -> (buffer: ResultBuffer)
        requires
            2 * width * height <= isize::MAX,
        ensures
            buffer.wf(),
            buffer.width == width,
            buffer.height == height,
            forall|x: int, y: int| buffer.contains(x, y) ==> #[trigger] buffer.at(x, y) == 0,
    {
        assert(width * height <= 2 * width * height) by (nonlinear_arith);
        let size: usize = width as usize * height as usize;
        let buffer = ResultBuffer { width, height, data: vec![0u16; size] };
        assert forall|x: int, y: int| buffer.contains(x, y) implies #[trigger] buffer.at(x, y)
            == 0 by {
            lemma_cell_place(x, y, width as int, height as int);
        }
        buffer
    }

    /// The count of the pixel in column `x` and row `y`.
    pub fn get(&self, x: u32, y: u32) -> (count: u16)
        requires
            self.wf(),
            self.contains(x as int, y as int),
        ensures
            count == self.at(x as int, y as int),
    {
        proof {
            lemma_cell_place(x as int, y as int, self.width as int, self.height as int);
        }
        self.data[x as usize * self.height as usize + y as usize]
    }

    /// Writes the counts of one finished column into the buffer.  The other
    /// columns stay as they were.
    pub fn store_column(&mut self, x: u32, column: &Vec<u16>)
        requires
            old(self).wf(),
            x < old(self).width,
            column.len() == old(self).height,
        ensures
            final(self).wf(),
            final(self).width == old(self).width,
            final(self).height == old(self).height,
            forall|cx: int, cy: int|
                old(self).contains(cx, cy) ==> #[trigger] final(self).at(cx, cy) == if cx == x {
                    column[cy]
                } else {
                    old(self).at(cx, cy)
                },
    {
        let height = self.height;
        let mut n: u32 = 0;
        while n < height
            invariant
                self.wf(),
                self.width == old(self).width,
                self.height == old(self).height,
                height == self.height,
                x < self.width,
                column.len() == height,
                n <= height,
                forall|cx: int, cy: int|
                    old(self).contains(cx, cy) ==> #[trigger] self.at(cx, cy) == if cx == x && cy
                        < n {
                        column[cy]
                    } else {
                        old(self).at(cx, cy)
                    },
            decreases height - n,
        {
            proof {
                lemma_cell_place(x as int, n as int, self.width as int, height as int);
            }
            let place: usize = x as usize * height as usize + n as usize;
            let ghost before = *self;
            self.data.set(place, column[n as usize]);
            assert forall|cx: int, cy: int| old(self).contains(cx, cy) implies #[trigger] self.at(
                cx,
                cy,
            ) == if cx == x && cy < n + 1 {
                column[cy]
            } else {
                old(self).at(cx, cy)
            } by {
                lemma_cell_place(cx, cy, self.width as int, height as int);
                assert(before.at(cx, cy) == if cx == x && cy < n {
                    column[cy]
                } else {
                    old(self).at(cx, cy)
                });
            }
            n = n + 1;
        }
    }
}

} // verus!
