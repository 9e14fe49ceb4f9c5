use vstd::prelude::*;

verus! {

/// Index of pixel (x, y) in a row-major grid `width` pixels wide.
pub open spec fn grid_index(width: int, x: int, y: int) -> int {
    y * width + x
}

/// Distinct pixels of a grid have distinct indices, and every index lies in
/// the grid.
pub proof fn lemma_grid_index(width: int, height: int, x1: int, y1: int, x2: int, y2: int)
    requires
        0 <= x1 < width,
        0 <= x2 < width,
        0 <= y1 < height,
        0 <= y2 < height,
    ensures
        0 <= grid_index(width, x1, y1) < width * height,
        grid_index(width, x1, y1) == grid_index(width, x2, y2) ==> x1 == x2 && y1 == y2,
{
    assert(0 <= y1 * width + x1 < width * height) by (nonlinear_arith)
        requires
            0 <= x1 < width,
            0 <= y1 < height,
    ;
    if y1 < y2 {
        assert(y1 * width + x1 < y2 * width + x2) by (nonlinear_arith)
            requires
                0 <= x1 < width,
                0 <= x2,
                y1 < y2,
        ;
    } else if y2 < y1 {
        assert(y2 * width + x2 < y1 * width + x1) by (nonlinear_arith)
            requires
                0 <= x2 < width,
                0 <= x1,
                y2 < y1,
        ;
    }
}

/// An RGB image: `width * height` pixels of three bytes each, row by row.
pub struct Canvas {
    pub width: u32,
    pub height: u32,
    pub pixels: Vec<u8>,
}

impl Canvas {
    /// The pixel buffer has exactly one RGB triple per pixel (and, as any
    /// allocation, at most `isize::MAX` bytes).
    pub open spec fn wf(&self) -> bool {
        &&& self.pixels@.len() == self.width * self.height * 3
        &&& self.pixels@.len() <= isize::MAX
    }

    /// Pixel (x, y) holds the colour `rgb`.
    pub open spec fn pixel_is(&self, x: int, y: int, rgb: [u8; 3]) -> bool {
        let i = 3 * grid_index(self.width as int, x, y);
        &&& self.pixels@[i] == rgb[0]
        &&& self.pixels@[i + 1] == rgb[1]
        &&& self.pixels@[i + 2] == rgb[2]
    }

    /// Pixel (x, y) holds the map background `[30, 30, 30]`.
    pub open spec fn background_at(&self, x: int, y: int) -> bool {
        self.pixel_is(x, y, [30u8, 30u8, 30u8])
    }

    /// Pixels (x1, y1) of `self` and (x2, y2) of `other` hold the same colour.
    pub open spec fn same_pixel(&self, x1: int, y1: int, other: &Canvas, x2: int, y2: int) -> bool {
        let i = 3 * grid_index(self.width as int, x1, y1);
        let j = 3 * grid_index(other.width as int, x2, y2);
        &&& self.pixels@[i] == other.pixels@[j]
        &&& self.pixels@[i + 1] == other.pixels@[j + 1]
        &&& self.pixels@[i + 2] == other.pixels@[j + 2]
    }

    /// A `width` x `height` image filled with `rgb`.
    pub fn filled(width: u32, height: u32, rgb: [u8; 3]) -> (c: Canvas)
        requires
            width * height * 3 <= isize::MAX,
        ensures
            c.wf(),
            c.width == width,
            c.height == height,
            forall|x: int, y: int| 0 <= x < width && 0 <= y < height ==> #[trigger] c.pixel_is(x, y, rgb),
    {
        let n: usize = (width as usize) * (height as usize) * 3;
        let mut pixels: Vec<u8> = Vec::with_capacity(n);
        let mut i: usize = 0;
        while i < n
            invariant
                i <= n,
                n == width * height * 3,
                pixels@.len() == i,
                forall|j: int| 0 <= j < i ==> #[trigger] pixels@[j] == rgb[j % 3],
            decreases n - i,
        {
            pixels.push(rgb[i % 3]);
            i = i + 1;
        }
        let c = Canvas { width, height, pixels };
        assert forall|x: int, y: int| 0 <= x < width && 0 <= y < height implies #[trigger] c.pixel_is(x, y, rgb) by {
            lemma_grid_index(width as int, height as int, x, y, x, y);
            let k = grid_index(width as int, x, y);
            assert(3 * k + 2 < n) by (nonlinear_arith)
                requires
                    0 <= k < width * height,
                    n == width * height * 3,
            ;
            assert((3 * k) % 3 == 0 && (3 * k + 1) % 3 == 1 && (3 * k + 2) % 3 == 2) by (nonlinear_arith)
                requires
                    k >= 0,
            ;
        }
        c
    }

    /// The colour of pixel (x, y).
    pub fn get_pixel(&self, x: u32, y: u32) -> (rgb: [u8; 3])
        requires
            self.wf(),
            x < self.width,
            y < self.height,
        ensures
            self.pixel_is(x as int, y as int, rgb),
    {
        proof {
            lemma_grid_index(self.width as int, self.height as int, x as int, y as int, x as int, y as int);
            let k = grid_index(self.width as int, x as int, y as int);
            assert(3 * k + 2 < self.pixels@.len()) by (nonlinear_arith)
                requires
                    0 <= k < self.width * self.height,
                    self.pixels@.len() == self.width * self.height * 3,
            ;
            assert(k == (y as int) * (self.width as int) + (x as int));
        }
        let plen = self.pixels.len();
        let w = self.width as usize;
        let yy = y as usize;
        let xx = x as usize;
        assert(yy * w + xx < self.pixels@.len() / 3) by (nonlinear_arith)
            requires
                yy * w + xx < self.width * self.height,
                self.pixels@.len() == self.width * self.height * 3,
                w == self.width,
        ;
        assert(3 * (yy * w + xx) < self.pixels@.len());
        let row: usize = yy * w;
        let cell: usize = row + xx;
        let i: usize = 3 * cell;
        [self.pixels[i], self.pixels[i + 1], self.pixels[i + 2]]
    }

    /// Sets pixel (x, y) to `rgb`, leaving every other pixel as it was.
    pub fn put_pixel(&mut self, x: u32, y: u32, rgb: [u8; 3])
        requires
            old(self).wf(),
            x < old(self).width,
            y < old(self).height,
        ensures
            final(self).wf(),
            final(self).width == old(self).width,
            final(self).height == old(self).height,
            final(self).pixel_is(x as int, y as int, rgb),
            forall|x2: int, y2: int|
                0 <= x2 < old(self).width && 0 <= y2 < old(self).height && (x2 != x || y2 != y)
                    ==> #[trigger] final(self).same_pixel(x2, y2, old(self), x2, y2),
    {
        proof {
            lemma_grid_index(self.width as int, self.height as int, x as int, y as int, x as int, y as int);
            let k = grid_index(self.width as int, x as int, y as int);
            assert(3 * k + 2 < self.pixels@.len()) by (nonlinear_arith)
                requires
                    0 <= k < self.width * self.height,
                    self.pixels@.len() == self.width * self.height * 3,
            ;
            assert(k == (y as int) * (self.width as int) + (x as int));
        }
        let plen = self.pixels.len();
        let w = self.width as usize;
        let yy = y as usize;
        let xx = x as usize;
        assert(yy * w + xx < self.pixels@.len() / 3) by (nonlinear_arith)
            requires
                yy * w + xx < self.width * self.height,
                self.pixels@.len() == self.width * self.height * 3,
                w == self.width,
        ;
        assert(3 * (yy * w + xx) < self.pixels@.len());
        let row: usize = yy * w;
        let cell: usize = row + xx;
        let i: usize = 3 * cell;
        self.pixels.set(i, rgb[0]);
        self.pixels.set(i + 1, rgb[1]);
        self.pixels.set(i + 2, rgb[2]);
        proof {
            assert forall|x2: int, y2: int|
                0 <= x2 < old(self).width && 0 <= y2 < old(self).height && (x2 != x || y2 != y)
                    implies #[trigger] self.same_pixel(x2, y2, old(self), x2, y2) by {
                lemma_grid_index(self.width as int, self.height as int, x as int, y as int, x2, y2);
                lemma_grid_index(self.width as int, self.height as int, x2, y2, x as int, y as int);
                let k2 = grid_index(self.width as int, x2, y2);
                assert(3 * k2 + 2 < self.pixels@.len()) by (nonlinear_arith)
                    requires
                        0 <= k2 < self.width * self.height,
                        self.pixels@.len() == self.width * self.height * 3,
                ;
            }
        }
    }
}

} // verus!
