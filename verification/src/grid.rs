//! The pixel grid: a rectangular image of three 8-bit channels per pixel,
//! and the foreground predicate that decides which pixels count as ink.

use vstd::prelude::*;

verus! {

/// Whether an RGB value counts as foreground ("ink"): all three channels zero.
pub open spec fn is_black_spec(rgb: [u8; 3]) -> bool {
    rgb[0] == 0 && rgb[1] == 0 && rgb[2] == 0
}

/// The foreground predicate: pure black after thresholding.
pub fn is_black(rgb: &[u8; 3]) -> (r: bool)
    ensures
        r == is_black_spec(*rgb),
{
    (rgb[0] as u16 + rgb[1] as u16 + rgb[2] as u16) == 0
}

/// A rectangular pixel grid of dimensions `width` x `height`, stored in
/// row-major order, with three 8-bit channels per pixel.
pub struct Image {
    width: u32,
    height: u32,
    pixels: Vec<[u8; 3]>,
}

impl Image {
    /// The pixel buffer holds exactly one entry per grid cell.
    pub closed spec fn wf(self) -> bool {
        self.pixels@.len() == self.width as int * self.height as int
    }

    pub closed spec fn spec_width(self) -> u32 {
        self.width
    }

    pub closed spec fn spec_height(self) -> u32 {
        self.height
    }

    /// The pixel stored at column `x`, row `y`.
    pub closed spec fn pixel(self, x: int, y: int) -> [u8; 3] {
        self.pixels@[y * self.width as int + x]
    }

    /// Whether `(x, y)` lies on the grid and holds a foreground pixel.
    pub open spec fn is_fg(self, x: int, y: int) -> bool {
        0 <= x < self.spec_width() as int && 0 <= y < self.spec_height() as int
            && is_black_spec(self.pixel(x, y))
    }

    /// A fresh grid with every pixel set to `fill`.
    pub fn new(width: u32, height: u32, fill: [u8; 3]) -> (r: Image)
        requires
            width as int * height as int <= usize::MAX,
        ensures
            r.wf(),
            r.spec_width() == width,
            r.spec_height() == height,
            forall|x: int, y: int|
                0 <= x < width && 0 <= y < height ==> r.pixel(x, y) == fill,
    {
        proof {
            mul_nonneg(width as int, height as int);
        }
        let n: usize = (width as usize) * (height as usize);
        let mut pixels: Vec<[u8; 3]> = Vec::new();
        let mut i: usize = 0;
        while i < n
            invariant
                i <= n,
                pixels@.len() == i,
                forall|k: int| 0 <= k < i ==> pixels@[k] == fill,
            decreases n - i,
        {
            pixels.push(fill);
            i = i + 1;
        }
        let r = Image { width, height, pixels };
        proof {
            assert forall|x: int, y: int|
                0 <= x < width && 0 <= y < height implies r.pixel(x, y) == fill by {
                index_in_range(x, y, width as int, height as int);
            }
        }
        r
    }

    /// The number of grid cells; it fits in `usize` because the pixel buffer
    /// holds one entry per cell.
    pub fn cell_count(&self) -> (r: usize)
        requires
            self.wf(),
        ensures
            r as int == self.spec_width() as int * self.spec_height() as int,
    {
        self.pixels.len()
    }

    pub fn width(&self) -> (r: u32)
        ensures
            r == self.spec_width(),
    {
        self.width
    }

    pub fn height(&self) -> (r: u32)
        ensures
            r == self.spec_height(),
    {
        self.height
    }

    /// Reads the pixel at `(x, y)`; the coordinate must lie on the grid.
    pub fn get_pixel(&self, x: u32, y: u32) -> (r: [u8; 3])
        requires
            self.wf(),
            x < self.spec_width(),
            y < self.spec_height(),
        ensures
            r == self.pixel(x as int, y as int),
    {
        let n: usize = self.pixels.len();
        proof {
            index_in_range(x as int, y as int, self.width as int, self.height as int);
        }
        let idx: usize = (y as usize) * (self.width as usize) + (x as usize);
        self.pixels[idx]
    }

    /// Reads the pixel at `(x, y)`, or `None` when the coordinate is off the
    /// grid; probing out of bounds is a normal outcome, not an error.
    pub fn get_pixel_checked(&self, x: u32, y: u32) -> (r: Option<[u8; 3]>)
        requires
            self.wf(),
        ensures
            x < self.spec_width() && y < self.spec_height() ==> r == Some(
                self.pixel(x as int, y as int),
            ),
            !(x < self.spec_width() && y < self.spec_height()) ==> r is None,
    {
        if x < self.width && y < self.height {
            Some(self.get_pixel(x, y))
        } else {
            None
        }
    }

    /// Overwrites the pixel at `(x, y)`; every other pixel is unchanged.
    pub fn put_pixel(&mut self, x: u32, y: u32, p: [u8; 3])
        requires
            old(self).wf(),
            x < old(self).spec_width(),
            y < old(self).spec_height(),
        ensures
            final (self).wf(),
            final (self).spec_width() == old(self).spec_width(),
            final (self).spec_height() == old(self).spec_height(),
            final (self).pixel(x as int, y as int) == p,
            forall|x2: int, y2: int|
                0 <= x2 < old(self).spec_width() && 0 <= y2 < old(self).spec_height() && !(x2
                    == x as int && y2 == y as int) ==> final (self).pixel(x2, y2) == old(
                    self,
                ).pixel(x2, y2),
    {
        let n: usize = self.pixels.len();
        proof {
            index_in_range(x as int, y as int, self.width as int, self.height as int);
        }
        let idx: usize = (y as usize) * (self.width as usize) + (x as usize);
        self.pixels.set(idx, p);
        proof {
            assert forall|x2: int, y2: int|
                0 <= x2 < old(self).spec_width() && 0 <= y2 < old(self).spec_height() && !(x2
                    == x as int && y2 == y as int) implies final (self).pixel(x2, y2) == old(
                self,
            ).pixel(x2, y2) by {
                index_in_range(x2, y2, self.width as int, self.height as int);
                index_injective(x2, y2, x as int, y as int, self.width as int);
            }
        }
    }
}

/// A 3x3 window of pixels, anchored at its top-left grid coordinate.
pub struct Square {
    x: u32,
    y: u32,
    pixels: [[[u8; 3]; 3]; 3],
}

impl Square {
    pub closed spec fn spec_x(self) -> u32 {
        self.x
    }

    pub closed spec fn spec_y(self) -> u32 {
        self.y
    }

    /// The pixel in row `i`, column `j` of the window.
    pub closed spec fn pixel_at(self, i: int, j: int) -> [u8; 3] {
        self.pixels[i][j]
    }

    /// The sum of the first channels of all nine pixels.
    pub open spec fn channel_sum(self) -> int {
        self.pixel_at(0, 0)[0] + self.pixel_at(0, 1)[0] + self.pixel_at(0, 2)[0]
            + self.pixel_at(1, 0)[0] + self.pixel_at(1, 1)[0] + self.pixel_at(1, 2)[0]
            + self.pixel_at(2, 0)[0] + self.pixel_at(2, 1)[0] + self.pixel_at(2, 2)[0]
    }

    /// The window's anchor coordinate on the grid.
    pub fn xy(&self) -> (r: (u32, u32))
        ensures
            r == (self.spec_x(), self.spec_y()),
    {
        (self.x, self.y)
    }

    pub fn x(&self) -> (r: u32)
        ensures
            r == self.spec_x(),
    {
        self.x
    }

    pub fn y(&self) -> (r: u32)
        ensures
            r == self.spec_y(),
    {
        self.y
    }

    /// Whether [`Square::count_blacks`] is positive.
    pub fn contains_black(&self) -> (r: bool)
        ensures
            r == (self.channel_sum() / 255 > 0),
    {
        self.count_blacks() > 0
    }

    /// The sum of the first channels of the nine pixels, divided by 255: on a
    /// binarized grid, the number of window pixels whose first channel is
    /// saturated.
    pub fn count_blacks(&self) -> (r: u8)
        ensures
            r == self.channel_sum() / 255,
    {
        let mut sum: u16 = 0;
        sum = sum + self.pixels[0][0][0] as u16 + self.pixels[0][1][0] as u16
            + self.pixels[0][2][0] as u16;
        sum = sum + self.pixels[1][0][0] as u16 + self.pixels[1][1][0] as u16
            + self.pixels[1][2][0] as u16;
        sum = sum + self.pixels[2][0][0] as u16 + self.pixels[2][1][0] as u16
            + self.pixels[2][2][0] as u16;
        (sum / 255) as u8
    }
}

/// Copies the 3x3 window whose top-left corner is `(x, y)` out of the grid.
pub fn get_square(img: &Image, x: u32, y: u32) -> (s: Square)
    requires
        img.wf(),
        x as int + 2 < img.spec_width() as int,
        y as int + 2 < img.spec_height() as int,
    ensures
        s.spec_x() == x,
        s.spec_y() == y,
        forall|i: int, j: int|
            0 <= i < 3 && 0 <= j < 3 ==> s.pixel_at(i, j) == img.pixel(x + j, y + i),
{
    let pixels = [
        [img.get_pixel(x, y), img.get_pixel(x + 1, y), img.get_pixel(x + 2, y)],
        [img.get_pixel(x, y + 1), img.get_pixel(x + 1, y + 1), img.get_pixel(x + 2, y + 1)],
        [img.get_pixel(x, y + 2), img.get_pixel(x + 1, y + 2), img.get_pixel(x + 2, y + 2)],
    ];
    Square { x, y, pixels }
}

/// A row-major index within a `width` x `height` grid stays within the buffer.
proof fn index_in_range(x: int, y: int, width: int, height: int)
    requires
        0 <= x < width,
        0 <= y < height,
    ensures
        0 <= y * width + x < width * height,
{
    assert(0 <= y * width + x < width * height) by (nonlinear_arith)
        requires
            0 <= x < width,
            0 <= y < height,
    ;
}

/// Distinct coordinates of one grid row-major-index to distinct buffer slots.
proof fn index_injective(x1: int, y1: int, x2: int, y2: int, width: int)
    requires
        0 <= x1 < width,
        0 <= x2 < width,
        0 <= y1,
        0 <= y2,
        !(x1 == x2 && y1 == y2),
    ensures
        y1 * width + x1 != y2 * width + x2,
{
    assert(y1 * width + x1 != y2 * width + x2) by (nonlinear_arith)
        requires
            0 <= x1 < width,
            0 <= x2 < width,
            0 <= y1,
            0 <= y2,
            !(x1 == x2 && y1 == y2),
    ;
}

proof fn mul_nonneg(a: int, b: int)
    requires
        0 <= a,
        0 <= b,
    ensures
        0 <= a * b,
{
    assert(0 <= a * b) by (nonlinear_arith)
        requires
            0 <= a,
            0 <= b,
    ;
}

} // verus!
