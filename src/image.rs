use vstd::prelude::*;

verus! {

/// The abstract content of an image: its size and its pixels, row by row
/// from the top-left corner.
pub ghost struct Raster {
    pub width: nat,
    pub height: nat,
    pub pixels: Seq<[u8; 3]>,
}

impl Raster {
    /// The pixels fill the grid exactly.
    pub open spec fn wf(self) -> bool {
        self.pixels.len() == self.width * self.height
    }

    /// The pixels fill the grid, whose cells can all be numbered by a `usize`.
    pub open spec fn storable(self) -> bool {
        &&& self.wf()
        &&& self.width <= usize::MAX
        &&& self.height <= usize::MAX
        &&& self.width * self.height <= usize::MAX
    }

    /// Where the pixel in column `x` of row `y` is kept.
    pub open spec fn index(self, x: int, y: int) -> int {
        y * self.width + x
    }

    pub open spec fn pixel(self, x: int, y: int) -> [u8; 3] {
        self.pixels[self.index(x, y)]
    }
}

/// An RGB image of byte triples, `width` columns by `height` rows.
pub struct Image {
    width: usize,
    height: usize,
    data: Vec<[u8; 3]>,
}

impl View for Image {
    type V = Raster;

    closed spec fn view(&self) -> Raster {
        Raster { width: self.width as nat, height: self.height as nat, pixels: self.data@ }
    }
}

impl Image {
    pub open spec fn wf(&self) -> bool {
        self@.storable()
    }

    /// An all-black image of the given size.
    pub fn new(width: usize, height: usize) -> (r: Image)
        requires
            width * height <= usize::MAX,
        ensures
            r.wf(),
            r@.width == width,
            r@.height == height,
            forall|i: int| 0 <= i < r@.pixels.len() ==> r@.pixels[i] == [0u8, 0u8, 0u8],
    {
        let n: usize = width * height;
        let mut data: Vec<[u8; 3]> = Vec::with_capacity(n);
        let mut i: usize = 0;
        while i < n
            invariant
                i <= n,
                data@.len() == i,
                forall|j: int| 0 <= j < i ==> data@[j] == [0u8, 0u8, 0u8],
            decreases n - i,
        {
            data.push([0u8, 0u8, 0u8]);
            i = i + 1;
        }
        Image { width, height, data }
    }

    /// An image of the given size holding `pixels`, row by row from the top-left.
    pub fn from_pixels(width: usize, height: usize, pixels: Vec<[u8; 3]>) -> (r: Image)
        requires
            width * height <= usize::MAX,
            pixels@.len() == width * height,
        ensures
            r.wf(),
            r@ == (Raster { width: width as nat, height: height as nat, pixels: pixels@ }),
    {
        Image { width, height, data: pixels }
    }

    pub fn width(&self) -> (r: usize)
        ensures
            r == self@.width,
    {
        self.width
    }

    pub fn height(&self) -> (r: usize)
        ensures
            r == self@.height,
    {
        self.height
    }

    /// The pixel in column `x` of row `y` (row 0 is the top).
    pub fn get(&self, x: usize, y: usize) -> (r: [u8; 3])
        requires
            self.wf(),
            x < self@.width,
            y < self@.height,
        ensures
            r == self@.pixel(x as int, y as int),
    {
        proof {
            lemma_index_in_grid(self@, x as int, y as int);
        }
        self.data[y * self.width + x]
    }

    /// Overwrites the pixel in column `x` of row `y`, and no other.
    pub fn set(&mut self, x: usize, y: usize, c: [u8; 3])
        requires
            old(self).wf(),
            x < old(self)@.width,
            y < old(self)@.height,
        ensures
            final(self).wf(),
            final(self)@.width == old(self)@.width,
            final(self)@.height == old(self)@.height,
            final(self)@.pixels == old(self)@.pixels.update(old(self)@.index(x as int, y as int), c),
    {
        proof {
            lemma_index_in_grid(self@, x as int, y as int);
        }
        let p: usize = y * self.width + x;
        self.data.set(p, c);
    }
}

/// A cell of the grid is kept at a distinct place inside the pixel sequence.
pub proof fn lemma_index_in_grid(r: Raster, x: int, y: int)
    requires
        0 <= x < r.width,
        0 <= y < r.height,
    ensures
        0 <= y * r.width <= r.index(x, y) < r.width * r.height,
{
    assert(0 <= y * r.width <= y * r.width + x < r.width * r.height) by (nonlinear_arith)
        requires
            0 <= x < r.width,
            0 <= y < r.height,
    ;
}

/// Distinct cells of the grid are kept at distinct places.
pub proof fn lemma_index_distinct(r: Raster, x1: int, y1: int, x2: int, y2: int)
    requires
        0 <= x1 < r.width,
        0 <= y1 < r.height,
        0 <= x2 < r.width,
        0 <= y2 < r.height,
        x1 != x2 || y1 != y2,
    ensures
        r.index(x1, y1) != r.index(x2, y2),
{
    let w = r.width as int;
    if y1 < y2 {
        assert(y1 * w + x1 < y2 * w + x2) by (nonlinear_arith)
            requires
                y1 < y2,
                0 <= x1 < w,
                0 <= x2,
        ;
    } else if y2 < y1 {
        assert(y2 * w + x2 < y1 * w + x1) by (nonlinear_arith)
            requires
                y2 < y1,
                0 <= x2 < w,
                0 <= x1,
        ;
    }
}

} // verus!
