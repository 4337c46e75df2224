use vstd::prelude::*;

verus! {

/// A read-only grayscale raster: 8-bit intensity samples, row-major.
pub struct PixelBuffer {
    pub width: usize,
    pub height: usize,
    pub data: Vec<u8>,
}

impl PixelBuffer {
    /// Row-major storage of exactly `width * height` samples, with each
    /// dimension in the 32-bit range that raster formats use.
    pub open spec fn wf(self) -> bool {
        &&& self.data@.len() == self.width * self.height
        &&& self.width <= u32::MAX
        &&& self.height <= u32::MAX
    }

    /// Intensity of the sample at column `x`, row `y`.
    pub open spec fn pixel(self, x: int, y: int) -> u8 {
        self.data@[y * self.width + x]
    }

    pub fn new(width: usize, height: usize, data: Vec<u8>) -> (r: PixelBuffer)
        requires
            data@.len() == width * height,
            width <= u32::MAX,
            height <= u32::MAX,
        ensures
            r.wf(),
            r.width == width,
            r.height == height,
            r.data@ == data@,
    {
        PixelBuffer { width, height, data }
    }

    pub fn get_pixel(&self, x: usize, y: usize) -> (r: u8)
        requires
            self.wf(),
            x < self.width,
            y < self.height,
        ensures
            r == self.pixel(x as int, y as int),
    {
        let n = self.data.len();
        proof {
            lemma_row_major_index_in_range(
                self.width as int,
                self.height as int,
                x as int,
                y as int,
            );
        }
        assert(y * self.width + x < n);
        self.data[y * self.width + x]
    }
}

/// A row-major index computed from in-range coordinates stays below the
/// sample count.
pub proof fn lemma_row_major_index_in_range(w: int, h: int, x: int, y: int)
    requires
        0 <= x < w,
        0 <= y < h,
    ensures
        0 <= y * w + x < w * h,
{
    assert(y * w + x < w * h) by (nonlinear_arith)
        requires
            0 <= x < w,
            0 <= y < h,
    ;
    assert(y * w >= 0) by (nonlinear_arith)
        requires
            0 <= y,
            0 < w,
    ;
}

} // verus!
