//! A decoded RGBA pixel buffer.
//!
//! The asset layer decodes an image and hands the raw bytes over; the
//! collision core only ever reads the alpha channel. A sub-rectangle of
//! the buffer is abstracted as a boolean mask (row-major, `true` =
//! opaque) that the hull-extraction specifications are written over.

use vstd::prelude::*;

verus! {

/// Largest accepted image edge, in pixels.
pub const IMAGE_LIMIT: u32 = 32768;

/// An immutable RGBA image: four bytes per pixel, row-major, rows from
/// the top.
pub struct PixelBuffer {
    data: Vec<u8>,
    width: u32,
    height: u32,
}

impl PixelBuffer {
    pub closed spec fn spec_width(&self) -> int {
        self.width as int
    }

    pub closed spec fn spec_height(&self) -> int {
        self.height as int
    }

    /// The byte length matches the dimensions, and the dimensions are
    /// small enough that byte offsets cannot overflow.
    pub closed spec fn wf(&self) -> bool {
        &&& self.data.len() == 4 * self.spec_width() * self.spec_height()
        &&& self.width <= IMAGE_LIMIT
        &&& self.height <= IMAGE_LIMIT
    }

    /// The alpha byte of the pixel at column `x` of row `y`.
    pub closed spec fn spec_alpha(&self, x: int, y: int) -> u8 {
        self.data@[4 * (y * self.spec_width() + x) + 3]
    }

    /// The opacity mask of the `w` x `h` sub-rectangle at `(ox, oy)`:
    /// `mask[y][x]` is true when the pixel there has nonzero alpha.
    pub open spec fn mask(&self, ox: int, oy: int, w: int, h: int) -> Seq<Seq<bool>> {
        Seq::new(h as nat, |y: int| Seq::new(w as nat, |x: int| self.spec_alpha(ox + x, oy + y) != 0))
    }

    /// Wraps raw RGBA bytes, or reports a mismatch between the byte count
    /// and the dimensions (or an oversized image).
    pub fn new(data: Vec<u8>, width: u32, height: u32) -> (r: Option<PixelBuffer>)
        ensures
            (match r {
                Option::Some(pb) => {
                    &&& pb.wf()
                    &&& pb.spec_width() == width
                    &&& pb.spec_height() == height
                    &&& forall|x: int, y: int|
                        0 <= x < width && 0 <= y < height ==> pb.spec_alpha(x, y) == data@[4 * (y
                            * width + x) + 3]
                    &&& data@.len() == 4 * (width as int) * (height as int)
                    &&& width <= IMAGE_LIMIT
                    &&& height <= IMAGE_LIMIT
                },
                Option::None => data@.len() != 4 * (width as int) * (height as int) || width
                    > IMAGE_LIMIT || height > IMAGE_LIMIT,
            }),
    {
        if width > IMAGE_LIMIT || height > IMAGE_LIMIT {
            return None;
        }
        proof {
            assert((4 * (width as int)) * (height as int) <= 0x10000000000) by (nonlinear_arith)
                requires
                    0 <= width <= IMAGE_LIMIT,
                    0 <= height <= IMAGE_LIMIT,
            ;
        }
        let expected: u64 = 4 * (width as u64) * (height as u64);
        if (data.len() as u64) != expected {
            return None;
        }
        Some(PixelBuffer { data, width, height })
    }

    pub fn width(&self) -> (r: u32)
        ensures
            r == self.spec_width(),
    {
        self.width
    }

    pub fn height(&self) -> (r: u32)
        ensures
            r == self.spec_height(),
    {
        self.height
    }

    /// Reads the alpha channel of one pixel.
    pub fn alpha(&self, x: u32, y: u32) -> (r: u8)
        requires
            self.wf(),
            x < self.spec_width(),
            y < self.spec_height(),
        ensures
            r == self.spec_alpha(x as int, y as int),
    {
        proof {
            assert((y as int) * self.spec_width() + x < self.spec_width() * self.spec_height()
                && (y as int) * self.spec_width() >= 0 && self.spec_width() * self.spec_height()
                <= (IMAGE_LIMIT as int) * (IMAGE_LIMIT as int) && 4 * ((y as int)
                * self.spec_width() + x) + 3 < 4 * self.spec_width() * self.spec_height())
                by (nonlinear_arith)
                requires
                    0 <= x < self.spec_width(),
                    0 <= y < self.spec_height(),
                    self.spec_width() <= IMAGE_LIMIT,
                    self.spec_height() <= IMAGE_LIMIT,
            ;
        }
        let idx: usize = 4 * ((y as usize) * (self.width as usize) + (x as usize)) + 3;
        proof {
            assert(idx < self.data@.len());
        }
        self.data[idx]
    }
}

} // verus!
