//! A flat RGBA byte store for a `width` x `height` canvas.

use vstd::prelude::*;

verus! {

/// A canvas of RGBA pixels stored row-major, four bytes per pixel, no padding.
///
/// The structural invariant [`PixelBuffer::wf`] ties the byte store's length to
/// the dimensions; every operation below requires and preserves it.
#[derive(Debug, Clone)]
pub struct PixelBuffer {
    pub width: u32,
    pub height: u32,
    pub data: Vec<u8>,
}

impl PixelBuffer {
    /// The byte store holds exactly four bytes for every pixel of the canvas.
    pub open spec fn wf(self) -> bool {
        self.data@.len() == self.width as int * self.height as int * 4
    }

    /// Whether (x, y) addresses a pixel of the canvas.
    pub open spec fn in_bounds(self, x: int, y: int) -> bool {
        0 <= x < self.width as int && 0 <= y < self.height as int
    }

    /// Byte index of the first channel of pixel (x, y).
    pub open spec fn pixel_index(self, x: int, y: int) -> int {
        (y * self.width as int + x) * 4
    }

    /// The four RGBA bytes of pixel (x, y).
    pub open spec fn pixel(self, x: int, y: int) -> Seq<u8> {
        self.data@.subrange(self.pixel_index(x, y), self.pixel_index(x, y) + 4)
    }

    /// Every pixel's byte range lies inside the store.
    pub proof fn lemma_pixel_index_in_range(self, x: int, y: int)
        requires
            self.wf(),
            self.in_bounds(x, y),
        ensures
            0 <= self.pixel_index(x, y),
            self.pixel_index(x, y) + 4 <= self.data@.len(),
    {
        let w = self.width as int;
        let h = self.height as int;
        assert((y * w + x) * 4 + 4 <= w * h * 4) by (nonlinear_arith)
            requires
                0 <= x < w,
                0 <= y < h,
        ;
        assert(0 <= (y * w + x) * 4) by (nonlinear_arith)
            requires
                0 <= x,
                0 <= y,
                0 <= w,
        ;
    }

    /// A buffer cleared to transparent black.
    pub fn new(width: u32, height: u32) -> (r: PixelBuffer)
        requires
            width as int * height as int * 4 <= usize::MAX as int,
        ensures
            r.wf(),
            r.width == width,
            r.height == height,
            forall|i: int| 0 <= i < r.data@.len() ==> r.data@[i] == 0u8,
    {
        let size: usize = width as usize * height as usize * 4;
        let mut data: Vec<u8> = Vec::new();
        let mut i: usize = 0;
        while i < size
            invariant
                i <= size,
                data@.len() == i,
                forall|k: int| 0 <= k < i ==> data@[k] == 0u8,
            decreases size - i,
        {
            data.push(0u8);
            i = i + 1;
        }
        PixelBuffer { width, height, data }
    }

    /// Reads pixel (x, y); `None` exactly when the coordinate is out of bounds.
    pub fn get_pixel(&self, x: u32, y: u32) -> (r: Option<[u8; 4]>)
        requires
            self.wf(),
        ensures
            r is Some <==> self.in_bounds(x as int, y as int),
            r matches Some(c) ==> c@ =~= self.pixel(x as int, y as int),
    {
        if x >= self.width || y >= self.height {
            return None;
        }
        proof {
            self.lemma_pixel_index_in_range(x as int, y as int);
        }
        let n: usize = self.data.len();
        let index: usize = (y as usize * self.width as usize + x as usize) * 4;
        Some([
            self.data[index],
            self.data[index + 1],
            self.data[index + 2],
            self.data[index + 3],
        ])
    }

    /// Writes pixel (x, y); fails exactly when the coordinate is out of bounds,
    /// and then leaves the buffer untouched.
    pub fn set_pixel(&mut self, x: u32, y: u32, color: [u8; 4]) -> (r: Result<(), String>)
        requires
            old(self).wf(),
        ensures
            final(self).wf(),
            final(self).width == old(self).width,
            final(self).height == old(self).height,
            r is Ok <==> old(self).in_bounds(x as int, y as int),
            r is Err ==> *final(self) == *old(self),
            r is Ok ==> final(self).pixel(x as int, y as int) =~= color@,
            forall|px: int, py: int|
                old(self).in_bounds(px, py) && !(px == x as int && py == y as int)
                    ==> final(self).pixel(px, py) =~= old(self).pixel(px, py),
    {
        if x >= self.width || y >= self.height {
            return Err("Pixel coordinates out of bounds".to_owned());
        }
        proof {
            self.lemma_pixel_index_in_range(x as int, y as int);
        }
        let n: usize = self.data.len();
        let index: usize = (y as usize * self.width as usize + x as usize) * 4;
        self.data.set(index, color[0]);
        self.data.set(index + 1, color[1]);
        self.data.set(index + 2, color[2]);
        self.data.set(index + 3, color[3]);
        proof {
            assert forall|px: int, py: int|
                old(self).in_bounds(px, py) && !(px == x as int && py == y as int)
                    implies self.pixel(px, py) =~= old(self).pixel(px, py) by {
                old(self).lemma_pixel_index_in_range(px, py);
                self.lemma_distinct_pixels_disjoint(px, py, x as int, y as int);
            }
        }
        Ok(())
    }

    /// Distinct in-bounds pixels occupy disjoint byte ranges.
    pub proof fn lemma_distinct_pixels_disjoint(self, ax: int, ay: int, bx: int, by: int)
        requires
            self.in_bounds(ax, ay),
            self.in_bounds(bx, by),
            !(ax == bx && ay == by),
        ensures
            self.pixel_index(ax, ay) + 4 <= self.pixel_index(bx, by)
                || self.pixel_index(bx, by) + 4 <= self.pixel_index(ax, ay),
    {
        let w = self.width as int;
        assert(ay * w + ax != by * w + bx ==> (ay * w + ax) * 4 + 4 <= (by * w + bx) * 4
            || (by * w + bx) * 4 + 4 <= (ay * w + ax) * 4) by (nonlinear_arith);
        assert(ay * w + ax != by * w + bx) by (nonlinear_arith)
            requires
                0 <= ax < w,
                0 <= bx < w,
                0 <= ay,
                0 <= by,
                !(ax == bx && ay == by),
        ;
    }

    /// Overwrites every pixel of the canvas with `color`.
    pub fn clear(&mut self, color: [u8; 4])
        requires
            old(self).wf(),
        ensures
            final(self).wf(),
            final(self).width == old(self).width,
            final(self).height == old(self).height,
            forall|px: int, py: int|
                final(self).in_bounds(px, py) ==> final(self).pixel(px, py) =~= color@,
    {
        let mut y: u32 = 0;
        while y < self.height
            invariant
                self.wf(),
                self.width == old(self).width,
                self.height == old(self).height,
                y <= self.height,
                forall|px: int, py: int|
                    self.in_bounds(px, py) && py < y ==> self.pixel(px, py) =~= color@,
            decreases self.height - y,
        {
            let mut x: u32 = 0;
            while x < self.width
                invariant
                    self.wf(),
                    self.width == old(self).width,
                    self.height == old(self).height,
                    y < self.height,
                    x <= self.width,
                    forall|px: int, py: int|
                        self.in_bounds(px, py) && py < y ==> self.pixel(px, py) =~= color@,
                    forall|px: int|
                        0 <= px < x ==> self.pixel(px, y as int) =~= color@,
                decreases self.width - x,
            {
                let _ = self.set_pixel(x, y, color);
                x = x + 1;
            }
            y = y + 1;
        }
    }
}

} // verus!
