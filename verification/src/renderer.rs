//! On-demand renderer byte store: a flat RGBA buffer with its own dirty
//! region.
//!
//! The store deliberately keeps no drawing surface alive between calls: a
//! caller rasterizing strokes wraps the bytes for the duration of one
//! operation, writes the result back through [`PixelRenderer::set_image_data`],
//! and records the touched rectangle, so the store itself can be shared
//! freely. Opaque rectangle fills are done here directly
//! ([`PixelRenderer::fill_rect_opaque`]); brush strokes and blended fills are
//! the caller's rasterization work.

use crate::dirty_region::{is_bounds, max_i32_spec, min_i32_spec, rect_wf, DirtyRegion, Rect, COORD_LIMIT};
use vstd::prelude::*;

verus! {

/// A `width` x `height` RGBA byte store plus dirty-region tracking.
#[derive(Debug)]
pub struct PixelRenderer {
    pub pixels: Vec<u8>,
    pub width: i32,
    pub height: i32,
    pub dirty_region: DirtyRegion,
}

impl PixelRenderer {
    /// Dimensions are nonnegative and small enough that every byte index fits
    /// an `i32`, the store holds four bytes per pixel, and the dirty region is
    /// well formed.
    pub open spec fn wf(self) -> bool {
        &&& 0 <= self.width <= COORD_LIMIT
        &&& 0 <= self.height <= COORD_LIMIT
        &&& self.width as int * self.height as int * 4 <= i32::MAX as int
        &&& self.pixels@.len() == self.width as int * self.height as int * 4
        &&& self.dirty_region.wf()
    }

    /// A store filled with opaque white, nothing dirty.
    pub fn new(width: i32, height: i32) -> (r: Result<PixelRenderer, String>)
        requires
            0 <= width <= COORD_LIMIT,
            0 <= height <= COORD_LIMIT,
            width as int * height as int * 4 <= i32::MAX as int,
        ensures
            r matches Ok(p) && p.wf() && p.width == width && p.height == height
                && p.dirty_region.rects@.len() == 0 && forall|i: int|
                0 <= i < p.pixels@.len() ==> p.pixels@[i] == 255u8,
    {
        proof {
            lemma_size_fits(width as int, height as int);
        }
        let size: usize = (width as usize) * (height as usize) * 4;
        Ok(
            PixelRenderer {
                pixels: filled_bytes(size, 255),
                width,
                height,
                dirty_region: DirtyRegion::new(),
            },
        )
    }

    /// A copy of the full store.
    pub fn get_image_data(&self) -> (r: Vec<u8>)
        ensures
            r@ == self.pixels@,
    {
        let mut r: Vec<u8> = Vec::new();
        let mut i: usize = 0;
        let len = self.pixels.len();
        while i < len
            invariant
                i <= len,
                len == self.pixels@.len(),
                r@ =~= self.pixels@.subrange(0, i as int),
            decreases len - i,
        {
            r.push(self.pixels[i]);
            i = i + 1;
        }
        proof {
            assert(r@ =~= self.pixels@);
        }
        r
    }

    /// Replaces the store's bytes wholesale, as a caller does after
    /// rasterizing into a copy of them.
    pub fn set_image_data(&mut self, data: Vec<u8>)
        requires
            old(self).wf(),
            data@.len() == old(self).pixels@.len(),
        ensures
            final(self).wf(),
            final(self).width == old(self).width,
            final(self).height == old(self).height,
            final(self).pixels@ == data@,
            final(self).dirty_region == old(self).dirty_region,
    {
        self.pixels = data;
    }

    /// Records the conservative dirty box of a stroke from (x1, y1) to
    /// (x2, y2) with the given brush size.
    pub fn mark_stroke_dirty(&mut self, x1: i32, y1: i32, x2: i32, y2: i32, brush_size: i32)
        requires
            old(self).wf(),
            -COORD_LIMIT / 2 <= x1 <= COORD_LIMIT / 2,
            -COORD_LIMIT / 2 <= y1 <= COORD_LIMIT / 2,
            -COORD_LIMIT / 2 <= x2 <= COORD_LIMIT / 2,
            -COORD_LIMIT / 2 <= y2 <= COORD_LIMIT / 2,
            0 <= brush_size <= COORD_LIMIT / 4,
        ensures
            final(self).wf(),
            final(self).pixels == old(self).pixels,
            final(self).width == old(self).width,
            final(self).height == old(self).height,
            max_i32_spec(x1, x2) - min_i32_spec(x1, x2) + brush_size > 0 && max_i32_spec(y1, y2)
                - min_i32_spec(y1, y2) + brush_size > 0 ==> final(self).dirty_region.rects@ == old(
                self,
            ).dirty_region.rects@.push(
                Rect {
                    x: (min_i32_spec(x1, x2) - brush_size / 2) as i32,
                    y: (min_i32_spec(y1, y2) - brush_size / 2) as i32,
                    width: (max_i32_spec(x1, x2) - min_i32_spec(x1, x2) + brush_size) as i32,
                    height: (max_i32_spec(y1, y2) - min_i32_spec(y1, y2) + brush_size) as i32,
                },
            ),
    {
        self.dirty_region.add_line(x1, y1, x2, y2, brush_size);
    }

    /// Records an arbitrary dirty rectangle, as a caller does after filling
    /// one.
    pub fn mark_rect_dirty(&mut self, rect: Rect)
        requires
            old(self).wf(),
            rect_wf(rect),
        ensures
            final(self).wf(),
            final(self).pixels == old(self).pixels,
            final(self).width == old(self).width,
            final(self).height == old(self).height,
            rect.width > 0 && rect.height > 0 ==> final(self).dirty_region.rects@ == old(
                self,
            ).dirty_region.rects@.push(rect),
            rect.width <= 0 || rect.height <= 0 ==> final(self).dirty_region == old(
                self,
            ).dirty_region,
    {
        self.dirty_region.add_rect(rect);
    }

    /// Fills the part of `rect` on the canvas with `color`, no blending, and
    /// records `rect` as dirty.
    pub fn fill_rect_opaque(&mut self, rect: Rect, color: [u8; 4])
        requires
            old(self).wf(),
            rect_wf(rect),
        ensures
            final(self).wf(),
            final(self).width == old(self).width,
            final(self).height == old(self).height,
            final(self).pixels@.len() == old(self).pixels@.len(),
            forall|x: int, y: int, c: int|
                0 <= x < old(self).width as int && 0 <= y < old(self).height as int && 0 <= c < 4
                    ==> #[trigger] final(self).pixels@[(y * old(self).width as int + x) * 4 + c]
                    == if crate::dirty_region::rect_contains(rect, x, y) {
                    color@[c]
                } else {
                    old(self).pixels@[(y * old(self).width as int + x) * 4 + c]
                },
            rect.width > 0 && rect.height > 0 ==> final(self).dirty_region.rects@ == old(
                self,
            ).dirty_region.rects@.push(rect),
            rect.width <= 0 || rect.height <= 0 ==> final(self).dirty_region == old(
                self,
            ).dirty_region,
    {
        let ghost w = self.width as int;
        let ghost h = self.height as int;
        let y_lo: i32 = if rect.y > 0 {
            rect.y
        } else {
            0
        };
        let y_hi: i32 = if rect.y + rect.height < self.height {
            rect.y + rect.height
        } else {
            self.height
        };
        let x_lo: i32 = if rect.x > 0 {
            rect.x
        } else {
            0
        };
        let x_hi: i32 = if rect.x + rect.width < self.width {
            rect.x + rect.width
        } else {
            self.width
        };
        let mut y: i32 = y_lo;
        while y < y_hi
            invariant
                self.wf(),
                self.width == old(self).width,
                self.height == old(self).height,
                self.dirty_region == old(self).dirty_region,
                w == self.width as int,
                h == self.height as int,
                rect_wf(rect),
                0 <= y_lo,
                y_hi <= self.height,
                y_lo <= y,
                y <= y_hi || y == y_lo,
                0 <= x_lo,
                x_hi <= self.width,
                y_lo as int == if rect.y as int > 0 {
                    rect.y as int
                } else {
                    0
                },
                y_hi as int == if (rect.y as int + rect.height as int) < h {
                    rect.y as int + rect.height as int
                } else {
                    h
                },
                x_lo as int == if rect.x as int > 0 {
                    rect.x as int
                } else {
                    0
                },
                x_hi as int == if (rect.x as int + rect.width as int) < w {
                    rect.x as int + rect.width as int
                } else {
                    w
                },
                forall|qx: int, qy: int, c: int|
                    0 <= qx < w && 0 <= qy < h && 0 <= c < 4 ==> #[trigger] self.pixels@[(qy * w
                        + qx) * 4 + c] == if crate::dirty_region::rect_contains(rect, qx, qy) && qy
                        < y {
                        color@[c]
                    } else {
                        old(self).pixels@[(qy * w + qx) * 4 + c]
                    },
            decreases y_hi - y,
        {
            let mut x: i32 = x_lo;
            while x < x_hi
                invariant
                    self.wf(),
                    self.width == old(self).width,
                    self.height == old(self).height,
                    self.dirty_region == old(self).dirty_region,
                    w == self.width as int,
                    h == self.height as int,
                    rect_wf(rect),
                    0 <= y_lo <= y,
                    y < y_hi <= self.height,
                    0 <= x_lo <= x,
                    x <= x_hi || x == x_lo,
                    x_hi <= self.width,
                    y_lo as int == if rect.y as int > 0 {
                        rect.y as int
                    } else {
                        0
                    },
                    y_hi as int == if (rect.y as int + rect.height as int) < h {
                        rect.y as int + rect.height as int
                    } else {
                        h
                    },
                    x_lo as int == if rect.x as int > 0 {
                        rect.x as int
                    } else {
                        0
                    },
                    x_hi as int == if (rect.x as int + rect.width as int) < w {
                        rect.x as int + rect.width as int
                    } else {
                        w
                    },
                    forall|qx: int, qy: int, c: int|
                        0 <= qx < w && 0 <= qy < h && 0 <= c < 4 ==> #[trigger] self.pixels@[(qy
                            * w + qx) * 4 + c] == if crate::dirty_region::rect_contains(
                            rect,
                            qx,
                            qy,
                        ) && (qy < y || (qy == y && qx < x)) {
                            color@[c]
                        } else {
                            old(self).pixels@[(qy * w + qx) * 4 + c]
                        },
                decreases x_hi - x,
            {
                proof {
                    lemma_cell_index(w, h, x as int, y as int, 0);
                    lemma_size_fits(w, h);
                }
                let base: usize = ((y as usize) * (self.width as usize) + (x as usize)) * 4;
                let ghost pix0 = self.pixels@;
                self.pixels.set(base, color[0]);
                self.pixels.set(base + 1, color[1]);
                self.pixels.set(base + 2, color[2]);
                self.pixels.set(base + 3, color[3]);
                proof {
                    assert forall|qx: int, qy: int, c: int|
                        0 <= qx < w && 0 <= qy < h && 0 <= c < 4 && !(qx == x as int && qy
                            == y as int) implies #[trigger] self.pixels@[(qy * w + qx) * 4 + c]
                        == pix0[(qy * w + qx) * 4 + c] by {
                        lemma_cell_index(w, h, qx, qy, c);
                        lemma_cells_disjoint(w, h, qx, qy, x as int, y as int);
                    }
                }
                x = x + 1;
            }
            y = y + 1;
        }
        proof {
            assert forall|qx: int, qy: int, c: int|
                0 <= qx < w && 0 <= qy < h && 0 <= c < 4 implies #[trigger] self.pixels@[(qy * w
                + qx) * 4 + c] == if crate::dirty_region::rect_contains(rect, qx, qy) {
                color@[c]
            } else {
                old(self).pixels@[(qy * w + qx) * 4 + c]
            } by {
            }
        }
        self.dirty_region.add_rect(rect);
    }

    /// Overwrites every pixel with `color` and marks the whole canvas dirty.
    pub fn clear(&mut self, color: [u8; 4])
        requires
            old(self).wf(),
        ensures
            final(self).wf(),
            final(self).width == old(self).width,
            final(self).height == old(self).height,
            final(self).pixels@.len() == old(self).pixels@.len(),
            forall|i: int, c: int|
                0 <= i < old(self).width as int * old(self).height as int && 0 <= c < 4
                    ==> #[trigger] final(self).pixels@[4 * i + c] == color@[c],
            old(self).width > 0 && old(self).height > 0 ==> final(self).dirty_region.rects@ == old(
                self,
            ).dirty_region.rects@.push(
                Rect { x: 0, y: 0, width: old(self).width, height: old(self).height },
            ),
    {
        let ghost total = self.width as int * self.height as int;
        let mut i: usize = 0;
        let count: usize = self.pixels.len() / 4;
        proof {
            lemma_size_fits(self.width as int, self.height as int);
        }
        while i < count
            invariant
                self.wf(),
                self.width == old(self).width,
                self.height == old(self).height,
                self.dirty_region == old(self).dirty_region,
                total == self.width as int * self.height as int,
                self.pixels@.len() == 4 * total,
                count as int == total,
                i <= count,
                forall|k: int, c: int|
                    0 <= k < i && 0 <= c < 4 ==> #[trigger] self.pixels@[4 * k + c] == color@[c],
            decreases count - i,
        {
            let base: usize = i * 4;
            self.pixels.set(base, color[0]);
            self.pixels.set(base + 1, color[1]);
            self.pixels.set(base + 2, color[2]);
            self.pixels.set(base + 3, color[3]);
            proof {
                assert forall|k: int, c: int| 0 <= k < i + 1 && 0 <= c < 4 implies #[trigger] self.pixels@[4
                    * k + c] == color@[c] by {
                    if k < i {
                        assert(4 * k + c < 4 * (i as int) && 0 <= 4 * k + c) by (nonlinear_arith)
                            requires
                                0 <= k < i,
                                0 <= c < 4,
                        ;
                    }
                }
            }
            i = i + 1;
        }
        let w = self.width;
        let h = self.height;
        self.dirty_region.add_rect(Rect::new(0, 0, w, h));
    }

    /// The minimal rectangle covering everything marked dirty, or `None` when
    /// nothing is.
    pub fn get_dirty_bounds(&self) -> (r: Option<Rect>)
        requires
            self.wf(),
        ensures
            r is Some <==> self.dirty_region.rects@.len() > 0,
            r matches Some(b) ==> is_bounds(self.dirty_region.rects@, b),
    {
        self.dirty_region.get_bounds()
    }

    /// Forgets every dirty rectangle.
    pub fn clear_dirty_region(&mut self)
        requires
            old(self).wf(),
        ensures
            final(self).wf(),
            final(self).pixels == old(self).pixels,
            final(self).width == old(self).width,
            final(self).height == old(self).height,
            final(self).dirty_region.rects@.len() == 0,
    {
        self.dirty_region.clear();
    }

    /// Reallocates the store to a white canvas of the new size — prior pixel
    /// content is lost — and marks the whole new area dirty.
    pub fn resize(&mut self, width: i32, height: i32) -> (r: Result<(), String>)
        requires
            old(self).wf(),
            0 <= width <= COORD_LIMIT,
            0 <= height <= COORD_LIMIT,
            width as int * height as int * 4 <= i32::MAX as int,
        ensures
            r is Ok,
            final(self).wf(),
            final(self).width == width,
            final(self).height == height,
            forall|i: int| 0 <= i < final(self).pixels@.len() ==> final(self).pixels@[i] == 255u8,
            width > 0 && height > 0 ==> final(self).dirty_region.rects@ == seq![
                Rect { x: 0, y: 0, width: width, height: height },
            ],
            width <= 0 || height <= 0 ==> final(self).dirty_region.rects@.len() == 0,
    {
        proof {
            lemma_size_fits(width as int, height as int);
        }
        self.width = width;
        self.height = height;
        let size: usize = (width as usize) * (height as usize) * 4;
        self.pixels = filled_bytes(size, 255);
        self.dirty_region.clear();
        let ghost empty_rects = self.dirty_region.rects@;
        self.dirty_region.add_rect(Rect::new(0, 0, width, height));
        proof {
            if width > 0 && height > 0 {
                assert(self.dirty_region.rects@ =~= seq![
                    Rect { x: 0, y: 0, width: width, height: height },
                ]);
            }
        }
        Ok(())
    }

    /// Copies the viewport rectangle into a fresh buffer of exactly
    /// `viewport_width * viewport_height` RGBA pixels, pre-filled opaque
    /// white: result pixel (rx, ry) holds store pixel
    /// (viewport_x + rx, viewport_y + ry) when that lies on the store, and
    /// stays white elsewhere. No zoom scaling is applied.
    pub fn render_viewport(
        &self,
        viewport_x: i32,
        viewport_y: i32,
        viewport_width: i32,
        viewport_height: i32,
    ) -> (r: Result<Vec<u8>, String>)
        requires
            self.wf(),
            0 <= viewport_width <= COORD_LIMIT,
            0 <= viewport_height <= COORD_LIMIT,
            viewport_width as int * viewport_height as int * 4 <= i32::MAX as int,
            -COORD_LIMIT <= viewport_x <= COORD_LIMIT,
            -COORD_LIMIT <= viewport_y <= COORD_LIMIT,
        ensures
            r matches Ok(v) && {
                &&& v@.len() == viewport_width as int * viewport_height as int * 4
                &&& forall|rx: int, ry: int, c: int|
                    0 <= rx < viewport_width as int && 0 <= ry < viewport_height as int && 0 <= c
                        < 4 ==> #[trigger] v@[(ry * viewport_width as int + rx) * 4 + c] == if 0
                        <= viewport_x + rx < self.width as int && 0 <= viewport_y + ry
                        < self.height as int {
                        self.pixels@[((viewport_y + ry) * self.width as int + (viewport_x + rx))
                            * 4 + c]
                    } else {
                        255u8
                    }
            },
    {
        proof {
            lemma_size_fits(viewport_width as int, viewport_height as int);
        }
        let size: usize = (viewport_width as usize) * (viewport_height as usize) * 4;
        let mut result: Vec<u8> = filled_bytes(size, 255);
        let ghost vw = viewport_width as int;
        let ghost vh = viewport_height as int;
        proof {
            assert forall|rx: int, ry: int, c: int|
                0 <= rx < vw && 0 <= ry < vh && 0 <= c < 4 implies #[trigger] result@[(ry * vw
                + rx) * 4 + c] == 255u8 by {
                lemma_cell_index(vw, vh, rx, ry, c);
            }
        }
        let mut ry: i32 = 0;
        while ry < viewport_height
            invariant
                self.wf(),
                0 <= viewport_width <= COORD_LIMIT,
                0 <= viewport_height <= COORD_LIMIT,
                viewport_width as int * viewport_height as int * 4 <= i32::MAX as int,
                -COORD_LIMIT <= viewport_x <= COORD_LIMIT,
                -COORD_LIMIT <= viewport_y <= COORD_LIMIT,
                vw == viewport_width as int,
                vh == viewport_height as int,
                0 <= ry <= viewport_height,
                result@.len() == vw * vh * 4,
                forall|rx: int, qy: int, c: int|
                    0 <= rx < vw && 0 <= qy < vh && 0 <= c < 4 ==> #[trigger] result@[(qy * vw
                        + rx) * 4 + c] == if qy < ry && 0 <= viewport_x + rx < self.width as int
                        && 0 <= viewport_y + qy < self.height as int {
                        self.pixels@[((viewport_y + qy) * self.width as int + (viewport_x + rx))
                            * 4 + c]
                    } else {
                        255u8
                    },
            decreases viewport_height - ry,
        {
            let mut rx: i32 = 0;
            while rx < viewport_width
                invariant
                    self.wf(),
                    0 <= viewport_width <= COORD_LIMIT,
                    0 <= viewport_height <= COORD_LIMIT,
                    viewport_width as int * viewport_height as int * 4 <= i32::MAX as int,
                    -COORD_LIMIT <= viewport_x <= COORD_LIMIT,
                    -COORD_LIMIT <= viewport_y <= COORD_LIMIT,
                    vw == viewport_width as int,
                    vh == viewport_height as int,
                    0 <= ry < viewport_height,
                    0 <= rx <= viewport_width,
                    result@.len() == vw * vh * 4,
                    forall|qx: int, qy: int, c: int|
                        0 <= qx < vw && 0 <= qy < vh && 0 <= c < 4 ==> #[trigger] result@[(qy * vw
                            + qx) * 4 + c] == if (qy < ry || (qy == ry && qx < rx)) && 0
                            <= viewport_x + qx < self.width as int && 0 <= viewport_y + qy
                            < self.height as int {
                            self.pixels@[((viewport_y + qy) * self.width as int + (viewport_x
                                + qx)) * 4 + c]
                        } else {
                            255u8
                        },
                decreases viewport_width - rx,
            {
                let sx: i32 = viewport_x + rx;
                let sy: i32 = viewport_y + ry;
                if 0 <= sx && sx < self.width && 0 <= sy && sy < self.height {
                    proof {
                        lemma_cell_index(vw, vh, rx as int, ry as int, 0);
                        lemma_cell_index(
                            self.width as int,
                            self.height as int,
                            sx as int,
                            sy as int,
                            0,
                        );
                        lemma_size_fits(self.width as int, self.height as int);
                    }
                    let src_base: usize = ((sy as usize) * (self.width as usize) + (sx as usize))
                        * 4;
                    let dst_base: usize = ((ry as usize) * (viewport_width as usize) + (
                    rx as usize)) * 4;
                    let ghost res0 = result@;
                    let b0 = self.pixels[src_base];
                    let b1 = self.pixels[src_base + 1];
                    let b2 = self.pixels[src_base + 2];
                    let b3 = self.pixels[src_base + 3];
                    result.set(dst_base, b0);
                    result.set(dst_base + 1, b1);
                    result.set(dst_base + 2, b2);
                    result.set(dst_base + 3, b3);
                    proof {
                        assert forall|qx: int, qy: int, c: int|
                            0 <= qx < vw && 0 <= qy < vh && 0 <= c < 4 && !(qx == rx as int && qy
                                == ry as int) implies #[trigger] result@[(qy * vw + qx) * 4 + c]
                            == res0[(qy * vw + qx) * 4 + c] by {
                            lemma_cell_index(vw, vh, qx, qy, c);
                            lemma_cells_disjoint(vw, vh, qx, qy, rx as int, ry as int);
                        }
                    }
                }
                rx = rx + 1;
            }
            ry = ry + 1;
        }
        Ok(result)
    }
}

/// A byte vector of the given length with every byte set to `value`.
fn filled_bytes(len: usize, value: u8) -> (r: Vec<u8>)
    ensures
        r@.len() == len,
        forall|i: int| 0 <= i < len ==> r@[i] == value,
{
    let mut r: Vec<u8> = Vec::new();
    let mut i: usize = 0;
    while i < len
        invariant
            i <= len,
            r@.len() == i,
            forall|k: int| 0 <= k < i ==> r@[k] == value,
        decreases len - i,
    {
        r.push(value);
        i = i + 1;
    }
    r
}

/// A nonnegative `w * h * 4` that fits an `i32` fits a `usize` computation.
proof fn lemma_size_fits(w: int, h: int)
    requires
        0 <= w,
        0 <= h,
        w * h * 4 <= i32::MAX as int,
    ensures
        w * h <= i32::MAX as int,
        0 <= w * h,
        w <= i32::MAX as int ==> w * h * 4 == (w * h) * 4,
{
    assert(0 <= w * h && w * h <= w * h * 4 && w * h * 4 == (w * h) * 4) by (nonlinear_arith)
        requires
            0 <= w,
            0 <= h,
    ;
}

/// Byte indices of an RGBA cell of a `w` x `h` store lie inside it.
proof fn lemma_cell_index(w: int, h: int, x: int, y: int, c: int)
    requires
        0 <= x < w,
        0 <= y < h,
        0 <= c < 4,
    ensures
        0 <= (y * w + x) * 4 + c,
        (y * w + x) * 4 + 3 < w * h * 4,
        (y * w + x) * 4 == y * w * 4 + x * 4,
    decreases 0int,
{
    assert(0 <= (y * w + x) * 4 + c && (y * w + x) * 4 + 3 < w * h * 4 && (y * w + x) * 4 == y * w
        * 4 + x * 4) by (nonlinear_arith)
        requires
            0 <= x < w,
            0 <= y < h,
            0 <= c < 4,
    ;
}

/// Distinct cells of a store occupy disjoint four-byte ranges.
proof fn lemma_cells_disjoint(w: int, h: int, ax: int, ay: int, bx: int, by: int)
    requires
        0 <= ax < w,
        0 <= ay < h,
        0 <= bx < w,
        0 <= by < h,
        !(ax == bx && ay == by),
    ensures
        (ay * w + ax) * 4 + 4 <= (by * w + bx) * 4 || (by * w + bx) * 4 + 4 <= (ay * w + ax) * 4,
{
    assert((ay * w + ax) * 4 + 4 <= (by * w + bx) * 4 || (by * w + bx) * 4 + 4 <= (ay * w + ax)
        * 4) by (nonlinear_arith)
        requires
            0 <= ax < w,
            0 <= ay < h,
            0 <= bx < w,
            0 <= by < h,
            !(ax == bx && ay == by),
    ;
}

} // verus!
