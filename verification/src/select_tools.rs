//! Selection-producing tools, and the clipboard-style operations that read a
//! selection against a pixel buffer.
//!
//! Each tool builds a temporary mask from geometry, combines it into the
//! persistent mask under a [`SelectionMode`], and rescans the bounding box.

use crate::pixel_buffer::PixelBuffer;
use std::collections::VecDeque;
use crate::selection::{apply_selection_mode, filled_bool, spec_apply_mode, Selection, SelectionMode};
use vstd::prelude::*;

verus! {

broadcast use vstd::seq_lib::group_to_multiset_ensures;

/// Membership in the inclusive cell rectangle from (min_x, min_y) to
/// (max_x, max_y).
pub open spec fn in_cell_rect(min_x: int, max_x: int, min_y: int, max_y: int, px: int, py: int) -> bool {
    min_x <= px <= max_x && min_y <= py <= max_y
}

/// Spec-level minimum of two `u32` values.
pub open spec fn umin(a: u32, b: u32) -> int {
    if a <= b {
        a as int
    } else {
        b as int
    }
}

/// Spec-level maximum of two `u32` values.
pub open spec fn umax(a: u32, b: u32) -> int {
    if a >= b {
        a as int
    } else {
        b as int
    }
}

/// Selects the rectangle spanned by two arbitrary corners under `mode`: cell
/// by cell, the new mask is the old one combined with rectangle membership,
/// and the bounding box is recomputed.
pub fn select_rectangle(
    selection: &mut Selection,
    x0: u32,
    y0: u32,
    x1: u32,
    y1: u32,
    mode: SelectionMode,
)
    requires
        old(selection).wf(),
    ensures
        final(selection).wf(),
        final(selection).width == old(selection).width,
        final(selection).height == old(selection).height,
        forall|px: int, py: int|
            final(selection).in_dims(px, py) ==> #[trigger] final(selection).sel(px, py)
                == spec_apply_mode(
                mode,
                old(selection).sel(px, py),
                in_cell_rect(umin(x0, x1), umax(x0, x1), umin(y0, y1), umax(y0, y1), px, py),
            ),
        final(selection).bounds_exact(),
{
    let min_x = if x0 < x1 {
        x0
    } else {
        x1
    };
    let max_x = if x0 > x1 {
        x0
    } else {
        x1
    };
    let min_y = if y0 < y1 {
        y0
    } else {
        y1
    };
    let max_y = if y0 > y1 {
        y0
    } else {
        y1
    };
    let len = selection.mask.len();
    let mut temp_mask: Vec<bool> = filled_bool(len, false);
    let ghost me = *old(selection);
    proof {
        assert forall|px: int, py: int| me.in_dims(px, py) implies !(#[trigger] temp_mask@[me.index(
            px,
            py,
        )]) by {
            me.lemma_index_in_range(px, py);
        }
    }
    let mut y: u32 = 0;
    while y < selection.height
        invariant
            *selection == me,
            me.wf(),
            min_x as int == umin(x0, x1),
            max_x as int == umax(x0, x1),
            min_y as int == umin(y0, y1),
            max_y as int == umax(y0, y1),
            y <= me.height,
            temp_mask@.len() == me.mask@.len(),
            forall|px: int, py: int|
                me.in_dims(px, py) && py < y ==> #[trigger] temp_mask@[me.index(px, py)]
                    == in_cell_rect(umin(x0, x1), umax(x0, x1), umin(y0, y1), umax(y0, y1), px, py),
            forall|px: int, py: int|
                me.in_dims(px, py) && py >= y ==> !(#[trigger] temp_mask@[me.index(px, py)]),
        decreases me.height - y,
    {
        let mut x: u32 = 0;
        while x < selection.width
            invariant
                *selection == me,
                me.wf(),
                min_x as int == umin(x0, x1),
                max_x as int == umax(x0, x1),
                min_y as int == umin(y0, y1),
                max_y as int == umax(y0, y1),
                y < me.height,
                x <= me.width,
                temp_mask@.len() == me.mask@.len(),
                forall|px: int, py: int|
                    me.in_dims(px, py) && (py < y || (py == y && px < x)) ==> #[trigger] temp_mask@[me.index(px, py)]
                        == in_cell_rect(
                        umin(x0, x1),
                        umax(x0, x1),
                        umin(y0, y1),
                        umax(y0, y1),
                        px,
                        py,
                    ),
                forall|px: int, py: int|
                    me.in_dims(px, py) && !(py < y || (py == y && px < x)) ==> !(
                    #[trigger] temp_mask@[me.index(px, py)]),
            decreases me.width - x,
        {
            let v = x >= min_x && x <= max_x && y >= min_y && y <= max_y;
            proof {
                me.lemma_index_in_range(x as int, y as int);
            }
            let n: usize = temp_mask.len();
            let index: usize = y as usize * selection.width as usize + x as usize;
            let ghost tm0 = temp_mask@;
            temp_mask.set(index, v);
            proof {
                assert forall|px: int, py: int|
                    me.in_dims(px, py) && !(px == x as int && py == y as int) implies temp_mask@[me.index(
                    px,
                    py,
                )] == tm0[me.index(px, py)] by {
                    me.lemma_index_in_range(px, py);
                    me.lemma_distinct_indices(px, py, x as int, y as int);
                }
            }
            x = x + 1;
        }
        y = y + 1;
    }
    apply_selection_mode(selection, &temp_mask, mode);
    let ghost applied = *selection;
    selection.update_bounds();
    proof {
        assert forall|px: int, py: int|
            selection.in_dims(px, py) implies #[trigger] selection.sel(px, py) == spec_apply_mode(
            mode,
            me.sel(px, py),
            in_cell_rect(umin(x0, x1), umax(x0, x1), umin(y0, y1), umax(y0, y1), px, py),
        ) by {
            me.lemma_index_in_range(px, py);
            assert(selection.sel(px, py) == applied.sel(px, py));
        }
    }
}

/// Membership in the ellipse around (cx, cy) with semi-axes `dx`, `dy`:
/// the normalized-axis inequality `(px-cx)^2/dx^2 + (py-cy)^2/dy^2 <= 1`,
/// cross-multiplied to stay in the integers. A zero axis contributes nothing,
/// leaving a band around the other axis.
pub open spec fn in_spec_ellipse(cx: int, cy: int, dx: int, dy: int, px: int, py: int) -> bool {
    if dx > 0 && dy > 0 {
        (px - cx) * (px - cx) * dy * dy + (py - cy) * (py - cy) * dx * dx <= dx * dx * dy * dy
    } else if dx == 0 {
        (py - cy) * (py - cy) <= dy * dy
    } else {
        (px - cx) * (px - cx) <= dx * dx
    }
}

/// Selects the ellipse around (center_x, center_y) whose semi-axes reach
/// (end_x, end_y), under `mode`. When both semi-axes are zero nothing changes,
/// not even the cached box; otherwise the mask is combined cell by cell with
/// ellipse membership and the box recomputed.
pub fn select_ellipse(
    selection: &mut Selection,
    center_x: i32,
    center_y: i32,
    end_x: i32,
    end_y: i32,
    mode: SelectionMode,
)
    requires
        old(selection).wf(),
        old(selection).width <= 0x2000_0000,
        old(selection).height <= 0x2000_0000,
        -0x2000_0000 <= center_x <= 0x2000_0000,
        -0x2000_0000 <= center_y <= 0x2000_0000,
        -0x2000_0000 <= end_x <= 0x2000_0000,
        -0x2000_0000 <= end_y <= 0x2000_0000,
    ensures
        final(selection).wf(),
        final(selection).width == old(selection).width,
        final(selection).height == old(selection).height,
        center_x == end_x && center_y == end_y ==> *final(selection) == *old(selection),
        !(center_x == end_x && center_y == end_y) ==> forall|px: int, py: int|
            final(selection).in_dims(px, py) ==> #[trigger] final(selection).sel(px, py)
                == spec_apply_mode(
                mode,
                old(selection).sel(px, py),
                in_spec_ellipse(
                    center_x as int,
                    center_y as int,
                    abs_int(end_x as int - center_x as int),
                    abs_int(end_y as int - center_y as int),
                    px,
                    py,
                ),
            ),
        !(center_x == end_x && center_y == end_y) ==> final(selection).bounds_exact(),
{
    let dx: i64 = if end_x >= center_x {
        end_x as i64 - center_x as i64
    } else {
        center_x as i64 - end_x as i64
    };
    let dy: i64 = if end_y >= center_y {
        end_y as i64 - center_y as i64
    } else {
        center_y as i64 - end_y as i64
    };
    if dx == 0 && dy == 0 {
        return ;
    }
    let len = selection.mask.len();
    let mut temp_mask: Vec<bool> = filled_bool(len, false);
    let ghost me = *old(selection);
    proof {
        assert forall|px: int, py: int| me.in_dims(px, py) implies !(#[trigger] temp_mask@[me.index(
            px,
            py,
        )]) by {
            me.lemma_index_in_range(px, py);
        }
    }
    let mut y: u32 = 0;
    while y < selection.height
        invariant
            *selection == me,
            me.wf(),
            me.width <= 0x2000_0000,
            me.height <= 0x2000_0000,
            -0x2000_0000 <= center_x <= 0x2000_0000,
            -0x2000_0000 <= center_y <= 0x2000_0000,
            0 <= dx <= 0x4000_0000,
            0 <= dy <= 0x4000_0000,
            dx as int == abs_int(end_x as int - center_x as int),
            dy as int == abs_int(end_y as int - center_y as int),
            y <= me.height,
            temp_mask@.len() == me.mask@.len(),
            forall|px: int, py: int|
                me.in_dims(px, py) && py < y ==> #[trigger] temp_mask@[me.index(px, py)]
                    == in_spec_ellipse(
                    center_x as int,
                    center_y as int,
                    dx as int,
                    dy as int,
                    px,
                    py,
                ),
            forall|px: int, py: int|
                me.in_dims(px, py) && py >= y ==> !(#[trigger] temp_mask@[me.index(px, py)]),
        decreases me.height - y,
    {
        let mut x: u32 = 0;
        while x < selection.width
            invariant
                *selection == me,
                me.wf(),
                me.width <= 0x2000_0000,
                me.height <= 0x2000_0000,
                -0x2000_0000 <= center_x <= 0x2000_0000,
                -0x2000_0000 <= center_y <= 0x2000_0000,
                0 <= dx <= 0x4000_0000,
                0 <= dy <= 0x4000_0000,
                dx as int == abs_int(end_x as int - center_x as int),
                dy as int == abs_int(end_y as int - center_y as int),
                y < me.height,
                x <= me.width,
                temp_mask@.len() == me.mask@.len(),
                forall|px: int, py: int|
                    me.in_dims(px, py) && (py < y || (py == y && px < x)) ==> #[trigger] temp_mask@[me.index(
                        px,
                        py,
                    )] == in_spec_ellipse(
                        center_x as int,
                        center_y as int,
                        dx as int,
                        dy as int,
                        px,
                        py,
                    ),
                forall|px: int, py: int|
                    me.in_dims(px, py) && !(py < y || (py == y && px < x)) ==> !(
                    #[trigger] temp_mask@[me.index(px, py)]),
            decreases me.width - x,
        {
            let rel_x: i128 = x as i128 - center_x as i128;
            let rel_y: i128 = y as i128 - center_y as i128;
            proof {
                assert(0 <= rel_x * rel_x <= 0x1000_0000_0000_0000 && 0 <= rel_y * rel_y
                    <= 0x1000_0000_0000_0000 && 0 <= (dx as int) * (dx as int)
                    <= 0x1000_0000_0000_0000 && 0 <= (dy as int) * (dy as int)
                    <= 0x1000_0000_0000_0000) by (nonlinear_arith)
                    requires
                        -0x4000_0000 <= rel_x <= 0x4000_0000,
                        -0x4000_0000 <= rel_y <= 0x4000_0000,
                        0 <= dx <= 0x4000_0000,
                        0 <= dy <= 0x4000_0000,
                ;
                assert(0 <= rel_x * rel_x * ((dy as int) * (dy as int))
                    <= 0x100_0000_0000_0000_0000_0000_0000_0000 && 0 <= rel_y * rel_y * ((
                dx as int) * (dx as int)) <= 0x100_0000_0000_0000_0000_0000_0000_0000 && 0 <= (
                dx as int) * (dx as int) * ((dy as int) * (dy as int))
                    <= 0x100_0000_0000_0000_0000_0000_0000_0000) by (nonlinear_arith)
                    requires
                        0 <= rel_x * rel_x <= 0x1000_0000_0000_0000,
                        0 <= rel_y * rel_y <= 0x1000_0000_0000_0000,
                        0 <= (dx as int) * (dx as int) <= 0x1000_0000_0000_0000,
                        0 <= (dy as int) * (dy as int) <= 0x1000_0000_0000_0000,
                ;
            }
            let v: bool = if dx > 0 && dy > 0 {
                let dxs: i128 = (dx as i128) * (dx as i128);
                let dys: i128 = (dy as i128) * (dy as i128);
                rel_x * rel_x * dys + rel_y * rel_y * dxs <= dxs * dys
            } else if dx == 0 {
                rel_y * rel_y <= (dy as i128) * (dy as i128)
            } else {
                rel_x * rel_x <= (dx as i128) * (dx as i128)
            };
            proof {
                assert(v == in_spec_ellipse(
                    center_x as int,
                    center_y as int,
                    dx as int,
                    dy as int,
                    x as int,
                    y as int,
                )) by (nonlinear_arith)
                    requires
                        rel_x == x as int - center_x as int,
                        rel_y == y as int - center_y as int,
                        0 <= dx,
                        0 <= dy,
                        v == if dx > 0 && dy > 0 {
                            rel_x * rel_x * ((dy as int) * (dy as int)) + rel_y * rel_y * ((
                            dx as int) * (dx as int)) <= (dx as int) * (dx as int) * ((dy as int)
                                * (dy as int))
                        } else if dx == 0 {
                            rel_y * rel_y <= (dy as int) * (dy as int)
                        } else {
                            rel_x * rel_x <= (dx as int) * (dx as int)
                        },
                ;
                me.lemma_index_in_range(x as int, y as int);
            }
            let n: usize = temp_mask.len();
            let index: usize = y as usize * selection.width as usize + x as usize;
            let ghost tm0 = temp_mask@;
            temp_mask.set(index, v);
            proof {
                assert forall|px: int, py: int|
                    me.in_dims(px, py) && !(px == x as int && py == y as int) implies temp_mask@[me.index(
                    px,
                    py,
                )] == tm0[me.index(px, py)] by {
                    me.lemma_index_in_range(px, py);
                    me.lemma_distinct_indices(px, py, x as int, y as int);
                }
            }
            x = x + 1;
        }
        y = y + 1;
    }
    apply_selection_mode(selection, &temp_mask, mode);
    let ghost applied = *selection;
    selection.update_bounds();
    proof {
        assert forall|px: int, py: int|
            selection.in_dims(px, py) implies #[trigger] selection.sel(px, py) == spec_apply_mode(
            mode,
            me.sel(px, py),
            in_spec_ellipse(
                center_x as int,
                center_y as int,
                abs_int(end_x as int - center_x as int),
                abs_int(end_y as int - center_y as int),
                px,
                py,
            ),
        ) by {
            me.lemma_index_in_range(px, py);
            assert(selection.sel(px, py) == applied.sel(px, py));
        }
    }
}

/// Absolute value.
pub open spec fn abs_int(v: int) -> int {
    if v >= 0 {
        v
    } else {
        -v
    }
}

/// The distance [`color_distance`] computes: the mean absolute difference of
/// the RGB channels, alpha ignored (at most 255 by construction).
pub open spec fn spec_color_distance(a: Seq<u8>, b: Seq<u8>) -> int {
    (abs_int(a[0] - b[0]) + abs_int(a[1] - b[1]) + abs_int(a[2] - b[2])) / 3
}

/// Mean absolute per-channel difference of the RGB components of two colors.
pub fn color_distance(c1: [u8; 4], c2: [u8; 4]) -> (r: u8)
    ensures
        r as int == spec_color_distance(c1@, c2@),
{
    let dr: i32 = if c1[0] >= c2[0] {
        c1[0] as i32 - c2[0] as i32
    } else {
        c2[0] as i32 - c1[0] as i32
    };
    let dg: i32 = if c1[1] >= c2[1] {
        c1[1] as i32 - c2[1] as i32
    } else {
        c2[1] as i32 - c1[1] as i32
    };
    let db: i32 = if c1[2] >= c2[2] {
        c1[2] as i32 - c2[2] as i32
    } else {
        c2[2] as i32 - c1[2] as i32
    };
    ((dr + dg + db) / 3) as u8
}

/// Copies the selected pixels within the cached bounding box into a fresh
/// buffer sized to the box, together with the box's top-left corner. Returns
/// `None` exactly when the cached box records no selection. A cell of the new
/// buffer holds the source pixel when that cell is selected and on the source
/// canvas, and stays transparent black otherwise.
pub fn extract_selection(buffer: &PixelBuffer, selection: &Selection) -> (r: Option<
    (PixelBuffer, u32, u32),
>)
    requires
        buffer.wf(),
        selection.wf(),
        selection.width as int * selection.height as int * 4 <= usize::MAX as int,
    ensures
        r is Some <==> selection.bounds is Some,
        r matches Some(t) ==> {
            let b = selection.bounds->Some_0;
            &&& t.1 == b.min_x
            &&& t.2 == b.min_y
            &&& t.0.wf()
            &&& t.0.width as int == b.max_x - b.min_x + 1
            &&& t.0.height as int == b.max_y - b.min_y + 1
            &&& forall|px: int, py: int|
                t.0.in_bounds(px, py) ==> #[trigger] t.0.pixel(px, py) =~= if selection.sel(
                    px + b.min_x,
                    py + b.min_y,
                ) && buffer.in_bounds(px + b.min_x, py + b.min_y) {
                    buffer.pixel(px + b.min_x, py + b.min_y)
                } else {
                    seq![0u8, 0u8, 0u8, 0u8]
                }
        },
{
    let bounds = match selection.bounds {
        Option::Some(b) => b,
        Option::None => {
            return Option::None;
        },
    };
    let width = bounds.max_x - bounds.min_x + 1;
    let height = bounds.max_y - bounds.min_y + 1;
    proof {
        assert(width as int * height as int * 4 <= selection.width as int * selection.height as int
            * 4) by (nonlinear_arith)
            requires
                0 < width <= selection.width,
                0 < height <= selection.height,
        ;
    }
    let mut extracted = PixelBuffer::new(width, height);
    proof {
        assert forall|px: int, py: int| extracted.in_bounds(px, py) implies #[trigger] extracted.pixel(
            px,
            py,
        ) =~= seq![0u8, 0u8, 0u8, 0u8] by {
            extracted.lemma_pixel_index_in_range(px, py);
        }
    }
    let mut dy: u32 = 0;
    while dy < height
        invariant
            buffer.wf(),
            selection.wf(),
            selection.bounds == Option::Some(bounds),
            extracted.wf(),
            extracted.width == width,
            extracted.height == height,
            width as int == bounds.max_x - bounds.min_x + 1,
            height as int == bounds.max_y - bounds.min_y + 1,
            bounds.max_x < selection.width,
            bounds.max_y < selection.height,
            dy <= height,
            forall|px: int, py: int|
                extracted.in_bounds(px, py) ==> #[trigger] extracted.pixel(px, py) =~= if py < dy
                    && selection.sel(px + bounds.min_x, py + bounds.min_y) && buffer.in_bounds(
                    px + bounds.min_x,
                    py + bounds.min_y,
                ) {
                    buffer.pixel(px + bounds.min_x, py + bounds.min_y)
                } else {
                    seq![0u8, 0u8, 0u8, 0u8]
                },
        decreases height - dy,
    {
        let mut dx: u32 = 0;
        while dx < width
            invariant
                buffer.wf(),
                selection.wf(),
                selection.bounds == Option::Some(bounds),
                extracted.wf(),
                extracted.width == width,
                extracted.height == height,
                width as int == bounds.max_x - bounds.min_x + 1,
                height as int == bounds.max_y - bounds.min_y + 1,
                bounds.max_x < selection.width,
                bounds.max_y < selection.height,
                dy < height,
                dx <= width,
                forall|px: int, py: int|
                    extracted.in_bounds(px, py) ==> #[trigger] extracted.pixel(px, py) =~= if (py
                        < dy || (py == dy && px < dx)) && selection.sel(
                        px + bounds.min_x,
                        py + bounds.min_y,
                    ) && buffer.in_bounds(px + bounds.min_x, py + bounds.min_y) {
                        buffer.pixel(px + bounds.min_x, py + bounds.min_y)
                    } else {
                        seq![0u8, 0u8, 0u8, 0u8]
                    },
            decreases width - dx,
        {
            let x = bounds.min_x + dx;
            let y = bounds.min_y + dy;
            if selection.is_selected(x, y) {
                match buffer.get_pixel(x, y) {
                    Option::Some(color) => {
                        let _ = extracted.set_pixel(dx, dy, color);
                    },
                    Option::None => {},
                }
            }
            dx = dx + 1;
        }
        dy = dy + 1;
    }
    Option::Some((extracted, bounds.min_x, bounds.min_y))
}

/// Sets every selected pixel of the buffer to transparent black. Cells
/// outside the buffer are skipped.
pub fn delete_selection(buffer: &mut PixelBuffer, selection: &Selection)
    requires
        old(buffer).wf(),
        selection.wf(),
    ensures
        final(buffer).wf(),
        final(buffer).width == old(buffer).width,
        final(buffer).height == old(buffer).height,
        forall|px: int, py: int|
            old(buffer).in_bounds(px, py) ==> #[trigger] final(buffer).pixel(px, py) =~= if
                selection.sel(px, py) {
                seq![0u8, 0u8, 0u8, 0u8]
            } else {
                old(buffer).pixel(px, py)
            },
{
    let mut y: u32 = 0;
    while y < selection.height
        invariant
            buffer.wf(),
            selection.wf(),
            buffer.width == old(buffer).width,
            buffer.height == old(buffer).height,
            y <= selection.height,
            forall|px: int, py: int|
                buffer.in_bounds(px, py) ==> #[trigger] buffer.pixel(px, py) =~= if selection.sel(
                    px,
                    py,
                ) && py < y {
                    seq![0u8, 0u8, 0u8, 0u8]
                } else {
                    old(buffer).pixel(px, py)
                },
        decreases selection.height - y,
    {
        let mut x: u32 = 0;
        while x < selection.width
            invariant
                buffer.wf(),
                selection.wf(),
                buffer.width == old(buffer).width,
                buffer.height == old(buffer).height,
                y < selection.height,
                x <= selection.width,
                forall|px: int, py: int|
                    buffer.in_bounds(px, py) ==> #[trigger] buffer.pixel(px, py) =~= if
                        selection.sel(px, py) && (py < y || (py == y && px < x)) {
                        seq![0u8, 0u8, 0u8, 0u8]
                    } else {
                        old(buffer).pixel(px, py)
                    },
            decreases selection.width - x,
        {
            if selection.is_selected(x, y) {
                let _ = buffer.set_pixel(x, y, [0, 0, 0, 0]);
            }
            x = x + 1;
        }
        y = y + 1;
    }
}

/// Composites `source` onto `dest` with its top-left corner at
/// (offset_x, offset_y). Source pixels with zero alpha are skipped; every
/// other source pixel overwrites the destination without blending. Pixels
/// falling outside the destination are dropped.
pub fn paste_buffer(dest: &mut PixelBuffer, source: &PixelBuffer, offset_x: u32, offset_y: u32) -> (r:
    Result<(), String>)
    requires
        old(dest).wf(),
        source.wf(),
        offset_x as int + source.width as int <= u32::MAX as int,
        offset_y as int + source.height as int <= u32::MAX as int,
    ensures
        final(dest).wf(),
        final(dest).width == old(dest).width,
        final(dest).height == old(dest).height,
        r is Ok,
        forall|px: int, py: int|
            old(dest).in_bounds(px, py) ==> #[trigger] final(dest).pixel(px, py) =~= if
                source.in_bounds(px - offset_x, py - offset_y) && source.pixel(
                px - offset_x,
                py - offset_y,
            )[3] > 0 {
                source.pixel(px - offset_x, py - offset_y)
            } else {
                old(dest).pixel(px, py)
            },
{
    let mut y: u32 = 0;
    while y < source.height
        invariant
            dest.wf(),
            source.wf(),
            dest.width == old(dest).width,
            dest.height == old(dest).height,
            offset_x as int + source.width as int <= u32::MAX as int,
            offset_y as int + source.height as int <= u32::MAX as int,
            y <= source.height,
            forall|px: int, py: int|
                dest.in_bounds(px, py) ==> #[trigger] dest.pixel(px, py) =~= if source.in_bounds(
                    px - offset_x,
                    py - offset_y,
                ) && source.pixel(px - offset_x, py - offset_y)[3] > 0 && py - offset_y < y {
                    source.pixel(px - offset_x, py - offset_y)
                } else {
                    old(dest).pixel(px, py)
                },
        decreases source.height - y,
    {
        let mut x: u32 = 0;
        while x < source.width
            invariant
                dest.wf(),
                source.wf(),
                dest.width == old(dest).width,
                dest.height == old(dest).height,
                offset_x as int + source.width as int <= u32::MAX as int,
                offset_y as int + source.height as int <= u32::MAX as int,
                y < source.height,
                x <= source.width,
                forall|px: int, py: int|
                    dest.in_bounds(px, py) ==> #[trigger] dest.pixel(px, py) =~= if
                        source.in_bounds(px - offset_x, py - offset_y) && source.pixel(
                        px - offset_x,
                        py - offset_y,
                    )[3] > 0 && (py - offset_y < y || (py - offset_y == y && px - offset_x < x)) {
                        source.pixel(px - offset_x, py - offset_y)
                    } else {
                        old(dest).pixel(px, py)
                    },
            decreases source.width - x,
        {
            match source.get_pixel(x, y) {
                Option::Some(color) => {
                    if color[3] > 0 {
                        let dest_x = offset_x + x;
                        let dest_y = offset_y + y;
                        if dest_x < dest.width && dest_y < dest.height {
                            let _ = dest.set_pixel(dest_x, dest_y, color);
                        }
                    }
                },
                Option::None => {},
            }
            x = x + 1;
        }
        y = y + 1;
    }
    Ok(())
}

/// `path` walks from the seed (sx, sy) to (px, py) through 4-connected
/// cells, every cell after the seed lying on the buffer and on the selection
/// mask and holding a color within `tolerance` of the seed color.
#[verifier::opaque]
pub open spec fn valid_wand_path(
    b: PixelBuffer,
    sel: Selection,
    sx: int,
    sy: int,
    tolerance: u8,
    path: Seq<(int, int)>,
    px: int,
    py: int,
) -> bool {
    &&& path.len() >= 1
    &&& path[0] == (sx, sy)
    &&& path.last() == (px, py)
    &&& forall|i: int|
        1 <= i < path.len() ==> crate::tools::adjacent4(
            path[i - 1].0,
            path[i - 1].1,
            (#[trigger] path[i]).0,
            path[i].1,
        )
    &&& forall|i: int|
        1 <= i < path.len() ==> b.in_bounds((#[trigger] path[i]).0, path[i].1) && sel.in_dims(
            path[i].0,
            path[i].1,
        ) && spec_color_distance(b.pixel(path[i].0, path[i].1), b.pixel(sx, sy))
            <= tolerance as int
}

/// (px, py) lies in the seed's 4-connected region of cells within `tolerance`
/// of the seed color.
pub open spec fn wand_reachable(
    b: PixelBuffer,
    sel: Selection,
    sx: int,
    sy: int,
    tolerance: u8,
    px: int,
    py: int,
) -> bool {
    exists|path: Seq<(int, int)>| valid_wand_path(b, sel, sx, sy, tolerance, path, px, py)
}

/// A queued coordinate is either the seed itself or the neighbor of some cell
/// already known reachable.
pub open spec fn wand_queue_entry_ok(
    b: PixelBuffer,
    sel: Selection,
    x: u32,
    y: u32,
    tolerance: u8,
    e: (u32, u32),
) -> bool {
    e == (x, y) || exists|qx: int, qy: int|
        crate::tools::adjacent4(qx, qy, e.0 as int, e.1 as int) && #[trigger] wand_reachable(
            b,
            sel,
            x as int,
            y as int,
            tolerance,
            qx,
            qy,
        )
}

/// The cell is selected by the grown mask.
pub open spec fn temp_cell(sel: Selection, temp: Seq<bool>, px: int, py: int) -> bool {
    sel.in_dims(px, py) && temp[sel.index(px, py)]
}

/// Every tolerable on-canvas, on-mask neighbor of a grown cell is grown
/// itself or still waiting in the queue. With an empty queue this says the
/// grown mask is closed under 4-adjacency, which forces every reachable cell
/// to be grown.
pub open spec fn wand_frontier_ok(
    b: PixelBuffer,
    sel: Selection,
    temp: Seq<bool>,
    sx: int,
    sy: int,
    tolerance: u8,
    q: Seq<(u32, u32)>,
) -> bool {
    forall|ax: int, ay: int, bx: int, by: int|
        temp_cell(sel, temp, ax, ay) && #[trigger] crate::tools::adjacent4(ax, ay, bx, by)
            && sel.in_dims(bx, by) && b.in_bounds(bx, by) && spec_color_distance(
            b.pixel(bx, by),
            b.pixel(sx, sy),
        ) <= tolerance as int ==> temp_cell(sel, temp, bx, by) || crate::tools::queued(q, bx, by)
}

/// Popping a handled coordinate keeps the frontier property: the popped cell
/// is off the mask, already grown, off the canvas, or out of tolerance.
proof fn lemma_wand_frontier_pop(
    b: PixelBuffer,
    sel: Selection,
    temp: Seq<bool>,
    sx: int,
    sy: int,
    tolerance: u8,
    q0: Seq<(u32, u32)>,
    q1: Seq<(u32, u32)>,
)
    requires
        q0.len() > 0,
        q1 == q0.subrange(1, q0.len() as int),
        wand_frontier_ok(b, sel, temp, sx, sy, tolerance, q0),
        !sel.in_dims(q0[0].0 as int, q0[0].1 as int) || temp_cell(
            sel,
            temp,
            q0[0].0 as int,
            q0[0].1 as int,
        ) || !b.in_bounds(q0[0].0 as int, q0[0].1 as int) || spec_color_distance(
            b.pixel(q0[0].0 as int, q0[0].1 as int),
            b.pixel(sx, sy),
        ) > tolerance as int,
    ensures
        wand_frontier_ok(b, sel, temp, sx, sy, tolerance, q1),
{
    assert forall|ax: int, ay: int, bx: int, by: int|
        temp_cell(sel, temp, ax, ay) && #[trigger] crate::tools::adjacent4(ax, ay, bx, by)
            && sel.in_dims(bx, by) && b.in_bounds(bx, by) && spec_color_distance(
            b.pixel(bx, by),
            b.pixel(sx, sy),
        ) <= tolerance as int implies temp_cell(sel, temp, bx, by) || crate::tools::queued(
        q1,
        bx,
        by,
    ) by {
        if !temp_cell(sel, temp, bx, by) {
            assert(crate::tools::queued(q0, bx, by));
            let i = choose|i: int| 0 <= i < q0.len() && (#[trigger] q0[i]).0 == bx && q0[i].1 == by;
            if i == 0 {
                assert(false);
            } else {
                assert(q1[i - 1] == q0[i]);
            }
        }
    }
}

/// Growing one popped cell and queuing its on-mask neighbors keeps the
/// frontier property.
proof fn lemma_wand_frontier_fill(
    b: PixelBuffer,
    sel: Selection,
    temp0: Seq<bool>,
    temp1: Seq<bool>,
    sx: int,
    sy: int,
    tolerance: u8,
    q0: Seq<(u32, u32)>,
    q1: Seq<(u32, u32)>,
    px: u32,
    py: u32,
)
    requires
        sel.wf(),
        temp0.len() == sel.mask@.len(),
        temp1.len() == temp0.len(),
        wand_frontier_ok(b, sel, temp0, sx, sy, tolerance, q0),
        q0.len() > 0,
        q0[0] == (px, py),
        sel.in_dims(px as int, py as int),
        temp1[sel.index(px as int, py as int)],
        forall|qx: int, qy: int|
            sel.in_dims(qx, qy) && !(qx == px as int && qy == py as int) ==> #[trigger] temp1[sel.index(
                qx,
                qy,
            )] == temp0[sel.index(qx, qy)],
        sel.in_dims(px as int - 1, py as int) ==> crate::tools::queued(
            q1,
            px as int - 1,
            py as int,
        ),
        sel.in_dims(px as int + 1, py as int) ==> crate::tools::queued(
            q1,
            px as int + 1,
            py as int,
        ),
        sel.in_dims(px as int, py as int - 1) ==> crate::tools::queued(
            q1,
            px as int,
            py as int - 1,
        ),
        sel.in_dims(px as int, py as int + 1) ==> crate::tools::queued(
            q1,
            px as int,
            py as int + 1,
        ),
        q0.len() - 1 <= q1.len(),
        forall|i: int| 0 <= i < q0.len() - 1 ==> #[trigger] q1[i] == q0[i + 1],
    ensures
        wand_frontier_ok(b, sel, temp1, sx, sy, tolerance, q1),
{
    assert forall|ax: int, ay: int, bx: int, by: int|
        temp_cell(sel, temp1, ax, ay) && #[trigger] crate::tools::adjacent4(ax, ay, bx, by)
            && sel.in_dims(bx, by) && b.in_bounds(bx, by) && spec_color_distance(
            b.pixel(bx, by),
            b.pixel(sx, sy),
        ) <= tolerance as int implies temp_cell(sel, temp1, bx, by) || crate::tools::queued(
        q1,
        bx,
        by,
    ) by {
        if !temp_cell(sel, temp1, bx, by) {
            if ax == px as int && ay == py as int {
                assert(crate::tools::queued(q1, bx, by));
            } else {
                assert(temp_cell(sel, temp0, ax, ay));
                if temp_cell(sel, temp0, bx, by) {
                    assert(!(bx == px as int && by == py as int));
                    assert(temp_cell(sel, temp1, bx, by));
                } else {
                    assert(crate::tools::queued(q0, bx, by));
                    let i = choose|i: int|
                        0 <= i < q0.len() && (#[trigger] q0[i]).0 == bx && q0[i].1 == by;
                    if i == 0 {
                        assert(bx == px as int && by == py as int);
                        assert(temp_cell(sel, temp1, bx, by));
                    } else {
                        assert(q1[i - 1] == q0[i]);
                    }
                }
            }
        }
    }
}

/// With the grown mask closed under 4-adjacency (an empty frontier), every
/// cell reachable from a grown seed through tolerable on-mask cells is grown:
/// induction along the path.
proof fn lemma_wand_closure(
    b: PixelBuffer,
    sel: Selection,
    temp: Seq<bool>,
    sx: int,
    sy: int,
    tolerance: u8,
    path: Seq<(int, int)>,
    px: int,
    py: int,
)
    requires
        valid_wand_path(b, sel, sx, sy, tolerance, path, px, py),
        temp_cell(sel, temp, sx, sy),
        wand_frontier_ok(b, sel, temp, sx, sy, tolerance, Seq::<(u32, u32)>::empty()),
    ensures
        temp_cell(sel, temp, px, py),
    decreases path.len(),
{
    reveal(valid_wand_path);
    if path.len() == 1 {
        assert(path[0] == (sx, sy) && path.last() == (px, py));
    } else {
        let prefix = path.drop_last();
        let prev = path[path.len() - 2];
        assert(prefix.last() == prev);
        assert forall|i: int|
            1 <= i < prefix.len() implies crate::tools::adjacent4(
            prefix[i - 1].0,
            prefix[i - 1].1,
            (#[trigger] prefix[i]).0,
            prefix[i].1,
        ) by {
            assert(prefix[i - 1] == path[i - 1] && prefix[i] == path[i]);
        }
        assert forall|i: int|
            1 <= i < prefix.len() implies b.in_bounds((#[trigger] prefix[i]).0, prefix[i].1)
            && sel.in_dims(prefix[i].0, prefix[i].1) && spec_color_distance(
            b.pixel(prefix[i].0, prefix[i].1),
            b.pixel(sx, sy),
        ) <= tolerance as int by {
            assert(prefix[i] == path[i]);
        }
        assert(valid_wand_path(b, sel, sx, sy, tolerance, prefix, prev.0, prev.1));
        lemma_wand_closure(b, sel, temp, sx, sy, tolerance, prefix, prev.0, prev.1);
        let last = path.len() - 1;
        assert(crate::tools::adjacent4(
            path[last - 1].0,
            path[last - 1].1,
            path[last].0,
            path[last].1,
        ));
        assert(!crate::tools::queued(Seq::<(u32, u32)>::empty(), px, py));
    }
}

/// The grown mask `temp` explains the step from `before` to `after`: the new
/// mask is the old one combined with `temp` under `mode`, and `temp` selects
/// exactly the seed's 4-connected region of cells within `tolerance` of the
/// seed color — every selected cell lies in that region, and, when the seed
/// is on the mask, every cell of the region is selected, the seed among them.
pub open spec fn wand_mask_applied(
    mode: SelectionMode,
    before: Selection,
    after: Selection,
    buffer: PixelBuffer,
    x: u32,
    y: u32,
    tolerance: u8,
    temp: Seq<bool>,
) -> bool {
    &&& temp.len() == before.mask@.len()
    &&& (forall|i: int|
        0 <= i < temp.len() ==> #[trigger] after.mask@[i] == spec_apply_mode(
            mode,
            before.mask@[i],
            temp[i],
        ))
    &&& (forall|px: int, py: int|
        before.in_dims(px, py) && #[trigger] temp[before.index(px, py)] ==> buffer.in_bounds(
            px,
            py,
        ) && spec_color_distance(buffer.pixel(px, py), buffer.pixel(x as int, y as int))
            <= tolerance as int && wand_reachable(
            buffer,
            before,
            x as int,
            y as int,
            tolerance,
            px,
            py,
        ))
    &&& (before.in_dims(x as int, y as int) ==> temp[before.index(x as int, y as int)])
    &&& (before.in_dims(x as int, y as int) ==> forall|px: int, py: int|
        before.in_dims(px, py) && #[trigger] wand_reachable(
            buffer,
            before,
            x as int,
            y as int,
            tolerance,
            px,
            py,
        ) ==> temp[before.index(px, py)])
}

/// One more step from a reachable neighbor stays reachable.
proof fn lemma_wand_extend(
    b: PixelBuffer,
    sel: Selection,
    sx: int,
    sy: int,
    tolerance: u8,
    qx: int,
    qy: int,
    px: int,
    py: int,
)
    requires
        wand_reachable(b, sel, sx, sy, tolerance, qx, qy),
        crate::tools::adjacent4(qx, qy, px, py),
        b.in_bounds(px, py),
        sel.in_dims(px, py),
        spec_color_distance(b.pixel(px, py), b.pixel(sx, sy)) <= tolerance as int,
    ensures
        wand_reachable(b, sel, sx, sy, tolerance, px, py),
{
    reveal(valid_wand_path);
    let path = choose|path: Seq<(int, int)>|
        valid_wand_path(b, sel, sx, sy, tolerance, path, qx, qy);
    let path2 = path.push((px, py));
    assert(path2.last() == (px, py));
    assert forall|i: int|
        1 <= i < path2.len() implies crate::tools::adjacent4(
        path2[i - 1].0,
        path2[i - 1].1,
        (#[trigger] path2[i]).0,
        path2[i].1,
    ) by {
        if i < path.len() {
            assert(path2[i - 1] == path[i - 1] && path2[i] == path[i]);
        } else {
            assert(path2[i - 1] == path.last());
        }
    }
    assert forall|i: int|
        1 <= i < path2.len() implies b.in_bounds((#[trigger] path2[i]).0, path2[i].1)
        && sel.in_dims(path2[i].0, path2[i].1) && spec_color_distance(
        b.pixel(path2[i].0, path2[i].1),
        b.pixel(sx, sy),
    ) <= tolerance as int by {
        if i < path.len() {
            assert(path2[i] == path[i]);
        }
    }
    assert(valid_wand_path(b, sel, sx, sy, tolerance, path2, px, py));
}

/// The seed is reachable from itself.
proof fn lemma_wand_seed_reachable(b: PixelBuffer, sel: Selection, sx: int, sy: int, tolerance: u8)
    ensures
        wand_reachable(b, sel, sx, sy, tolerance, sx, sy),
{
    reveal(valid_wand_path);
    let unit = seq![(sx, sy)];
    assert(valid_wand_path(b, sel, sx, sy, tolerance, unit, sx, sy));
}

/// Growing the mask by one reachable, tolerable cell keeps the mask sound.
proof fn lemma_wand_temp_sound_grow(
    b: PixelBuffer,
    sel: Selection,
    tm0: Seq<bool>,
    tm1: Seq<bool>,
    sx: int,
    sy: int,
    tolerance: u8,
    px: int,
    py: int,
)
    requires
        sel.wf(),
        tm0.len() == sel.mask@.len(),
        tm1.len() == tm0.len(),
        sel.in_dims(px, py),
        forall|qx: int, qy: int|
            sel.in_dims(qx, qy) && #[trigger] tm0[sel.index(qx, qy)] ==> b.in_bounds(qx, qy)
                && spec_color_distance(b.pixel(qx, qy), b.pixel(sx, sy)) <= tolerance as int
                && wand_reachable(b, sel, sx, sy, tolerance, qx, qy),
        forall|qx: int, qy: int|
            sel.in_dims(qx, qy) && !(qx == px && qy == py) ==> #[trigger] tm1[sel.index(qx, qy)]
                == tm0[sel.index(qx, qy)],
        b.in_bounds(px, py),
        spec_color_distance(b.pixel(px, py), b.pixel(sx, sy)) <= tolerance as int,
        wand_reachable(b, sel, sx, sy, tolerance, px, py),
    ensures
        forall|qx: int, qy: int|
            sel.in_dims(qx, qy) && #[trigger] tm1[sel.index(qx, qy)] ==> b.in_bounds(qx, qy)
                && spec_color_distance(b.pixel(qx, qy), b.pixel(sx, sy)) <= tolerance as int
                && wand_reachable(b, sel, sx, sy, tolerance, qx, qy),
{
    assert forall|qx: int, qy: int|
        sel.in_dims(qx, qy) && #[trigger] tm1[sel.index(qx, qy)] implies b.in_bounds(qx, qy)
        && spec_color_distance(b.pixel(qx, qy), b.pixel(sx, sy)) <= tolerance as int
        && wand_reachable(b, sel, sx, sy, tolerance, qx, qy) by {
        sel.lemma_index_in_range(qx, qy);
        if !(qx == px && qy == py) {
            assert(tm0[sel.index(qx, qy)]);
        }
    }
}

/// Marking one handled cell visited keeps every visited, tolerable, on-canvas
/// cell grown: the handled cell is either grown now or not tolerable at all.
proof fn lemma_wand_visited_sound(
    b: PixelBuffer,
    sel: Selection,
    t: Seq<u8>,
    tolerance: u8,
    vis0: Seq<bool>,
    vis1: Seq<bool>,
    tm0: Seq<bool>,
    tm1: Seq<bool>,
    px: int,
    py: int,
)
    requires
        sel.wf(),
        vis0.len() == sel.mask@.len(),
        vis1.len() == vis0.len(),
        tm0.len() == vis0.len(),
        tm1.len() == tm0.len(),
        sel.in_dims(px, py),
        forall|qx: int, qy: int|
            sel.in_dims(qx, qy) && #[trigger] vis0[sel.index(qx, qy)] && b.in_bounds(qx, qy)
                && spec_color_distance(b.pixel(qx, qy), t) <= tolerance as int ==> tm0[sel.index(
                qx,
                qy,
            )],
        forall|qx: int, qy: int|
            sel.in_dims(qx, qy) && !(qx == px && qy == py) ==> #[trigger] vis1[sel.index(qx, qy)]
                == vis0[sel.index(qx, qy)],
        forall|qx: int, qy: int|
            sel.in_dims(qx, qy) && !(qx == px && qy == py) ==> #[trigger] tm1[sel.index(qx, qy)]
                == tm0[sel.index(qx, qy)],
        forall|qx: int, qy: int|
            sel.in_dims(qx, qy) && #[trigger] tm0[sel.index(qx, qy)] ==> tm1[sel.index(qx, qy)],
        tm1[sel.index(px, py)] || !(b.in_bounds(px, py) && spec_color_distance(b.pixel(px, py), t)
            <= tolerance as int),
    ensures
        forall|qx: int, qy: int|
            sel.in_dims(qx, qy) && #[trigger] vis1[sel.index(qx, qy)] && b.in_bounds(qx, qy)
                && spec_color_distance(b.pixel(qx, qy), t) <= tolerance as int ==> tm1[sel.index(
                qx,
                qy,
            )],
{
    assert forall|qx: int, qy: int|
        sel.in_dims(qx, qy) && #[trigger] vis1[sel.index(qx, qy)] && b.in_bounds(qx, qy)
            && spec_color_distance(b.pixel(qx, qy), t) <= tolerance as int implies tm1[sel.index(
        qx,
        qy,
    )] by {
        sel.lemma_index_in_range(qx, qy);
        if !(qx == px && qy == py) {
            assert(vis0[sel.index(qx, qy)]);
            assert(tm0[sel.index(qx, qy)]);
        }
    }
}

/// A single-cell update leaves every other cell of a mask-sized vector
/// unchanged.
proof fn lemma_visited_update_facts(
    sel: Selection,
    vis0: Seq<bool>,
    vis1: Seq<bool>,
    px: u32,
    py: u32,
)
    requires
        sel.wf(),
        sel.in_dims(px as int, py as int),
        vis0.len() == sel.mask@.len(),
        vis1 == vis0.update(sel.index(px as int, py as int), true),
    ensures
        forall|qx: int, qy: int|
            sel.in_dims(qx, qy) && !(qx == px as int && qy == py as int)
                ==> #[trigger] vis1[sel.index(qx, qy)] == vis0[sel.index(qx, qy)],
{
    sel.lemma_index_in_range(px as int, py as int);
    assert forall|qx: int, qy: int|
        sel.in_dims(qx, qy) && !(qx == px as int && qy == py as int)
            implies #[trigger] vis1[sel.index(qx, qy)] == vis0[sel.index(qx, qy)] by {
        sel.lemma_index_in_range(qx, qy);
        sel.lemma_distinct_indices(qx, qy, px as int, py as int);
    }
}

/// How many of the first `n` cells are still false. The magic wand
/// terminates because every marking lowers this count.
pub open spec fn count_false(v: Seq<bool>, n: int) -> int
    decreases n,
{
    if n <= 0 {
        0
    } else {
        count_false(v, n - 1) + if !v[n - 1] {
            1int
        } else {
            0int
        }
    }
}

/// The count of false cells never goes negative.
proof fn lemma_count_false_nonneg(v: Seq<bool>, n: int)
    ensures
        0 <= count_false(v, n),
    decreases n,
{
    if n > 0 {
        lemma_count_false_nonneg(v, n - 1);
    }
}

/// Setting one false cell to true drops the count of false cells among the
/// first `n` by one if that cell is among them.
proof fn lemma_count_false_set(v1: Seq<bool>, v2: Seq<bool>, k: int, n: int)
    requires
        v1.len() == v2.len(),
        0 <= k < v1.len(),
        !v1[k],
        v2[k],
        forall|j: int| 0 <= j < v1.len() && j != k ==> v2[j] == v1[j],
        n <= v1.len(),
    ensures
        count_false(v2, n) == count_false(v1, n) - if k < n {
            1int
        } else {
            0int
        },
    decreases n,
{
    if n > 0 {
        lemma_count_false_set(v1, v2, k, n - 1);
    }
}

/// Grows a selection from the seed pixel (x, y) by breadth-first, 4-connected
/// traversal, admitting neighbors whose color distance from the seed color is
/// at most `tolerance`, then combines the grown mask into the selection under
/// `mode` and recomputes the box. Fails exactly when the seed lies outside
/// the buffer, changing nothing. On success the new mask is the old one
/// combined cell by cell with a grown mask that selects only cells within
/// tolerance of the seed color, the seed cell among them.
#[verifier::rlimit(100)]
pub fn select_magic_wand(
    buffer: &PixelBuffer,
    selection: &mut Selection,
    x: u32,
    y: u32,
    tolerance: u8,
    mode: SelectionMode,
) -> (r: Result<(), String>)
    requires
        buffer.wf(),
        old(selection).wf(),
    ensures
        final(selection).wf(),
        final(selection).width == old(selection).width,
        final(selection).height == old(selection).height,
        r is Ok <==> buffer.in_bounds(x as int, y as int),
        r is Err ==> *final(selection) == *old(selection),
        r is Ok ==> final(selection).bounds_exact(),
        r is Ok ==> exists|temp: Seq<bool>|
            #[trigger] wand_mask_applied(
                mode,
                *old(selection),
                *final(selection),
                *buffer,
                x,
                y,
                tolerance,
                temp,
            ),
{
    let target_color = match buffer.get_pixel(x, y) {
        Option::Some(c) => c,
        Option::None => {
            return Err("Invalid starting position".to_owned());
        },
    };
    let len = selection.mask.len();
    let mut temp_mask: Vec<bool> = filled_bool(len, false);
    let mut visited: Vec<bool> = filled_bool(len, false);
    let mut queue: VecDeque<(u32, u32)> = VecDeque::new();
    queue.push_back((x, y));
    proof {
        assert(queue@[0] == (x, y));
    }
    let width = selection.width;
    let height = selection.height;
    let ghost me = *old(selection);
    let ghost total = me.mask@.len() as int;
    proof {
        assert forall|px: int, py: int| me.in_dims(px, py) implies !(#[trigger] temp_mask@[me.index(
            px,
            py,
        )]) by {
            me.lemma_index_in_range(px, py);
        }
        if me.in_dims(x as int, y as int) {
            me.lemma_index_in_range(x as int, y as int);
        }
        assert forall|px: int, py: int| me.in_dims(px, py) implies !(#[trigger] visited@[me.index(
            px,
            py,
        )]) by {
            me.lemma_index_in_range(px, py);
        }
        assert forall|ax: int, ay: int, bx: int, by: int|
            temp_cell(me, temp_mask@, ax, ay) && #[trigger] crate::tools::adjacent4(
                ax,
                ay,
                bx,
                by,
            ) && me.in_dims(bx, by) && buffer.in_bounds(bx, by) && spec_color_distance(
                buffer.pixel(bx, by),
                buffer.pixel(x as int, y as int),
            ) <= tolerance as int implies temp_cell(me, temp_mask@, bx, by)
            || crate::tools::queued(queue@, bx, by) by {
            me.lemma_index_in_range(ax, ay);
        }
    }
    #[verifier::spinoff_prover]
    loop
        invariant
            buffer.wf(),
            me.wf(),
            *selection == me,
            width == me.width,
            height == me.height,
            total == me.mask@.len(),
            temp_mask@.len() == total,
            visited@.len() == total,
            buffer.in_bounds(x as int, y as int),
            buffer.pixel(x as int, y as int) =~= target_color@,
            forall|px: int, py: int|
                me.in_dims(px, py) && #[trigger] temp_mask@[me.index(px, py)]
                    ==> buffer.in_bounds(px, py) && spec_color_distance(
                    buffer.pixel(px, py),
                    target_color@,
                ) <= tolerance as int && wand_reachable(
                    *buffer,
                    me,
                    x as int,
                    y as int,
                    tolerance,
                    px,
                    py,
                ),
            me.in_dims(x as int, y as int) ==> temp_mask@[me.index(x as int, y as int)] || (
            !visited@[me.index(x as int, y as int)] && exists|i: int|
                0 <= i < queue@.len() && queue@[i] == (x, y)),
            forall|px: int, py: int|
                me.in_dims(px, py) && #[trigger] visited@[me.index(px, py)] && buffer.in_bounds(
                    px,
                    py,
                ) && spec_color_distance(buffer.pixel(px, py), target_color@) <= tolerance as int
                    ==> temp_mask@[me.index(px, py)],
            wand_frontier_ok(*buffer, me, temp_mask@, x as int, y as int, tolerance, queue@),
            forall|i: int|
                0 <= i < queue@.len() ==> wand_queue_entry_ok(
                    *buffer,
                    me,
                    x,
                    y,
                    tolerance,
                    #[trigger] queue@[i],
                ),
        ensures
            *selection == me,
            temp_mask@.len() == total,
            forall|px: int, py: int|
                me.in_dims(px, py) && #[trigger] temp_mask@[me.index(px, py)]
                    ==> buffer.in_bounds(px, py) && spec_color_distance(
                    buffer.pixel(px, py),
                    target_color@,
                ) <= tolerance as int && wand_reachable(
                    *buffer,
                    me,
                    x as int,
                    y as int,
                    tolerance,
                    px,
                    py,
                ),
            me.in_dims(x as int, y as int) ==> temp_mask@[me.index(x as int, y as int)],
            wand_frontier_ok(*buffer, me, temp_mask@, x as int, y as int, tolerance, queue@),
            queue@.len() == 0,
        decreases 5 * count_false(visited@, total) + queue@.len(),
    {
        proof {
            lemma_count_false_nonneg(visited@, total);
        }
        if queue.len() == 0 {
            break ;
        }
        let ghost q0 = queue@;
        let p = queue.pop_front().unwrap();
        let px = p.0;
        let py = p.1;
        if px >= width || py >= height {
            proof {
                if me.in_dims(x as int, y as int) && !temp_mask@[me.index(x as int, y as int)] {
                    let i = choose|i: int| 0 <= i < q0.len() && q0[i] == (x, y);
                    assert(i >= 1);
                    assert(queue@[i - 1] == (x, y));
                }
                assert forall|i: int| 0 <= i < queue@.len() implies wand_queue_entry_ok(
                    *buffer,
                    me,
                    x,
                    y,
                    tolerance,
                    #[trigger] queue@[i],
                ) by {
                    assert(queue@[i] == q0[i + 1]);
                }
                assert(!me.in_dims(q0[0].0 as int, q0[0].1 as int));
                lemma_wand_frontier_pop(
                    *buffer,
                    me,
                    temp_mask@,
                    x as int,
                    y as int,
                    tolerance,
                    q0,
                    queue@,
                );
            }
            continue ;
        }
        proof {
            me.lemma_index_in_range(px as int, py as int);
        }
        let n: usize = visited.len();
        let index: usize = py as usize * width as usize + px as usize;
        if visited[index] {
            proof {
                if me.in_dims(x as int, y as int) && !temp_mask@[me.index(x as int, y as int)] {
                    let i = choose|i: int| 0 <= i < q0.len() && q0[i] == (x, y);
                    if i == 0 {
                        assert((px, py) == (x, y));
                        assert(false);
                    }
                    assert(queue@[i - 1] == (x, y));
                }
                assert forall|i: int| 0 <= i < queue@.len() implies wand_queue_entry_ok(
                    *buffer,
                    me,
                    x,
                    y,
                    tolerance,
                    #[trigger] queue@[i],
                ) by {
                    assert(queue@[i] == q0[i + 1]);
                }
                if buffer.in_bounds(px as int, py as int) && spec_color_distance(
                    buffer.pixel(px as int, py as int),
                    target_color@,
                ) <= tolerance as int {
                    assert(temp_cell(me, temp_mask@, px as int, py as int));
                }
                lemma_wand_frontier_pop(
                    *buffer,
                    me,
                    temp_mask@,
                    x as int,
                    y as int,
                    tolerance,
                    q0,
                    queue@,
                );
            }
            continue ;
        }
        let ghost vis0 = visited@;
        visited.set(index, true);
        proof {
            lemma_count_false_set(vis0, visited@, index as int, total);
        }
        match buffer.get_pixel(px, py) {
            Option::Some(current_color) => {
                if color_distance(current_color, target_color) <= tolerance {
                    proof {
                        assert(buffer.pixel(px as int, py as int) =~= current_color@);
                        if (px, py) == (x, y) {
                            lemma_wand_seed_reachable(
                                *buffer,
                                me,
                                x as int,
                                y as int,
                                tolerance,
                            );
                        } else {
                            assert(q0[0] == (px, py));
                            assert(wand_queue_entry_ok(*buffer, me, x, y, tolerance, (px, py)));
                            let (qx, qy) = choose|qx: int, qy: int|
                                crate::tools::adjacent4(qx, qy, px as int, py as int)
                                    && #[trigger] wand_reachable(
                                    *buffer,
                                    me,
                                    x as int,
                                    y as int,
                                    tolerance,
                                    qx,
                                    qy,
                                );
                            lemma_wand_extend(
                                *buffer,
                                me,
                                x as int,
                                y as int,
                                tolerance,
                                qx,
                                qy,
                                px as int,
                                py as int,
                            );
                        }
                    }
                    let ghost tm0 = temp_mask@;
                    temp_mask.set(index, true);
                    proof {
                        assert forall|qx: int, qy: int|
                            me.in_dims(qx, qy) && !(qx == px as int && qy == py as int)
                                implies #[trigger] temp_mask@[me.index(qx, qy)] == tm0[me.index(
                            qx,
                            qy,
                        )] by {
                            me.lemma_index_in_range(qx, qy);
                            me.lemma_distinct_indices(qx, qy, px as int, py as int);
                        }
                        lemma_wand_temp_sound_grow(
                            *buffer,
                            me,
                            tm0,
                            temp_mask@,
                            x as int,
                            y as int,
                            tolerance,
                            px as int,
                            py as int,
                        );
                        assert forall|qx: int, qy: int|
                            me.in_dims(qx, qy) && #[trigger] tm0[me.index(qx, qy)]
                                implies temp_mask@[me.index(qx, qy)] by {
                            me.lemma_index_in_range(qx, qy);
                            if !(qx == px as int && qy == py as int) {
                                me.lemma_distinct_indices(qx, qy, px as int, py as int);
                            }
                        }
                        lemma_visited_update_facts(me, vis0, visited@, px, py);
                        lemma_wand_visited_sound(
                            *buffer,
                            me,
                            target_color@,
                            tolerance,
                            vis0,
                            visited@,
                            tm0,
                            temp_mask@,
                            px as int,
                            py as int,
                        );
                    }
                    let ghost q_mid = queue@;
                    if px > 0 {
                        let ghost qb = queue@;
                        queue.push_back((px - 1, py));
                        proof {
                            crate::tools::lemma_queued_push(qb, ((px - 1) as u32, py));
                        }
                    }
                    if px < width - 1 {
                        let ghost qb = queue@;
                        queue.push_back((px + 1, py));
                        proof {
                            crate::tools::lemma_queued_push(qb, ((px + 1) as u32, py));
                        }
                    }
                    if py > 0 {
                        let ghost qb = queue@;
                        queue.push_back((px, py - 1));
                        proof {
                            crate::tools::lemma_queued_push(qb, (px, (py - 1) as u32));
                        }
                    }
                    if py < height - 1 {
                        let ghost qb = queue@;
                        queue.push_back((px, py + 1));
                        proof {
                            crate::tools::lemma_queued_push(qb, (px, (py + 1) as u32));
                        }
                    }
                    proof {
                        assert forall|i: int|
                            0 <= i < q0.len() - 1 implies #[trigger] queue@[i] == q0[i + 1] by {
                            assert(q_mid[i] == q0[i + 1]);
                        }
                        lemma_wand_frontier_fill(
                            *buffer,
                            me,
                            tm0,
                            temp_mask@,
                            x as int,
                            y as int,
                            tolerance,
                            q0,
                            queue@,
                            px,
                            py,
                        );
                    }
                } else {
                    proof {
                        assert(buffer.pixel(px as int, py as int) =~= current_color@);
                        assert(spec_color_distance(
                            buffer.pixel(px as int, py as int),
                            target_color@,
                        ) > tolerance as int);
                        lemma_visited_update_facts(me, vis0, visited@, px, py);
                        lemma_wand_visited_sound(
                            *buffer,
                            me,
                            target_color@,
                            tolerance,
                            vis0,
                            visited@,
                            temp_mask@,
                            temp_mask@,
                            px as int,
                            py as int,
                        );
                        lemma_wand_frontier_pop(
                            *buffer,
                            me,
                            temp_mask@,
                            x as int,
                            y as int,
                            tolerance,
                            q0,
                            queue@,
                        );
                    }
                }
            },
            Option::None => {
                proof {
                    assert(!buffer.in_bounds(px as int, py as int));
                    lemma_visited_update_facts(me, vis0, visited@, px, py);
                    lemma_wand_visited_sound(
                        *buffer,
                        me,
                        target_color@,
                        tolerance,
                        vis0,
                        visited@,
                        temp_mask@,
                        temp_mask@,
                        px as int,
                        py as int,
                    );
                    lemma_wand_frontier_pop(
                        *buffer,
                        me,
                        temp_mask@,
                        x as int,
                        y as int,
                        tolerance,
                        q0,
                        queue@,
                    );
                }
            },
        }
        proof {
            lemma_count_false_nonneg(visited@, total);
            if me.in_dims(x as int, y as int) && !temp_mask@[me.index(x as int, y as int)] {
                assert(!((px, py) == (x, y)));
                me.lemma_distinct_indices(x as int, y as int, px as int, py as int);
                me.lemma_index_in_range(x as int, y as int);
                let i = choose|i: int| 0 <= i < q0.len() && q0[i] == (x, y);
                assert(i >= 1);
                assert(q0.subrange(1, q0.len() as int)[i - 1] == (x, y));
                assert(queue@[i - 1] == (x, y));
            }
            assert forall|i: int| 0 <= i < queue@.len() implies wand_queue_entry_ok(
                *buffer,
                me,
                x,
                y,
                tolerance,
                #[trigger] queue@[i],
            ) by {
                if i < q0.len() - 1 {
                    assert(queue@[i] == q0[i + 1]);
                } else {
                    assert(crate::tools::adjacent4(
                        px as int,
                        py as int,
                        queue@[i].0 as int,
                        queue@[i].1 as int,
                    ));
                    assert(wand_reachable(
                        *buffer,
                        me,
                        x as int,
                        y as int,
                        tolerance,
                        px as int,
                        py as int,
                    ));
                }
            }
        }
    }
    let ghost queue_view = queue@;
    apply_selection_mode(selection, &temp_mask, mode);
    let ghost applied = *selection;
    let ghost wit = temp_mask@;
    selection.update_bounds();
    proof {
        assert(selection.mask@ == applied.mask@);
        assert(forall|i: int|
            0 <= i < wit.len() ==> #[trigger] selection.mask@[i] == spec_apply_mode(
                mode,
                me.mask@[i],
                wit[i],
            ));
        assert(queue_view =~= Seq::<(u32, u32)>::empty());
        assert(wand_frontier_ok(
            *buffer,
            me,
            wit,
            x as int,
            y as int,
            tolerance,
            Seq::<(u32, u32)>::empty(),
        ));
        if me.in_dims(x as int, y as int) {
            assert forall|px: int, py: int|
                me.in_dims(px, py) && #[trigger] wand_reachable(
                    *buffer,
                    me,
                    x as int,
                    y as int,
                    tolerance,
                    px,
                    py,
                ) implies wit[me.index(px, py)] by {
                let path = choose|path: Seq<(int, int)>|
                    valid_wand_path(*buffer, me, x as int, y as int, tolerance, path, px, py);
                lemma_wand_closure(
                    *buffer,
                    me,
                    wit,
                    x as int,
                    y as int,
                    tolerance,
                    path,
                    px,
                    py,
                );
            }
        }
        assert(wand_mask_applied(mode, me, *selection, *buffer, x, y, tolerance, wit));
    }
    Ok(())
}

/// Whether the polygon edge from `p1` to `p2` crosses the scanline `y`: one
/// endpoint lies at or above the line and the other strictly below, the
/// half-open convention that counts each vertex crossing once.
pub open spec fn edge_crosses(p1: (i32, i32), p2: (i32, i32), y: int) -> bool {
    (p1.1 as int <= y < p2.1 as int) || (p2.1 as int <= y < p1.1 as int)
}

/// `num / den` rounded to the nearest integer, halves away from zero, for a
/// positive divisor.
pub open spec fn round_div_spec(num: int, den: int) -> int
    recommends
        den > 0,
{
    if num >= 0 {
        (2 * num + den) / (2 * den)
    } else {
        -((2 * (-num) + den) / (2 * den))
    }
}

/// The x coordinate where the edge from `p1` to `p2` meets the scanline `y`,
/// rounded to the nearest pixel column.
pub open spec fn crossing_x(p1: (i32, i32), p2: (i32, i32), y: int) -> int
    recommends
        p1.1 != p2.1,
{
    let num = (y - p1.1 as int) * (p2.0 as int - p1.0 as int);
    let den = p2.1 as int - p1.1 as int;
    if den > 0 {
        p1.0 as int + round_div_spec(num, den)
    } else {
        p1.0 as int + round_div_spec(-num, -den)
    }
}

/// The crossings of the scanline `y` with the first `k` edges of the closed
/// polygon through `points` (edge `i` joins point `i` to point `i + 1`,
/// wrapping), in edge order. The columns fit an `i64` for every scanline and
/// polygon within coordinate range.
pub open spec fn crossings_upto(points: Seq<(i32, i32)>, y: int, k: int) -> Seq<i64>
    decreases k,
{
    if k <= 0 || points.len() == 0 {
        Seq::empty()
    } else {
        let prev = crossings_upto(points, y, k - 1);
        let p1 = points[k - 1];
        let p2 = points[k % points.len() as int];
        if edge_crosses(p1, p2, y) {
            prev.push(crossing_x(p1, p2, y) as i64)
        } else {
            prev
        }
    }
}

/// All crossings of the scanline `y` with the closed polygon through
/// `points`, in edge order.
pub open spec fn crossings_seq(points: Seq<(i32, i32)>, y: int) -> Seq<i64> {
    crossings_upto(points, y, points.len() as int)
}

/// Ascending order.
pub open spec fn sorted_i64(s: Seq<i64>) -> bool {
    forall|i: int, j: int| 0 <= i < j < s.len() ==> s[i] <= s[j]
}

/// `v` placed at its position in an ascending sequence.
pub open spec fn insert_sorted(s: Seq<i64>, v: i64) -> Seq<i64>
    decreases s.len(),
{
    if s.len() == 0 {
        seq![v]
    } else if v <= s[0] {
        seq![v] + s
    } else {
        seq![s[0]] + insert_sorted(s.drop_first(), v)
    }
}

/// The ascending rearrangement of a sequence.
pub open spec fn sort_i64(s: Seq<i64>) -> Seq<i64>
    decreases s.len(),
{
    if s.len() == 0 {
        Seq::empty()
    } else {
        insert_sorted(sort_i64(s.drop_first()), s[0])
    }
}

/// [`insert_sorted`] keeps the sequence ascending and adds exactly `v`.
proof fn lemma_insert_sorted(s: Seq<i64>, v: i64)
    requires
        sorted_i64(s),
    ensures
        sorted_i64(insert_sorted(s, v)),
        insert_sorted(s, v).to_multiset() == s.to_multiset().insert(v),
        insert_sorted(s, v).len() == s.len() + 1,
    decreases s.len(),
{
    broadcast use vstd::seq_lib::group_to_multiset_ensures;

    if s.len() == 0 {
        assert(insert_sorted(s, v) =~= Seq::<i64>::empty().push(v));
        assert(insert_sorted(s, v).to_multiset() =~= s.to_multiset().insert(v));
    } else if v <= s[0] {
        let r = seq![v] + s;
        assert forall|i: int, j: int| 0 <= i < j < r.len() implies r[i] <= r[j] by {
            if i == 0 {
                if j > 1 {
                    assert(s[0] <= s[j - 1]);
                }
            } else {
                assert(r[i] == s[i - 1] && r[j] == s[j - 1]);
            }
        }
        assert(r =~= s.insert(0, v));
        vstd::seq_lib::to_multiset_insert(s, 0, v);
    } else {
        let rest = s.drop_first();
        assert forall|i: int, j: int| 0 <= i < j < rest.len() implies rest[i] <= rest[j] by {
            assert(s[i + 1] <= s[j + 1]);
        }
        lemma_insert_sorted(rest, v);
        let inner = insert_sorted(rest, v);
        let r = seq![s[0]] + inner;
        assert forall|i: int, j: int| 0 <= i < j < r.len() implies r[i] <= r[j] by {
            if i == 0 {
                assert(r[j] == inner[j - 1]);
                assert(inner.to_multiset().count(inner[j - 1]) > 0);
                assert(inner.contains(inner[j - 1]));
                if inner[j - 1] == v {
                } else {
                    assert(rest.to_multiset().count(inner[j - 1]) > 0) by {
                        assert(inner.to_multiset() == rest.to_multiset().insert(v));
                    }
                    assert(rest.contains(inner[j - 1]));
                    let w = choose|w: int| 0 <= w < rest.len() && rest[w] == inner[j - 1];
                    assert(s[0] <= s[w + 1]);
                }
            } else {
                assert(r[i] == inner[i - 1] && r[j] == inner[j - 1]);
            }
        }
        assert(r =~= inner.insert(0, s[0]));
        vstd::seq_lib::to_multiset_insert(inner, 0, s[0]);
        assert(s =~= rest.insert(0, s[0]));
        vstd::seq_lib::to_multiset_insert(rest, 0, s[0]);
        assert(r.to_multiset() =~= s.to_multiset().insert(v));
    }
}

/// [`sort_i64`] yields an ascending sequence holding exactly the input's
/// values.
proof fn lemma_sort_i64(s: Seq<i64>)
    ensures
        sorted_i64(sort_i64(s)),
        sort_i64(s).to_multiset() == s.to_multiset(),
        sort_i64(s).len() == s.len(),
    decreases s.len(),
{
    broadcast use vstd::seq_lib::group_to_multiset_ensures;

    if s.len() > 0 {
        let rest = s.drop_first();
        lemma_sort_i64(rest);
        lemma_insert_sorted(sort_i64(rest), s[0]);
        assert(s =~= rest.insert(0, s[0]));
        vstd::seq_lib::to_multiset_insert(rest, 0, s[0]);
        assert(sort_i64(s).to_multiset() =~= s.to_multiset());
    }
}

/// Two ascending sequences holding the same values are the same sequence.
proof fn lemma_sorted_unique(a: Seq<i64>, b: Seq<i64>)
    requires
        sorted_i64(a),
        sorted_i64(b),
        a.to_multiset() == b.to_multiset(),
    ensures
        a == b,
    decreases a.len(),
{
    broadcast use vstd::seq_lib::group_to_multiset_ensures;

    assert(a.len() == a.to_multiset().len());
    assert(b.len() == b.to_multiset().len());
    if a.len() == 0 {
        assert(a =~= b);
    } else {
        assert(a.contains(a[0]) && b.contains(b[0]));
        assert(b.to_multiset().count(a[0]) > 0);
        assert(b.contains(a[0]));
        let i = choose|i: int| 0 <= i < b.len() && b[i] == a[0];
        assert(b[0] <= a[0]) by {
            if i > 0 {
                assert(b[0] <= b[i]);
            }
        }
        assert(a.to_multiset().count(b[0]) > 0);
        assert(a.contains(b[0]));
        let j = choose|j: int| 0 <= j < a.len() && a[j] == b[0];
        assert(a[0] <= b[0]) by {
            if j > 0 {
                assert(a[0] <= a[j]);
            }
        }
        assert(a[0] == b[0]);
        let ra = a.drop_first();
        let rb = b.drop_first();
        assert(ra =~= a.remove(0));
        assert(rb =~= b.remove(0));
        vstd::seq_lib::to_multiset_remove(a, 0);
        vstd::seq_lib::to_multiset_remove(b, 0);
        assert(ra.to_multiset() =~= rb.to_multiset());
        assert forall|i2: int, j2: int| 0 <= i2 < j2 < ra.len() implies ra[i2] <= ra[j2] by {
            assert(a[i2 + 1] <= a[j2 + 1]);
        }
        assert forall|i2: int, j2: int| 0 <= i2 < j2 < rb.len() implies rb[i2] <= rb[j2] by {
            assert(b[i2 + 1] <= b[j2 + 1]);
        }
        lemma_sorted_unique(ra, rb);
        assert forall|i: int| 0 <= i < a.len() implies a[i] == b[i] by {
            if i > 0 {
                assert(a[i] == ra[i - 1] && b[i] == rb[i - 1]);
            }
        }
        assert(a =~= b);
    }
}

/// Whether column `px` lies inside one of the first `m` crossings' fill
/// spans: between the two columns of some even-indexed pair of the ascending
/// crossing sequence.
pub open spec fn in_fill_span_upto(s: Seq<i64>, m: int, px: int) -> bool {
    exists|k: int|
        0 <= k && 2 * k + 1 < m && 2 * k + 1 < s.len() && (#[trigger] s[2 * k]) as int <= px && px
            <= s[2 * k + 1] as int
}

/// Whether column `px` lies inside a fill span of the ascending crossing
/// sequence `s`.
pub open spec fn in_fill_span(s: Seq<i64>, px: int) -> bool {
    in_fill_span_upto(s, s.len() as int, px)
}

/// Whether the even-odd scanline fill of the polygon selects cell (px, y):
/// the row's edge crossings, taken in ascending order and paired off, span
/// the cell's column.
pub open spec fn lasso_row_selected(points: Seq<(i32, i32)>, y: int, px: int) -> bool {
    in_fill_span(sort_i64(crossings_seq(points, y)), px)
}

/// The grown mask `temp` explains the step from `before` to `after`: the new
/// mask is the old one combined with `temp` under `mode`, and `temp` selects
/// exactly the cells the even-odd scanline fill of the polygon covers.
pub open spec fn lasso_mask_applied(
    mode: SelectionMode,
    before: Selection,
    after: Selection,
    points: Seq<(i32, i32)>,
    temp: Seq<bool>,
) -> bool {
    &&& temp.len() == before.mask@.len()
    &&& (forall|i: int|
        0 <= i < temp.len() ==> #[trigger] after.mask@[i] == spec_apply_mode(
            mode,
            before.mask@[i],
            temp[i],
        ))
    &&& (forall|px: int, py: int|
        before.in_dims(px, py) ==> #[trigger] temp[before.index(px, py)] == lasso_row_selected(
            points,
            py,
            px,
        ))
}

/// `num / den` rounded to the nearest integer, halves away from zero.
fn round_div(num: i64, den: i64) -> (r: i64)
    requires
        0 < den <= 0x40_0000,
        -0x8_0000_0000_0000 <= num <= 0x8_0000_0000_0000,
    ensures
        r as int == round_div_spec(num as int, den as int),
{
    if num >= 0 {
        (2 * num + den) / (2 * den)
    } else {
        -((2 * (-num) + den) / (2 * den))
    }
}

/// Every point's coordinates stay within the range the scanline arithmetic
/// handles without overflow.
pub open spec fn points_in_range(points: Seq<(i32, i32)>) -> bool {
    forall|k: int|
        0 <= k < points.len() ==> -0x10_0000 <= (#[trigger] points[k]).0 <= 0x10_0000 && -0x10_0000
            <= points[k].1 <= 0x10_0000
}

/// The crossings of the scanline `y` with the closed polygon through
/// `points`, in edge order.
fn compute_crossings(points: &Vec<(i32, i32)>, y: i32) -> (r: Vec<i64>)
    requires
        points_in_range(points@),
        0 <= y <= 0x10_0000,
    ensures
        r@ == crossings_seq(points@, y as int),
{
    let mut r: Vec<i64> = Vec::new();
    proof {
        assert(crossings_seq(points@, y as int).len() >= 0);
    }
    let n = points.len();
    if n == 0 {
        proof {
            assert(r@ =~= crossings_seq(points@, y as int));
        }
        return r;
    }
    let mut i: usize = 0;
    while i < n
        invariant
            points_in_range(points@),
            0 <= y <= 0x10_0000,
            n == points@.len(),
            n > 0,
            i <= n,
            r@ == crossings_upto(points@, y as int, i as int),
        decreases n - i,
    {
        let p1 = points[i];
        let next: usize = (i + 1) % n;
        let p2 = points[next];
        proof {
            assert((i + 1) as int % points@.len() as int == next as int);
        }
        let y1 = p1.1;
        let y2 = p2.1;
        let crosses = (y1 as i64 <= y as i64 && (y as i64) < y2 as i64) || (y2 as i64 <= y as i64
            && (y as i64) < y1 as i64);
        proof {
            assert(points@[i as int].0 == p1.0 && points@[next as int].0 == p2.0);
        }
        if crosses {
            proof {
                assert(-0x8_0000_0000_0000 <= (y as int - y1 as int) * (p2.0 as int - p1.0 as int)
                    <= 0x8_0000_0000_0000) by (nonlinear_arith)
                    requires
                        -0x20_0001 <= y as int - y1 as int <= 0x20_0001,
                        -0x20_0001 <= p2.0 as int - p1.0 as int <= 0x20_0001,
                ;
            }
            let num: i64 = (y as i64 - y1 as i64) * (p2.0 as i64 - p1.0 as i64);
            let den: i64 = y2 as i64 - y1 as i64;
            let cx: i64 = if den > 0 {
                p1.0 as i64 + round_div(num, den)
            } else {
                p1.0 as i64 + round_div(-num, -den)
            };
            proof {
                assert(cx as int == crossing_x(p1, p2, y as int));
                assert(crossing_x(p1, p2, y as int) as i64 == cx);
            }
            r.push(cx);
        }
        proof {
            assert(crossings_upto(points@, y as int, i + 1) == if edge_crosses(
                points@[i as int],
                points@[(i + 1) as int % points@.len() as int],
                y as int,
            ) {
                crossings_upto(points@, y as int, i as int).push(
                    crossing_x(
                        points@[i as int],
                        points@[(i + 1) as int % points@.len() as int],
                        y as int,
                    ) as i64,
                )
            } else {
                crossings_upto(points@, y as int, i as int)
            });
        }
        i = i + 1;
    }
    r
}

/// Sorts the vector ascending by repeated insertion; the result holds exactly
/// the input's values.
fn insertion_sort(v: &mut Vec<i64>)
    ensures
        final(v)@.len() == old(v)@.len(),
        final(v)@.to_multiset() == old(v)@.to_multiset(),
        forall|a: int, b: int| 0 <= a < b < final(v)@.len() ==> final(v)@[a] <= final(v)@[b],
{
    let len = v.len();
    if len <= 1 {
        return ;
    }
    let mut i: usize = 1;
    while i < len
        invariant
            len == v@.len(),
            1 <= i <= len,
            v@.to_multiset() == old(v)@.to_multiset(),
            forall|a: int, b: int| 0 <= a < b < i ==> v@[a] <= v@[b],
        decreases len - i,
    {
        let mut j: usize = i;
        while j > 0 && v[j - 1] > v[j]
            invariant
                len == v@.len(),
                1 <= i < len,
                0 <= j <= i,
                v@.to_multiset() == old(v)@.to_multiset(),
                forall|a: int, b: int|
                    0 <= a < b <= i && a != j && b != j ==> v@[a] <= v@[b],
                forall|b: int| j < b <= i ==> v@[j as int] <= #[trigger] v@[b],
            decreases j,
        {
            let x = v[j - 1];
            let y = v[j];
            let ghost before = v@;
            v.set(j - 1, y);
            v.set(j, x);
            proof {
                assert(v@ =~= before.update(j - 1, before[j as int]).update(j as int, before[
                    j - 1
                ]));
                vstd::seq_lib::to_multiset_update(before, j - 1, before[j as int]);
                vstd::seq_lib::to_multiset_update(
                    before.update(j - 1, before[j as int]),
                    j as int,
                    before[j - 1],
                );
                assert(before.update(j - 1, before[j as int])[j as int] == before[j as int]);
                assert(v@.to_multiset() =~= before.to_multiset());
            }
            j = j - 1;
        }
        proof {
            assert forall|a: int, b: int| 0 <= a < b <= i implies v@[a] <= v@[b] by {
                if b == j {
                    if j > 0 {
                        assert(v@[j - 1] <= v@[j as int]);
                        if a < j - 1 {
                            assert(v@[a] <= v@[j - 1]);
                        }
                    }
                } else if a == j {
                    if j > 0 {
                        assert(v@[j - 1] <= v@[j as int]);
                    }
                }
            }
        }
        i = i + 1;
    }
}

/// Selects the interior of the closed polygon through `points` (the last
/// point joins back to the first) by even-odd scanline filling: per row the
/// edge crossings are computed, sorted, and the cells between successive
/// pairs selected. The grown mask is combined under `mode` and the box
/// recomputed. With fewer than three points nothing changes at all.
pub fn select_lasso_add_point(
    selection: &mut Selection,
    points: &Vec<(i32, i32)>,
    mode: SelectionMode,
)
    requires
        old(selection).wf(),
        old(selection).width <= 0x10_0000,
        old(selection).height <= 0x10_0000,
        points_in_range(points@),
    ensures
        final(selection).wf(),
        final(selection).width == old(selection).width,
        final(selection).height == old(selection).height,
        points@.len() < 3 ==> *final(selection) == *old(selection),
        points@.len() >= 3 ==> final(selection).bounds_exact(),
        points@.len() >= 3 ==> exists|temp: Seq<bool>|
            #[trigger] lasso_mask_applied(
                mode,
                *old(selection),
                *final(selection),
                points@,
                temp,
            ),
{
    if points.len() < 3 {
        return ;
    }
    let len = selection.mask.len();
    let mut temp_mask: Vec<bool> = filled_bool(len, false);
    let ghost me = *old(selection);
    proof {
        assert forall|px: int, py: int| me.in_dims(px, py) implies !(#[trigger] temp_mask@[me.index(
            px,
            py,
        )]) by {
            me.lemma_index_in_range(px, py);
        }
    }
    let width = selection.width;
    let height = selection.height;
    let mut y: u32 = 0;
    while y < height
        invariant
            *selection == me,
            me.wf(),
            me.width <= 0x10_0000,
            me.height <= 0x10_0000,
            width == me.width,
            height == me.height,
            points_in_range(points@),
            points@.len() >= 3,
            y <= height,
            temp_mask@.len() == me.mask@.len(),
            forall|px: int, py: int|
                me.in_dims(px, py) && py < y ==> #[trigger] temp_mask@[me.index(px, py)]
                    == lasso_row_selected(points@, py, px),
            forall|px: int, py: int|
                me.in_dims(px, py) && py >= y ==> !(#[trigger] temp_mask@[me.index(px, py)]),
        decreases height - y,
    {
        let mut inter = compute_crossings(points, y as i32);
        let ghost unsorted = inter@;
        insertion_sort(&mut inter);
        let ghost ss = sort_i64(crossings_seq(points@, y as int));
        proof {
            lemma_sort_i64(unsorted);
            lemma_sorted_unique(inter@, ss);
        }
        let ilen = inter.len();
        let mut ii: usize = 0;
        while ii < ilen
            invariant
                *selection == me,
                me.wf(),
                me.width <= 0x10_0000,
                me.height <= 0x10_0000,
                width == me.width,
                height == me.height,
                points@.len() >= 3,
                y < height,
                temp_mask@.len() == me.mask@.len(),
                inter@ == ss,
                ss == sort_i64(crossings_seq(points@, y as int)),
                ilen == ss.len(),
                ii % 2 == 0,
                ii <= ilen + 1,
                forall|px: int, py: int|
                    me.in_dims(px, py) && py < y ==> #[trigger] temp_mask@[me.index(px, py)]
                        == lasso_row_selected(points@, py, px),
                forall|px: int, py: int|
                    me.in_dims(px, py) && py > y ==> !(#[trigger] temp_mask@[me.index(px, py)]),
                forall|px: int|
                    0 <= px < me.width as int ==> #[trigger] temp_mask@[me.index(px, y as int)]
                        == in_fill_span_upto(ss, ii as int, px),
            ensures
                *selection == me,
                temp_mask@.len() == me.mask@.len(),
                forall|px: int, py: int|
                    me.in_dims(px, py) && py < y ==> #[trigger] temp_mask@[me.index(px, py)]
                        == lasso_row_selected(points@, py, px),
                forall|px: int, py: int|
                    me.in_dims(px, py) && py > y ==> !(#[trigger] temp_mask@[me.index(px, py)]),
                forall|px: int|
                    0 <= px < me.width as int ==> #[trigger] temp_mask@[me.index(px, y as int)]
                        == lasso_row_selected(points@, y as int, px),
            decreases ilen - ii,
        {
            if ii + 1 >= ilen {
                proof {
                    assert forall|px: int|
                        0 <= px < me.width as int implies #[trigger] temp_mask@[me.index(
                        px,
                        y as int,
                    )] == lasso_row_selected(points@, y as int, px) by {
                        assert(in_fill_span_upto(ss, ii as int, px) == in_fill_span(ss, px)) by {
                            if in_fill_span(ss, px) {
                                let k = choose|k: int|
                                    0 <= k && 2 * k + 1 < ss.len() as int && (#[trigger] ss[2 * k])
                                        as int <= px && px <= ss[2 * k + 1] as int;
                                assert(2 * k + 1 != ii as int);
                                assert(2 * k + 1 < ii as int);
                                assert(in_fill_span_upto(ss, ii as int, px));
                            }
                            if in_fill_span_upto(ss, ii as int, px) {
                                let k = choose|k: int|
                                    0 <= k && 2 * k + 1 < ii as int && 2 * k + 1 < ss.len() && (
                                    #[trigger] ss[2 * k]) as int <= px && px <= ss[2 * k
                                        + 1] as int;
                                assert(in_fill_span(ss, px));
                            }
                        }
                    }
                }
                break ;
            }
            let xa: i64 = inter[ii];
            let xb: i64 = inter[ii + 1];
            let x_start: i64 = if xa > 0 {
                xa
            } else {
                0
            };
            let x_end: i64 = if xb < width as i64 - 1 {
                xb
            } else {
                width as i64 - 1
            };
            let ghost row0 = temp_mask@;
            let mut x: i64 = x_start;
            while x <= x_end
                invariant
                    *selection == me,
                    me.wf(),
                    me.width <= 0x10_0000,
                    me.height <= 0x10_0000,
                    width == me.width,
                    height == me.height,
                    points@.len() >= 3,
                    y < height,
                    temp_mask@.len() == me.mask@.len(),
                    inter@ == ss,
                    ii + 1 < ss.len(),
                    xa == ss[ii as int],
                    xb == ss[ii + 1],
                    x_start as int == if xa as int > 0 {
                        xa as int
                    } else {
                        0
                    },
                    x_end as int == if (xb as int) < me.width as int - 1 {
                        xb as int
                    } else {
                        me.width as int - 1
                    },
                    0 <= x_start <= x,
                    forall|px: int, py: int|
                        me.in_dims(px, py) && py != y ==> #[trigger] temp_mask@[me.index(px, py)]
                            == row0[me.index(px, py)],
                    forall|px: int|
                        0 <= px < me.width as int ==> #[trigger] temp_mask@[me.index(px, y as int)]
                            == (row0[me.index(px, y as int)] || (xa as int <= px && px
                            <= xb as int && px < x)),
                decreases x_end + 1 - x,
            {
                proof {
                    me.lemma_index_in_range(x as int, y as int);
                }
                let n: usize = temp_mask.len();
                let index: usize = y as usize * width as usize + x as usize;
                let ghost tm0 = temp_mask@;
                temp_mask.set(index, true);
                proof {
                    assert forall|px: int, py: int|
                        me.in_dims(px, py) && !(px == x as int && py == y as int)
                            implies #[trigger] temp_mask@[me.index(px, py)] == tm0[me.index(
                        px,
                        py,
                    )] by {
                        me.lemma_index_in_range(px, py);
                        me.lemma_distinct_indices(px, py, x as int, y as int);
                    }
                }
                x = x + 1;
            }
            proof {
                assert forall|px: int|
                    0 <= px < me.width as int implies #[trigger] temp_mask@[me.index(px, y as int)]
                    == in_fill_span_upto(ss, ii as int + 2, px) by {
                    assert(temp_mask@[me.index(px, y as int)] == (row0[me.index(px, y as int)] || (
                    xa as int <= px && px <= xb as int)));
                    if temp_mask@[me.index(px, y as int)] {
                        if row0[me.index(px, y as int)] {
                            let k = choose|k: int|
                                0 <= k && 2 * k + 1 < ii as int && 2 * k + 1 < ss.len() && (
                                #[trigger] ss[2 * k]) as int <= px && px <= ss[2 * k + 1] as int;
                            assert(in_fill_span_upto(ss, ii as int + 2, px));
                        } else {
                            let k = ii as int / 2;
                            assert(2 * k == ii as int);
                            assert(ss[2 * k] as int <= px && px <= ss[2 * k + 1] as int);
                            assert(in_fill_span_upto(ss, ii as int + 2, px));
                        }
                    } else {
                        if in_fill_span_upto(ss, ii as int + 2, px) {
                            let k = choose|k: int|
                                0 <= k && 2 * k + 1 < ii as int + 2 && 2 * k + 1 < ss.len() && (
                                #[trigger] ss[2 * k]) as int <= px && px <= ss[2 * k + 1] as int;
                            if 2 * k + 1 < ii as int {
                                assert(in_fill_span_upto(ss, ii as int, px));
                            } else {
                                assert(2 * k == ii as int);
                            }
                            assert(false);
                        }
                    }
                }
            }
            ii = ii + 2;
        }
        y = y + 1;
    }
    apply_selection_mode(selection, &temp_mask, mode);
    let ghost applied = *selection;
    let ghost wit = temp_mask@;
    selection.update_bounds();
    proof {
        assert(selection.mask@ == applied.mask@);
        assert(forall|i: int|
            0 <= i < wit.len() ==> #[trigger] selection.mask@[i] == spec_apply_mode(
                mode,
                me.mask@[i],
                wit[i],
            ));
        assert(lasso_mask_applied(mode, me, *selection, points@, wit));
    }
}

} // verus!
