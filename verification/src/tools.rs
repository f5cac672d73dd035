//! Stateless drawing tools over a [`PixelBuffer`].
//!
//! Every tool takes the buffer it mutates explicitly and retains no state
//! between calls. Each contract says exactly which pixels the tool writes and
//! when it succeeds; on failure a tool may have written a prefix of its
//! pixels, but never anything outside its shape.

use crate::pixel_buffer::PixelBuffer;
use std::collections::VecDeque;
use vstd::prelude::*;

verus! {

/// Cell membership in a rectangle from (min_x, min_y) to (max_x, max_y)
/// inclusive: the whole block when filled, the one-pixel border otherwise.
pub open spec fn in_rect_region(
    filled: bool,
    min_x: int,
    max_x: int,
    min_y: int,
    max_y: int,
    px: int,
    py: int,
) -> bool {
    min_x <= px <= max_x && min_y <= py <= max_y && (filled || px == min_x || px == max_x || py
        == min_y || py == max_y)
}

/// The two colors agree on their RGB components, alpha ignored.
pub open spec fn rgb_matches(a: Seq<u8>, b: Seq<u8>) -> bool {
    a[0] == b[0] && a[1] == b[1] && a[2] == b[2]
}

/// Draws a single pixel. Fails exactly when (x, y) is out of bounds.
pub fn pencil(buffer: &mut PixelBuffer, x: u32, y: u32, color: [u8; 4]) -> (r: Result<(), String>)
    requires
        old(buffer).wf(),
    ensures
        final(buffer).wf(),
        final(buffer).width == old(buffer).width,
        final(buffer).height == old(buffer).height,
        r is Ok <==> old(buffer).in_bounds(x as int, y as int),
        r is Err ==> *final(buffer) == *old(buffer),
        r is Ok ==> final(buffer).pixel(x as int, y as int) =~= color@,
        forall|px: int, py: int|
            old(buffer).in_bounds(px, py) && !(px == x as int && py == y as int)
                ==> final(buffer).pixel(px, py) =~= old(buffer).pixel(px, py),
{
    buffer.set_pixel(x, y, color)
}

/// Sets a pixel to transparent black. Fails exactly when (x, y) is out of
/// bounds.
pub fn eraser(buffer: &mut PixelBuffer, x: u32, y: u32) -> (r: Result<(), String>)
    requires
        old(buffer).wf(),
    ensures
        final(buffer).wf(),
        final(buffer).width == old(buffer).width,
        final(buffer).height == old(buffer).height,
        r is Ok <==> old(buffer).in_bounds(x as int, y as int),
        r is Err ==> *final(buffer) == *old(buffer),
        r is Ok ==> final(buffer).pixel(x as int, y as int) =~= seq![0u8, 0u8, 0u8, 0u8],
        forall|px: int, py: int|
            old(buffer).in_bounds(px, py) && !(px == x as int && py == y as int)
                ==> final(buffer).pixel(px, py) =~= old(buffer).pixel(px, py),
{
    buffer.set_pixel(x, y, [0, 0, 0, 0])
}

/// Reads the color under the cursor; `None` exactly when out of bounds.
pub fn eyedropper(buffer: &PixelBuffer, x: u32, y: u32) -> (r: Option<[u8; 4]>)
    requires
        buffer.wf(),
    ensures
        r is Some <==> buffer.in_bounds(x as int, y as int),
        r matches Some(c) ==> c@ =~= buffer.pixel(x as int, y as int),
{
    buffer.get_pixel(x, y)
}

/// Draws a filled or one-pixel-outlined rectangle between two arbitrary
/// corners. Succeeds exactly when the whole rectangle lies on the canvas; on
/// failure a prefix of the shape has been drawn and nothing else changed.
pub fn rectangle(
    buffer: &mut PixelBuffer,
    x0: u32,
    y0: u32,
    x1: u32,
    y1: u32,
    color: [u8; 4],
    filled: bool,
) -> (r: Result<(), String>)
    requires
        old(buffer).wf(),
    ensures
        final(buffer).wf(),
        final(buffer).width == old(buffer).width,
        final(buffer).height == old(buffer).height,
        r is Ok <==> max_u32_spec(x0, x1) < old(buffer).width as int && max_u32_spec(y0, y1) < old(
            buffer,
        ).height as int,
        r is Ok ==> forall|px: int, py: int|
            final(buffer).in_bounds(px, py) ==> #[trigger] final(buffer).pixel(px, py) =~= if
                in_rect_region(
                filled,
                min_u32_spec(x0, x1),
                max_u32_spec(x0, x1),
                min_u32_spec(y0, y1),
                max_u32_spec(y0, y1),
                px,
                py,
            ) {
                color@
            } else {
                old(buffer).pixel(px, py)
            },
        forall|px: int, py: int|
            final(buffer).in_bounds(px, py) ==> final(buffer).pixel(px, py)
                =~= old(buffer).pixel(px, py) || final(buffer).pixel(px, py) =~= color@,
        forall|px: int, py: int|
            final(buffer).in_bounds(px, py) && !in_rect_region(
                filled,
                min_u32_spec(x0, x1),
                max_u32_spec(x0, x1),
                min_u32_spec(y0, y1),
                max_u32_spec(y0, y1),
                px,
                py,
            ) ==> final(buffer).pixel(px, py) =~= old(buffer).pixel(px, py),
{
    let min_x = if x0 < x1 {
        x0
    } else {
        x1
    };
    let max_x = if x0 > x1 {
        x0
    } else {
        x1
    };
    let min_y = if y0 < y1 {
        y0
    } else {
        y1
    };
    let max_y = if y0 > y1 {
        y0
    } else {
        y1
    };
    if filled {
        let mut y = min_y;
        loop
            invariant_except_break
                forall|px: int, py: int|
                    buffer.in_bounds(px, py) ==> #[trigger] buffer.pixel(px, py) =~= if
                        in_rect_region(
                        true,
                        min_x as int,
                        max_x as int,
                        min_y as int,
                        max_y as int,
                        px,
                        py,
                    ) && py < y {
                        color@
                    } else {
                        old(buffer).pixel(px, py)
                    },
            invariant
                filled,
                buffer.wf(),
                buffer.width == old(buffer).width,
                buffer.height == old(buffer).height,
                min_x as int == min_u32_spec(x0, x1),
                max_x as int == max_u32_spec(x0, x1),
                min_y as int == min_u32_spec(y0, y1),
                max_y as int == max_u32_spec(y0, y1),
                min_y <= y <= max_y,
                min_x <= max_x,
            ensures
                buffer.wf(),
                buffer.width == old(buffer).width,
                buffer.height == old(buffer).height,
                min_x as int == min_u32_spec(x0, x1),
                max_x as int == max_u32_spec(x0, x1),
                min_y as int == min_u32_spec(y0, y1),
                max_y as int == max_u32_spec(y0, y1),
                max_x < buffer.width,
                max_y < buffer.height,
                forall|px: int, py: int|
                    buffer.in_bounds(px, py) ==> #[trigger] buffer.pixel(px, py) =~= if
                        in_rect_region(
                        true,
                        min_x as int,
                        max_x as int,
                        min_y as int,
                        max_y as int,
                        px,
                        py,
                    ) {
                        color@
                    } else {
                        old(buffer).pixel(px, py)
                    },
            decreases max_y - y,
        {
            let mut x = min_x;
            loop
                invariant_except_break
                    forall|px: int, py: int|
                        buffer.in_bounds(px, py) ==> #[trigger] buffer.pixel(px, py) =~= if
                            in_rect_region(
                            true,
                            min_x as int,
                            max_x as int,
                            min_y as int,
                            max_y as int,
                            px,
                            py,
                        ) && (py < y || (py == y && px < x)) {
                            color@
                        } else {
                            old(buffer).pixel(px, py)
                        },
                invariant
                    filled,
                    buffer.wf(),
                    buffer.width == old(buffer).width,
                    buffer.height == old(buffer).height,
                    min_x as int == min_u32_spec(x0, x1),
                    max_x as int == max_u32_spec(x0, x1),
                    min_y as int == min_u32_spec(y0, y1),
                    max_y as int == max_u32_spec(y0, y1),
                    min_y <= y <= max_y,
                    min_x <= x <= max_x,
                ensures
                    buffer.wf(),
                    buffer.width == old(buffer).width,
                    buffer.height == old(buffer).height,
                    min_x as int == min_u32_spec(x0, x1),
                    max_x as int == max_u32_spec(x0, x1),
                    min_y as int == min_u32_spec(y0, y1),
                    max_y as int == max_u32_spec(y0, y1),
                    min_y <= y <= max_y,
                    max_x < buffer.width,
                    y < buffer.height,
                    forall|px: int, py: int|
                        buffer.in_bounds(px, py) ==> #[trigger] buffer.pixel(px, py) =~= if
                            in_rect_region(
                            true,
                            min_x as int,
                            max_x as int,
                            min_y as int,
                            max_y as int,
                            px,
                            py,
                        ) && py <= y {
                            color@
                        } else {
                            old(buffer).pixel(px, py)
                        },
                decreases max_x - x,
            {
                match buffer.set_pixel(x, y, color) {
                    Ok(_) => {},
                    Err(e) => {
                        return Err(e);
                    },
                }
                if x == max_x {
                    break ;
                }
                x = x + 1;
            }
            if y == max_y {
                break ;
            }
            y = y + 1;
        }
        Ok(())
    } else {
        let mut x = min_x;
        loop
            invariant_except_break
                forall|px: int, py: int|
                    buffer.in_bounds(px, py) ==> #[trigger] buffer.pixel(px, py) =~= if
                        in_rect_region(
                        false,
                        min_x as int,
                        max_x as int,
                        min_y as int,
                        max_y as int,
                        px,
                        py,
                    ) && (py == min_y || py == max_y) && px < x {
                        color@
                    } else {
                        old(buffer).pixel(px, py)
                    },
            invariant
                !filled,
                buffer.wf(),
                buffer.width == old(buffer).width,
                buffer.height == old(buffer).height,
                min_x as int == min_u32_spec(x0, x1),
                max_x as int == max_u32_spec(x0, x1),
                min_y as int == min_u32_spec(y0, y1),
                max_y as int == max_u32_spec(y0, y1),
                min_y <= max_y,
                min_x <= x <= max_x,
            ensures
                buffer.wf(),
                buffer.width == old(buffer).width,
                buffer.height == old(buffer).height,
                min_x as int == min_u32_spec(x0, x1),
                max_x as int == max_u32_spec(x0, x1),
                min_y as int == min_u32_spec(y0, y1),
                max_y as int == max_u32_spec(y0, y1),
                min_y <= max_y,
                min_x <= max_x,
                max_x < buffer.width,
                max_y < buffer.height,
                forall|px: int, py: int|
                    buffer.in_bounds(px, py) ==> #[trigger] buffer.pixel(px, py) =~= if
                        in_rect_region(
                        false,
                        min_x as int,
                        max_x as int,
                        min_y as int,
                        max_y as int,
                        px,
                        py,
                    ) && (py == min_y || py == max_y) {
                        color@
                    } else {
                        old(buffer).pixel(px, py)
                    },
            decreases max_x - x,
        {
            match buffer.set_pixel(x, min_y, color) {
                Ok(_) => {},
                Err(e) => {
                    return Err(e);
                },
            }
            match buffer.set_pixel(x, max_y, color) {
                Ok(_) => {},
                Err(e) => {
                    return Err(e);
                },
            }
            if x == max_x {
                break ;
            }
            x = x + 1;
        }
        let mut y = min_y;
        loop
            invariant_except_break
                forall|px: int, py: int|
                    buffer.in_bounds(px, py) ==> #[trigger] buffer.pixel(px, py) =~= if
                        in_rect_region(
                        false,
                        min_x as int,
                        max_x as int,
                        min_y as int,
                        max_y as int,
                        px,
                        py,
                    ) && (py == min_y || py == max_y || py < y) {
                        color@
                    } else {
                        old(buffer).pixel(px, py)
                    },
            invariant
                !filled,
                buffer.wf(),
                buffer.width == old(buffer).width,
                buffer.height == old(buffer).height,
                min_x as int == min_u32_spec(x0, x1),
                max_x as int == max_u32_spec(x0, x1),
                min_y as int == min_u32_spec(y0, y1),
                max_y as int == max_u32_spec(y0, y1),
                min_y <= y <= max_y,
                min_x <= max_x,
                max_x < buffer.width,
                max_y < buffer.height,
            ensures
                buffer.wf(),
                buffer.width == old(buffer).width,
                buffer.height == old(buffer).height,
                min_x as int == min_u32_spec(x0, x1),
                max_x as int == max_u32_spec(x0, x1),
                min_y as int == min_u32_spec(y0, y1),
                max_y as int == max_u32_spec(y0, y1),
                max_x < buffer.width,
                max_y < buffer.height,
                forall|px: int, py: int|
                    buffer.in_bounds(px, py) ==> #[trigger] buffer.pixel(px, py) =~= if
                        in_rect_region(
                        false,
                        min_x as int,
                        max_x as int,
                        min_y as int,
                        max_y as int,
                        px,
                        py,
                    ) {
                        color@
                    } else {
                        old(buffer).pixel(px, py)
                    },
            decreases max_y - y,
        {
            match buffer.set_pixel(min_x, y, color) {
                Ok(_) => {},
                Err(e) => {
                    return Err(e);
                },
            }
            match buffer.set_pixel(max_x, y, color) {
                Ok(_) => {},
                Err(e) => {
                    return Err(e);
                },
            }
            if y == max_y {
                break ;
            }
            y = y + 1;
        }
        Ok(())
    }
}

/// Replaces every pixel whose RGB components match `target_color` (alpha
/// ignored) with `new_color`, alpha included.
pub fn replace_all_color(buffer: &mut PixelBuffer, target_color: [u8; 4], new_color: [u8; 4])
    requires
        old(buffer).wf(),
    ensures
        final(buffer).wf(),
        final(buffer).width == old(buffer).width,
        final(buffer).height == old(buffer).height,
        forall|px: int, py: int|
            final(buffer).in_bounds(px, py) ==> #[trigger] final(buffer).pixel(px, py) =~= if
                rgb_matches(old(buffer).pixel(px, py), target_color@) {
                new_color@
            } else {
                old(buffer).pixel(px, py)
            },
{
    let width = buffer.width;
    let height = buffer.height;
    let mut y: u32 = 0;
    while y < height
        invariant
            buffer.wf(),
            buffer.width == old(buffer).width,
            buffer.height == old(buffer).height,
            width == buffer.width,
            height == buffer.height,
            y <= height,
            forall|px: int, py: int|
                buffer.in_bounds(px, py) ==> #[trigger] buffer.pixel(px, py) =~= if rgb_matches(
                    old(buffer).pixel(px, py),
                    target_color@,
                ) && py < y {
                    new_color@
                } else {
                    old(buffer).pixel(px, py)
                },
        decreases height - y,
    {
        let mut x: u32 = 0;
        while x < width
            invariant
                buffer.wf(),
                buffer.width == old(buffer).width,
                buffer.height == old(buffer).height,
                width == buffer.width,
                height == buffer.height,
                y < height,
                x <= width,
                forall|px: int, py: int|
                    buffer.in_bounds(px, py) ==> #[trigger] buffer.pixel(px, py) =~= if
                        rgb_matches(old(buffer).pixel(px, py), target_color@) && (py < y || (py
                        == y && px < x)) {
                        new_color@
                    } else {
                        old(buffer).pixel(px, py)
                    },
            decreases width - x,
        {
            match buffer.get_pixel(x, y) {
                Some(current_color) => {
                    if current_color[0] == target_color[0] && current_color[1] == target_color[1]
                        && current_color[2] == target_color[2] {
                        let _ = buffer.set_pixel(x, y, new_color);
                    }
                },
                None => {},
            }
            x = x + 1;
        }
        y = y + 1;
    }
}

/// Membership in the axis-aligned bounding box of the two endpoints.
pub open spec fn in_segment_box(x0: int, y0: int, x1: int, y1: int, px: int, py: int) -> bool {
    &&& if x0 <= x1 {
        x0 <= px <= x1
    } else {
        x1 <= px <= x0
    }
    &&& if y0 <= y1 {
        y0 <= py <= y1
    } else {
        y1 <= py <= y0
    }
}

/// When the x error term says to step in x, the line has not yet reached the
/// target column, so the step cannot overshoot it.
proof fn lemma_bresenham_step_x(a: int, b: int, i: int, j: int, err: int)
    requires
        0 <= i <= a,
        0 <= j <= b,
        err == a * (1 + j) - b * (1 + i),
        !(i == a && j == b),
        2 * err >= -b,
    ensures
        i < a,
{
    if i == a {
        assert(j < b);
        assert(2 * (a * (1 + j) - b * (1 + a)) < -b) by (nonlinear_arith)
            requires
                0 <= a,
                1 <= b,
                0 <= j < b,
        ;
    }
}

/// When the y error term says to step in y, the line has not yet reached the
/// target row, so the step cannot overshoot it.
proof fn lemma_bresenham_step_y(a: int, b: int, i: int, j: int, err: int)
    requires
        0 <= i <= a,
        0 <= j <= b,
        err == a * (1 + j) - b * (1 + i),
        !(i == a && j == b),
        2 * err <= a,
    ensures
        j < b,
{
    if j == b {
        assert(i < a);
        assert(2 * (a * (1 + b) - b * (1 + i)) > a) by (nonlinear_arith)
            requires
                1 <= a,
                0 <= b,
                0 <= i < a,
        ;
    }
}

/// Draws the segment from (x0, y0) to (x1, y1) with integer Bresenham
/// stepping, symmetric in all octants. Pixels with a negative coordinate are
/// clipped silently; a pixel beyond the canvas on the other sides fails the
/// call, leaving the pixels drawn so far. Every write stays within the
/// bounding box of the endpoints, and when that box lies on the canvas the
/// call succeeds with both endpoints drawn.
/// The next x step count of the Bresenham walk at state (i, j).
pub open spec fn bres_next_i(a: int, b: int, i: int, j: int) -> int {
    if 2 * (a * (1 + j) - b * (1 + i)) >= -b {
        i + 1
    } else {
        i
    }
}

/// The next y step count of the Bresenham walk at state (i, j).
pub open spec fn bres_next_j(a: int, b: int, i: int, j: int) -> int {
    if 2 * (a * (1 + j) - b * (1 + i)) <= a {
        j + 1
    } else {
        j
    }
}

/// Whether the Bresenham walk over a span of `a` x steps and `b` y steps,
/// started at step counts (i, j), visits step counts (ti, tj) before
/// stopping at (a, b).
pub open spec fn bres_hits(a: int, b: int, i: int, j: int, ti: int, tj: int) -> bool
    decreases (a - i) + (b - j)
        when 0 <= i <= a && 0 <= j <= b
        via bres_hits_decreases
{
    (ti == i && tj == j) || (!(i == a && j == b) && bres_hits(
        a,
        b,
        bres_next_i(a, b, i, j),
        bres_next_j(a, b, i, j),
        ti,
        tj,
    ))
}

#[via_fn]
proof fn bres_hits_decreases(a: int, b: int, i: int, j: int, ti: int, tj: int) {
    if 0 <= i <= a && 0 <= j <= b && !(i == a && j == b) {
        let err = a * (1 + j) - b * (1 + i);
        if 2 * err >= -b {
            lemma_bresenham_step_x(a, b, i, j, err);
        }
        if 2 * err <= a {
            lemma_bresenham_step_y(a, b, i, j, err);
        }
    }
}

/// The next state of a non-final walk state stays within the span bounds and
/// strictly shrinks the remaining distance.
proof fn lemma_bres_next_ok(a: int, b: int, i: int, j: int)
    requires
        0 <= i <= a,
        0 <= j <= b,
        !(i == a && j == b),
    ensures
        0 <= bres_next_i(a, b, i, j) <= a,
        0 <= bres_next_j(a, b, i, j) <= b,
        (a - bres_next_i(a, b, i, j)) + (b - bres_next_j(a, b, i, j)) < (a - i) + (b - j),
{
    let err = a * (1 + j) - b * (1 + i);
    if 2 * err >= -b {
        lemma_bresenham_step_x(a, b, i, j, err);
    }
    if 2 * err <= a {
        lemma_bresenham_step_y(a, b, i, j, err);
    }
}

/// Every step count the walk visits lies at or past the start, within the
/// span: the walk never revisits a state it has left.
proof fn lemma_bres_hits_measure(a: int, b: int, i: int, j: int, ti: int, tj: int)
    requires
        0 <= i <= a,
        0 <= j <= b,
        bres_hits(a, b, i, j, ti, tj),
    ensures
        0 <= ti <= a,
        0 <= tj <= b,
        (a - ti) + (b - tj) <= (a - i) + (b - j),
    decreases (a - i) + (b - j),
{
    if !(ti == i && tj == j) {
        lemma_bres_next_ok(a, b, i, j);
        lemma_bres_hits_measure(a, b, bres_next_i(a, b, i, j), bres_next_j(a, b, i, j), ti, tj);
    }
}

/// A walk that visits a non-final state also visits that state's successor.
proof fn lemma_bres_hits_step(a: int, b: int, i: int, j: int, ti: int, tj: int)
    requires
        0 <= i <= a,
        0 <= j <= b,
        bres_hits(a, b, i, j, ti, tj),
        !(ti == a && tj == b),
    ensures
        bres_hits(a, b, i, j, bres_next_i(a, b, ti, tj), bres_next_j(a, b, ti, tj)),
    decreases (a - i) + (b - j),
{
    lemma_bres_hits_measure(a, b, i, j, ti, tj);
    if ti == i && tj == j {
        lemma_bres_next_ok(a, b, i, j);
        assert(bres_hits(
            a,
            b,
            bres_next_i(a, b, i, j),
            bres_next_j(a, b, i, j),
            bres_next_i(a, b, ti, tj),
            bres_next_j(a, b, ti, tj),
        ));
    } else {
        lemma_bres_next_ok(a, b, i, j);
        lemma_bres_hits_step(a, b, bres_next_i(a, b, i, j), bres_next_j(a, b, i, j), ti, tj);
    }
}

/// The length of the x span of the segment.
pub open spec fn line_span(c0: i32, c1: i32) -> int {
    iabs(c1 as int - c0 as int)
}

/// The direction of a coordinate's step.
pub open spec fn line_step(c0: i32, c1: i32) -> int {
    if (c0 as int) < c1 as int {
        1
    } else {
        -1
    }
}

/// Whether the Bresenham segment from (x0, y0) to (x1, y1) covers the pixel
/// (px, py): the walk visits step counts placing the pixel there.
pub open spec fn on_line(x0: i32, y0: i32, x1: i32, y1: i32, px: int, py: int) -> bool {
    exists|ti: int, tj: int|
        #![trigger bres_hits(line_span(x0, x1), line_span(y0, y1), 0, 0, ti, tj)]
        bres_hits(line_span(x0, x1), line_span(y0, y1), 0, 0, ti, tj) && px == x0 as int
            + line_step(x0, x1) * ti && py == y0 as int + line_step(y0, y1) * tj
}

/// The pixels the walk has already left behind at state (i, j): visited by
/// the whole walk but no longer ahead of (i, j).
spec fn line_painted(
    a: int,
    b: int,
    sx: int,
    sy: int,
    x0: int,
    y0: int,
    i: int,
    j: int,
    px: int,
    py: int,
) -> bool {
    exists|ti: int, tj: int|
        #![trigger bres_hits(a, b, i, j, ti, tj)]
        bres_hits(a, b, 0, 0, ti, tj) && !bres_hits(a, b, i, j, ti, tj) && px == x0 + sx * ti && py
            == y0 + sy * tj
}

#[verifier::rlimit(100)]
pub fn line(buffer: &mut PixelBuffer, x0: i32, y0: i32, x1: i32, y1: i32, color: [u8; 4]) -> (r:
    Result<(), String>)
    requires
        old(buffer).wf(),
    ensures
        final(buffer).wf(),
        final(buffer).width == old(buffer).width,
        final(buffer).height == old(buffer).height,
        forall|px: int, py: int|
            old(buffer).in_bounds(px, py) ==> final(buffer).pixel(px, py) =~= old(buffer).pixel(
                px,
                py,
            ) || final(buffer).pixel(px, py) =~= color@,
        forall|px: int, py: int|
            old(buffer).in_bounds(px, py) && !in_segment_box(
                x0 as int,
                y0 as int,
                x1 as int,
                y1 as int,
                px,
                py,
            ) ==> final(buffer).pixel(px, py) =~= old(buffer).pixel(px, py),
        0 <= x0 && 0 <= y0 && 0 <= x1 && 0 <= y1 && (x0 as int) < old(buffer).width as int && (
        x1 as int) < old(buffer).width as int && (y0 as int) < old(buffer).height as int && (
        y1 as int) < old(buffer).height as int ==> r is Ok,
        r is Ok && old(buffer).in_bounds(x0 as int, y0 as int) ==> final(buffer).pixel(
            x0 as int,
            y0 as int,
        ) =~= color@,
        r is Ok && old(buffer).in_bounds(x1 as int, y1 as int) ==> final(buffer).pixel(
            x1 as int,
            y1 as int,
        ) =~= color@,
        r is Ok ==> forall|px: int, py: int|
            old(buffer).in_bounds(px, py) ==> #[trigger] final(buffer).pixel(px, py) =~= if
                on_line(x0, y0, x1, y1, px, py) {
                color@
            } else {
                old(buffer).pixel(px, py)
            },
{
    let a: i128 = if x1 >= x0 {
        x1 as i128 - x0 as i128
    } else {
        x0 as i128 - x1 as i128
    };
    let b: i128 = if y1 >= y0 {
        y1 as i128 - y0 as i128
    } else {
        y0 as i128 - y1 as i128
    };
    let dx: i128 = a;
    let dy: i128 = -b;
    let sx: i32 = if x0 < x1 {
        1
    } else {
        -1
    };
    let sy: i32 = if y0 < y1 {
        1
    } else {
        -1
    };
    let mut err: i128 = dx + dy;
    let mut x = x0;
    let mut y = y0;
    let ghost mut i: int = 0;
    let ghost mut j: int = 0;
    proof {
        assert(a * (1 + 0int) - b * (1 + 0int) == a - b) by (nonlinear_arith);
        assert(line_span(x0, x1) == a as int && line_span(y0, y1) == b as int);
        assert(line_step(x0, x1) == sx as int && line_step(y0, y1) == sy as int);
        assert(bres_hits(a as int, b as int, 0, 0, 0, 0));
    }
    #[verifier::spinoff_prover]
    loop
        invariant_except_break
            forall|px: int, py: int|
                old(buffer).in_bounds(px, py) ==> #[trigger] buffer.pixel(px, py) =~= if
                    line_painted(
                    a as int,
                    b as int,
                    sx as int,
                    sy as int,
                    x0 as int,
                    y0 as int,
                    i,
                    j,
                    px,
                    py,
                ) {
                    color@
                } else {
                    old(buffer).pixel(px, py)
                },
        invariant
            buffer.wf(),
            buffer.width == old(buffer).width,
            buffer.height == old(buffer).height,
            dx == a && dy == -b,
            0 <= a < 0x1_0000_0000,
            0 <= b < 0x1_0000_0000,
            sx == 1 || sx == -1,
            sy == 1 || sy == -1,
            x1 as int == x0 as int + sx as int * a,
            y1 as int == y0 as int + sy as int * b,
            0 <= i <= a,
            0 <= j <= b,
            x as int == x0 as int + sx as int * i,
            y as int == y0 as int + sy as int * j,
            err as int == a * (1 + j) - b * (1 + i),
            forall|px: int, py: int|
                old(buffer).in_bounds(px, py) ==> buffer.pixel(px, py) =~= old(buffer).pixel(
                    px,
                    py,
                ) || buffer.pixel(px, py) =~= color@,
            forall|px: int, py: int|
                old(buffer).in_bounds(px, py) && !in_segment_box(
                    x0 as int,
                    y0 as int,
                    x1 as int,
                    y1 as int,
                    px,
                    py,
                ) ==> buffer.pixel(px, py) =~= old(buffer).pixel(px, py),
            line_span(x0, x1) == a as int && line_span(y0, y1) == b as int,
            line_step(x0, x1) == sx as int && line_step(y0, y1) == sy as int,
            bres_hits(a as int, b as int, 0, 0, i, j),
        ensures
            buffer.wf(),
            buffer.width == old(buffer).width,
            buffer.height == old(buffer).height,
            forall|px: int, py: int|
                old(buffer).in_bounds(px, py) ==> buffer.pixel(px, py) =~= old(buffer).pixel(
                    px,
                    py,
                ) || buffer.pixel(px, py) =~= color@,
            forall|px: int, py: int|
                old(buffer).in_bounds(px, py) && !in_segment_box(
                    x0 as int,
                    y0 as int,
                    x1 as int,
                    y1 as int,
                    px,
                    py,
                ) ==> buffer.pixel(px, py) =~= old(buffer).pixel(px, py),
            old(buffer).in_bounds(x0 as int, y0 as int) ==> buffer.pixel(x0 as int, y0 as int)
                =~= color@,
            old(buffer).in_bounds(x1 as int, y1 as int) ==> buffer.pixel(x1 as int, y1 as int)
                =~= color@,
            forall|px: int, py: int|
                old(buffer).in_bounds(px, py) ==> #[trigger] buffer.pixel(px, py) =~= if on_line(
                    x0,
                    y0,
                    x1,
                    y1,
                    px,
                    py,
                ) {
                    color@
                } else {
                    old(buffer).pixel(px, py)
                },
        decreases (a - i) + (b - j),
    {
        proof {
            assert(in_segment_box(x0 as int, y0 as int, x1 as int, y1 as int, x as int, y as int))
                by (nonlinear_arith)
                requires
                    0 <= i <= a,
                    0 <= j <= b,
                    sx == 1 || sx == -1,
                    sy == 1 || sy == -1,
                    x as int == x0 as int + sx as int * i,
                    y as int == y0 as int + sy as int * j,
                    x1 as int == x0 as int + sx as int * a,
                    y1 as int == y0 as int + sy as int * b,
            ;
        }
        if x >= 0 && y >= 0 {
            match buffer.set_pixel(x as u32, y as u32, color) {
                Ok(_) => {},
                Err(e) => {
                    return Err(e);
                },
            }
        }
        if x == x1 && y == y1 {
            proof {
                assert(i == a && j == b) by (nonlinear_arith)
                    requires
                        sx == 1 || sx == -1,
                        sy == 1 || sy == -1,
                        0 <= i <= a,
                        0 <= j <= b,
                        x as int == x0 as int + sx as int * i,
                        y as int == y0 as int + sy as int * j,
                        x1 as int == x0 as int + sx as int * a,
                        y1 as int == y0 as int + sy as int * b,
                        x == x1,
                        y == y1,
                ;
                let ga = a as int;
                let gb = b as int;
                assert forall|px: int, py: int|
                    old(buffer).in_bounds(px, py) implies #[trigger] buffer.pixel(px, py) =~= if
                    on_line(x0, y0, x1, y1, px, py) {
                    color@
                } else {
                    old(buffer).pixel(px, py)
                } by {
                    if px == x1 as int && py == y1 as int {
                        assert(buffer.pixel(px, py) =~= color@);
                        assert(bres_hits(ga, gb, 0, 0, ga, gb));
                        assert(px == x0 as int + sx as int * ga && py == y0 as int + sy as int
                            * gb);
                        assert(on_line(x0, y0, x1, y1, px, py));
                    } else {
                        if on_line(x0, y0, x1, y1, px, py) {
                            let (ti, tj) = choose|ti: int, tj: int|
                                #![trigger bres_hits(ga, gb, 0, 0, ti, tj)]
                                bres_hits(ga, gb, 0, 0, ti, tj) && px == x0 as int + sx as int * ti
                                    && py == y0 as int + sy as int * tj;
                            assert(!(ti == ga && tj == gb)) by {
                                if ti == ga && tj == gb {
                                    assert(px == x1 as int && py == y1 as int);
                                }
                            }
                            assert(!bres_hits(ga, gb, ga, gb, ti, tj));
                            assert(line_painted(
                                ga,
                                gb,
                                sx as int,
                                sy as int,
                                x0 as int,
                                y0 as int,
                                ga,
                                gb,
                                px,
                                py,
                            ));
                            assert(buffer.pixel(px, py) =~= color@);
                        } else {
                            if line_painted(
                                ga,
                                gb,
                                sx as int,
                                sy as int,
                                x0 as int,
                                y0 as int,
                                ga,
                                gb,
                                px,
                                py,
                            ) {
                                let (ti, tj) = choose|ti: int, tj: int|
                                    #![trigger bres_hits(ga, gb, ga, gb, ti, tj)]
                                    bres_hits(ga, gb, 0, 0, ti, tj) && !bres_hits(
                                        ga,
                                        gb,
                                        ga,
                                        gb,
                                        ti,
                                        tj,
                                    ) && px == x0 as int + sx as int * ti && py == y0 as int
                                        + sy as int * tj;
                                assert(on_line(x0, y0, x1, y1, px, py));
                                assert(false);
                            }
                        }
                    }
                }
                assert(bres_hits(a as int, b as int, 0, 0, 0, 0));
                if old(buffer).in_bounds(x0 as int, y0 as int) {
                    assert(sx as int * 0 == 0 && sy as int * 0 == 0);
                    assert(on_line(x0, y0, x1, y1, x0 as int, y0 as int));
                }
            }
            break ;
        }
        proof {
            assert(!(i == a && j == b)) by (nonlinear_arith)
                requires
                    sx == 1 || sx == -1,
                    sy == 1 || sy == -1,
                    x as int == x0 as int + sx as int * i,
                    y as int == y0 as int + sy as int * j,
                    x1 as int == x0 as int + sx as int * a,
                    y1 as int == y0 as int + sy as int * b,
                    !(x == x1 && y == y1),
            ;
        }
        proof {
            assert(a * (1 + j) <= a * (1 + b) && b * (1 + i) <= b * (1 + a)) by (nonlinear_arith)
                requires
                    0 <= i <= a,
                    0 <= j <= b,
            ;
            assert(a * (1 + b) < 0x2_0000_0000_0000_0000 && b * (1 + a)
                < 0x2_0000_0000_0000_0000) by (nonlinear_arith)
                requires
                    0 <= a < 0x1_0000_0000,
                    0 <= b < 0x1_0000_0000,
            ;
            assert(0 <= a * (1 + j) && 0 <= b * (1 + i)) by (nonlinear_arith)
                requires
                    0 <= i,
                    0 <= j,
                    0 <= a,
                    0 <= b,
            ;
        }
        let e2: i128 = 2 * err;
        let ghost i0 = i;
        let ghost j0 = j;
        if e2 >= dy {
            proof {
                lemma_bresenham_step_x(a as int, b as int, i, j, err as int);
                assert(a * (1 + j) - b * (1 + (i + 1)) == a * (1 + j) - b * (1 + i) - b)
                    by (nonlinear_arith);
                assert(sx as int * (i + 1) == sx as int * i + sx as int) by (nonlinear_arith);
                assert(x1 as int - sx as int * (a - (i + 1)) == x0 as int + sx as int * (i + 1))
                    by (nonlinear_arith)
                    requires
                        x1 as int == x0 as int + sx as int * a,
                ;
                assert(i32::MIN <= x0 as int + sx as int * (i + 1) <= i32::MAX)
                    by (nonlinear_arith)
                    requires
                        sx == 1 || sx == -1,
                        0 <= i + 1 <= a,
                        x1 as int == x0 as int + sx as int * a,
                        i32::MIN <= x0 as int <= i32::MAX,
                        i32::MIN <= x1 as int <= i32::MAX,
                ;
                i = i + 1;
            }
            err = err + dy;
            x = x + sx;
        }
        if e2 <= dx {
            proof {
                lemma_bresenham_step_y(a as int, b as int, i0, j, err as int + if i != i0 {
                    b as int
                } else {
                    0int
                });
                assert(a * (1 + (j + 1)) - b * (1 + i) == a * (1 + j) - b * (1 + i) + a)
                    by (nonlinear_arith);
                assert(sy as int * (j + 1) == sy as int * j + sy as int) by (nonlinear_arith);
                assert(i32::MIN <= y0 as int + sy as int * (j + 1) <= i32::MAX)
                    by (nonlinear_arith)
                    requires
                        sy == 1 || sy == -1,
                        0 <= j + 1 <= b,
                        y1 as int == y0 as int + sy as int * b,
                        i32::MIN <= y0 as int <= i32::MAX,
                        i32::MIN <= y1 as int <= i32::MAX,
                ;
                j = j + 1;
            }
            err = err + dx;
            y = y + sy;
        }
        proof {
            if i == i0 && j == j0 {
                assert(false);
            }
            let ga = a as int;
            let gb = b as int;
            assert(i == bres_next_i(ga, gb, i0, j0) && j == bres_next_j(ga, gb, i0, j0));
            lemma_bres_next_ok(ga, gb, i0, j0);
            lemma_bres_hits_step(ga, gb, 0, 0, i0, j0);
            assert(bres_hits(ga, gb, 0, 0, i, j));
            assert forall|px: int, py: int|
                old(buffer).in_bounds(px, py) implies #[trigger] buffer.pixel(px, py) =~= if
                line_painted(ga, gb, sx as int, sy as int, x0 as int, y0 as int, i, j, px, py) {
                color@
            } else {
                old(buffer).pixel(px, py)
            } by {
                if px == x0 as int + sx as int * i0 && py == y0 as int + sy as int * j0 {
                    assert(buffer.pixel(px, py) =~= color@);
                    if bres_hits(ga, gb, i, j, i0, j0) {
                        lemma_bres_hits_measure(ga, gb, i, j, i0, j0);
                        assert(false);
                    }
                    assert(line_painted(
                        ga,
                        gb,
                        sx as int,
                        sy as int,
                        x0 as int,
                        y0 as int,
                        i,
                        j,
                        px,
                        py,
                    ));
                } else {
                    if line_painted(ga, gb, sx as int, sy as int, x0 as int, y0 as int, i0, j0, px, py) {
                        let (ti, tj) = choose|ti: int, tj: int|
                            #![trigger bres_hits(ga, gb, i0, j0, ti, tj)]
                            bres_hits(ga, gb, 0, 0, ti, tj) && !bres_hits(ga, gb, i0, j0, ti, tj)
                                && px == x0 as int + sx as int * ti && py == y0 as int + sy as int
                                * tj;
                        assert(!bres_hits(ga, gb, i, j, ti, tj)) by {
                            if bres_hits(ga, gb, i, j, ti, tj) {
                                assert(bres_hits(ga, gb, i0, j0, ti, tj));
                            }
                        }
                        assert(line_painted(
                            ga,
                            gb,
                            sx as int,
                            sy as int,
                            x0 as int,
                            y0 as int,
                            i,
                            j,
                            px,
                            py,
                        ));
                    }
                    if line_painted(ga, gb, sx as int, sy as int, x0 as int, y0 as int, i, j, px, py) {
                        let (ti, tj) = choose|ti: int, tj: int|
                            #![trigger bres_hits(ga, gb, i, j, ti, tj)]
                            bres_hits(ga, gb, 0, 0, ti, tj) && !bres_hits(ga, gb, i, j, ti, tj)
                                && px == x0 as int + sx as int * ti && py == y0 as int + sy as int
                                * tj;
                        assert(!(ti == i0 && tj == j0)) by {
                            if ti == i0 && tj == j0 {
                                assert(px == x0 as int + sx as int * i0);
                            }
                        }
                        assert(!bres_hits(ga, gb, i0, j0, ti, tj));
                        assert(line_painted(
                            ga,
                            gb,
                            sx as int,
                            sy as int,
                            x0 as int,
                            y0 as int,
                            i0,
                            j0,
                            px,
                            py,
                        ));
                        assert(buffer.pixel(px, py) =~= color@);
                    }
                }
            }
        }
    }
    Ok(())
}

/// The nonnegative integer nearest to the square root of `d`: the unique `r`
/// with `r*r - r < d <= r*r + r` (and 0 for 0), which is `sqrt(d)` rounded to
/// the nearest integer.
pub open spec fn rounded_sqrt_from(d: int, r: int) -> int
    decreases d - r
        when 0 <= r <= d
{
    if r * r + r >= d {
        r
    } else {
        rounded_sqrt_from(d, r + 1)
    }
}

/// Radius of the circle through (end_x, end_y) around (cx, cy): the rounded
/// Euclidean distance between the two points.
pub open spec fn spec_circle_radius(cx: int, cy: int, ex: int, ey: int) -> int {
    rounded_sqrt_from((ex - cx) * (ex - cx) + (ey - cy) * (ey - cy), 0)
}

/// Membership in the filled disc of radius `rr` around (cx, cy).
pub open spec fn in_disc(cx: int, cy: int, rr: int, px: int, py: int) -> bool {
    (px - cx) * (px - cx) + (py - cy) * (py - cy) <= rr * rr
}

/// Membership in the square box of half-side `rr` around (cx, cy).
pub open spec fn in_circle_box(cx: int, cy: int, rr: int, px: int, py: int) -> bool {
    cx - rr <= px <= cx + rr && cy - rr <= py <= cy + rr
}

/// Computes [`rounded_sqrt_from`]`(d, 0)` by searching upward for the first
/// `r` with `r*r + r >= d`.
fn rounded_sqrt(d: i64) -> (r: i64)
    requires
        0 <= d <= 0x2000_0000_0000_0000,
    ensures
        r as int == rounded_sqrt_from(d as int, 0),
        0 <= r,
        d <= r * r + r,
        d > 0 ==> r * r - r < d && r >= 1,
        d == 0 ==> r == 0,
{
    let mut r: i64 = 0;
    while r * r + r < d
        invariant
            0 <= r <= d,
            r * r - r < d || (r == 0 && d == 0),
            rounded_sqrt_from(d as int, 0) == rounded_sqrt_from(d as int, r as int),
            0 <= d <= 0x2000_0000_0000_0000,
            r <= 0x1_0000_0000,
        decreases d - r,
    {
        proof {
            assert((r + 1) * (r + 1) - (r + 1) == r * r + r) by (nonlinear_arith);
            assert(r + 1 <= 0x1_0000_0000) by (nonlinear_arith)
                requires
                    0 <= r,
                    r * r + r < 0x2000_0000_0000_0000,
            ;
        }
        r = r + 1;
    }
    r
}

/// Draws a circle around (center_x, center_y) whose radius is the rounded
/// distance to (end_x, end_y); radius zero is a no-op. Filled mode paints
/// every pixel of the disc; outline mode walks the midpoint algorithm with
/// eight-way symmetry. Pixels with a negative coordinate are clipped
/// silently; one beyond the canvas on the other sides fails the call, leaving
/// the pixels drawn so far. Every write stays within the bounding box of the
/// circle, and when the box's nonnegative part lies on the canvas the call
/// succeeds.
pub fn circle(
    buffer: &mut PixelBuffer,
    center_x: i32,
    center_y: i32,
    end_x: i32,
    end_y: i32,
    color: [u8; 4],
    filled: bool,
) -> (r: Result<(), String>)
    requires
        old(buffer).wf(),
        -0x1000_0000 <= center_x <= 0x1000_0000,
        -0x1000_0000 <= center_y <= 0x1000_0000,
        -0x1000_0000 <= end_x <= 0x1000_0000,
        -0x1000_0000 <= end_y <= 0x1000_0000,
    ensures
        final(buffer).wf(),
        final(buffer).width == old(buffer).width,
        final(buffer).height == old(buffer).height,
        forall|px: int, py: int|
            old(buffer).in_bounds(px, py) ==> final(buffer).pixel(px, py) =~= old(buffer).pixel(
                px,
                py,
            ) || final(buffer).pixel(px, py) =~= color@,
        forall|px: int, py: int|
            old(buffer).in_bounds(px, py) && !in_circle_box(
                center_x as int,
                center_y as int,
                spec_circle_radius(center_x as int, center_y as int, end_x as int, end_y as int),
                px,
                py,
            ) ==> final(buffer).pixel(px, py) =~= old(buffer).pixel(px, py),
        spec_circle_radius(center_x as int, center_y as int, end_x as int, end_y as int) == 0
            ==> r is Ok && *final(buffer) == *old(buffer),
        (center_x as int + spec_circle_radius(
            center_x as int,
            center_y as int,
            end_x as int,
            end_y as int,
        )) < old(buffer).width as int && (center_y as int + spec_circle_radius(
            center_x as int,
            center_y as int,
            end_x as int,
            end_y as int,
        )) < old(buffer).height as int ==> r is Ok,
        r is Ok && filled && spec_circle_radius(
            center_x as int,
            center_y as int,
            end_x as int,
            end_y as int,
        ) > 0 ==> forall|px: int, py: int|
            old(buffer).in_bounds(px, py) ==> final(buffer).pixel(px, py) =~= if in_disc(
                center_x as int,
                center_y as int,
                spec_circle_radius(center_x as int, center_y as int, end_x as int, end_y as int),
                px,
                py,
            ) {
                color@
            } else {
                old(buffer).pixel(px, py)
            },
        !filled ==> r is Ok,
        !filled && spec_circle_radius(
            center_x as int,
            center_y as int,
            end_x as int,
            end_y as int,
        ) > 0 ==> forall|px: int, py: int|
            old(buffer).in_bounds(px, py) ==> #[trigger] final(buffer).pixel(px, py) =~= if
                on_circle_outline(
                spec_circle_radius(center_x as int, center_y as int, end_x as int, end_y as int),
                px - center_x as int,
                py - center_y as int,
            ) {
                color@
            } else {
                old(buffer).pixel(px, py)
            },
        !filled && spec_circle_radius(
            center_x as int,
            center_y as int,
            end_x as int,
            end_y as int,
        ) > 0 ==> cardinal_points_colored(
            *final(buffer),
            center_x as int,
            center_y as int,
            spec_circle_radius(center_x as int, center_y as int, end_x as int, end_y as int),
            color@,
        ),
{
    let dx: i64 = end_x as i64 - center_x as i64;
    let dy: i64 = end_y as i64 - center_y as i64;
    proof {
        assert(dx * dx + dy * dy <= 0x0900_0000_0000_0000) by (nonlinear_arith)
            requires
                -0x2000_0001 <= dx <= 0x2000_0001,
                -0x2000_0001 <= dy <= 0x2000_0001,
        ;
        assert(0 <= dx * dx && 0 <= dy * dy) by (nonlinear_arith);
    }
    let dsq: i64 = dx * dx + dy * dy;
    let radius_i64: i64 = rounded_sqrt(dsq);
    proof {
        assert(0 <= radius_i64 && radius_i64 * radius_i64 - radius_i64 < 0x0900_0000_0000_0001
            ==> radius_i64 <= 0x4000_0000) by (nonlinear_arith);
    }
    let radius: i32 = radius_i64 as i32;
    let ghost rr = spec_circle_radius(center_x as int, center_y as int, end_x as int, end_y as int);
    proof {
        assert(radius as int == rr);
    }
    if radius == 0 {
        return Ok(());
    }
    let res = if filled {
        fill_disc(buffer, center_x, center_y, radius, color)
    } else {
        outline_circle(buffer, center_x, center_y, radius, color);
        Ok(())
    };
    proof {
        assert forall|px: int, py: int|
            old(buffer).in_bounds(px, py) && !in_circle_box(
                center_x as int,
                center_y as int,
                rr,
                px,
                py,
            ) implies buffer.pixel(px, py) =~= old(buffer).pixel(px, py) by {
            if in_disc(center_x as int, center_y as int, rr, px, py) {
                lemma_disc_in_box(center_x as int, center_y as int, rr, px, py);
            }
            if !filled && on_circle_outline(rr, px - center_x as int, py - center_y as int) {
                lemma_midpoint_min(
                    rr,
                    0,
                    1 - rr,
                    px - center_x as int,
                    py - center_y as int,
                );
                assert(false);
            }
        }
        if !filled {
            assert(oct8(rr, 0, rr, 0) && oct8(rr, 0, -rr, 0) && oct8(rr, 0, 0, rr) && oct8(
                rr,
                0,
                0,
                -rr,
            ));
            assert(on_circle_outline(rr, rr, 0) && on_circle_outline(rr, -rr, 0)
                && on_circle_outline(rr, 0, rr) && on_circle_outline(rr, 0, -rr));
        }
    }
    res
}

/// A point of the disc lies in the circle's bounding box.
proof fn lemma_disc_in_box(cx: int, cy: int, rr: int, px: int, py: int)
    requires
        0 <= rr,
        in_disc(cx, cy, rr, px, py),
    ensures
        in_circle_box(cx, cy, rr, px, py),
{
    assert((px - cx) * (px - cx) + (py - cy) * (py - cy) <= rr * rr && 0 <= rr ==> -rr <= px - cx
        <= rr && -rr <= py - cy <= rr) by (nonlinear_arith);
}

/// Paints every pixel of the disc of radius `radius` around the center,
/// scanning its bounding box row by row.
fn fill_disc(buffer: &mut PixelBuffer, cx: i32, cy: i32, radius: i32, color: [u8; 4]) -> (r:
    Result<(), String>)
    requires
        old(buffer).wf(),
        -0x1000_0000 <= cx <= 0x1000_0000,
        -0x1000_0000 <= cy <= 0x1000_0000,
        1 <= radius <= 0x4000_0000,
    ensures
        final(buffer).wf(),
        final(buffer).width == old(buffer).width,
        final(buffer).height == old(buffer).height,
        forall|px: int, py: int|
            old(buffer).in_bounds(px, py) ==> final(buffer).pixel(px, py) =~= old(buffer).pixel(
                px,
                py,
            ) || final(buffer).pixel(px, py) =~= color@,
        forall|px: int, py: int|
            old(buffer).in_bounds(px, py) && !in_disc(cx as int, cy as int, radius as int, px, py)
                ==> final(buffer).pixel(px, py) =~= old(buffer).pixel(px, py),
        (cx as int + radius as int) < old(buffer).width as int && (cy as int + radius as int)
            < old(buffer).height as int ==> r is Ok,
        r is Ok ==> forall|px: int, py: int|
            old(buffer).in_bounds(px, py) ==> final(buffer).pixel(px, py) =~= if in_disc(
                cx as int,
                cy as int,
                radius as int,
                px,
                py,
            ) {
                color@
            } else {
                old(buffer).pixel(px, py)
            },
{
    proof {
        assert forall|px: int, py: int|
            in_disc(cx as int, cy as int, radius as int, px, py) implies in_circle_box(
            cx as int,
            cy as int,
            radius as int,
            px,
            py,
        ) by {
            lemma_disc_in_box(cx as int, cy as int, radius as int, px, py);
        }
    }
    let mut yr: i32 = -radius;
    loop
        invariant_except_break
            forall|px: int, py: int|
                buffer.in_bounds(px, py) ==> #[trigger] buffer.pixel(px, py) =~= if in_disc(
                    cx as int,
                    cy as int,
                    radius as int,
                    px,
                    py,
                ) && py - cy < yr {
                    color@
                } else {
                    old(buffer).pixel(px, py)
                },
        invariant
            buffer.wf(),
            buffer.width == old(buffer).width,
            buffer.height == old(buffer).height,
            -0x1000_0000 <= cx <= 0x1000_0000,
            -0x1000_0000 <= cy <= 0x1000_0000,
            1 <= radius <= 0x4000_0000,
            -radius <= yr <= radius,
        ensures
            buffer.wf(),
            buffer.width == old(buffer).width,
            buffer.height == old(buffer).height,
            forall|px: int, py: int|
                buffer.in_bounds(px, py) ==> #[trigger] buffer.pixel(px, py) =~= if in_disc(
                    cx as int,
                    cy as int,
                    radius as int,
                    px,
                    py,
                ) {
                    color@
                } else {
                    old(buffer).pixel(px, py)
                },
        decreases radius - yr,
    {
        proof {
            assert forall|px: int, py: int|
                in_disc(cx as int, cy as int, radius as int, px, py) implies in_circle_box(
                cx as int,
                cy as int,
                radius as int,
                px,
                py,
            ) by {
                lemma_disc_in_box(cx as int, cy as int, radius as int, px, py);
            }
        }
        let mut xr: i32 = -radius;
        loop
            invariant_except_break
                forall|px: int, py: int|
                    buffer.in_bounds(px, py) ==> #[trigger] buffer.pixel(px, py) =~= if in_disc(
                        cx as int,
                        cy as int,
                        radius as int,
                        px,
                        py,
                    ) && (py - cy < yr || (py - cy == yr && px - cx < xr)) {
                        color@
                    } else {
                        old(buffer).pixel(px, py)
                    },
            invariant
                buffer.wf(),
                buffer.width == old(buffer).width,
                buffer.height == old(buffer).height,
                -0x1000_0000 <= cx <= 0x1000_0000,
                -0x1000_0000 <= cy <= 0x1000_0000,
                1 <= radius <= 0x4000_0000,
                -radius <= yr <= radius,
                -radius <= xr <= radius,
            ensures
                buffer.wf(),
                buffer.width == old(buffer).width,
                buffer.height == old(buffer).height,
                -radius <= yr <= radius,
                forall|px: int, py: int|
                    buffer.in_bounds(px, py) ==> #[trigger] buffer.pixel(px, py) =~= if in_disc(
                        cx as int,
                        cy as int,
                        radius as int,
                        px,
                        py,
                    ) && py - cy <= yr {
                        color@
                    } else {
                        old(buffer).pixel(px, py)
                    },
            decreases radius - xr,
        {
            proof {
                assert(0 <= (xr as int) * (xr as int) <= 0x1000_0000_0000_0000 && 0 <= (
                yr as int) * (yr as int) <= 0x1000_0000_0000_0000 && 0 <= (radius as int) * (
                radius as int) <= 0x1000_0000_0000_0000) by (nonlinear_arith)
                    requires
                        -0x4000_0000 <= xr <= 0x4000_0000,
                        -0x4000_0000 <= yr <= 0x4000_0000,
                        0 <= radius <= 0x4000_0000,
                ;
            }
            if (xr as i64) * (xr as i64) + (yr as i64) * (yr as i64) <= (radius as i64) * (
            radius as i64) {
                let px = cx + xr;
                let py = cy + yr;
                if px >= 0 && py >= 0 {
                    match buffer.set_pixel(px as u32, py as u32, color) {
                        Ok(_) => {},
                        Err(e) => {
                            return Err(e);
                        },
                    }
                }
            }
            if xr == radius {
                proof {
                    assert forall|px: int, py: int|
                        buffer.in_bounds(px, py) implies #[trigger] buffer.pixel(px, py) =~= if
                        in_disc(cx as int, cy as int, radius as int, px, py) && py - cy <= yr {
                        color@
                    } else {
                        old(buffer).pixel(px, py)
                    } by {
                        if in_disc(cx as int, cy as int, radius as int, px, py) {
                            lemma_disc_in_box(cx as int, cy as int, radius as int, px, py);
                        }
                    }
                }
                break ;
            }
            xr = xr + 1;
        }
        if yr == radius {
            proof {
                assert forall|px: int, py: int|
                    buffer.in_bounds(px, py) implies #[trigger] buffer.pixel(px, py) =~= if
                    in_disc(cx as int, cy as int, radius as int, px, py) {
                    color@
                } else {
                    old(buffer).pixel(px, py)
                } by {
                    if in_disc(cx as int, cy as int, radius as int, px, py) {
                        lemma_disc_in_box(cx as int, cy as int, radius as int, px, py);
                    }
                }
            }
            break ;
        }
        yr = yr + 1;
    }
    Ok(())
}

/// The eight symmetric points of one midpoint step, as offsets from the
/// center.
pub open spec fn oct8(x: int, y: int, ox: int, oy: int) -> bool {
    ||| ((ox == x || ox == -x) && (oy == y || oy == -y))
    ||| ((ox == y || ox == -y) && (oy == x || oy == -x))
}

/// The offsets the midpoint walk emits from state (x, y, d) until it stops:
/// each step's eight symmetric points, with y rising and x shrinking as the
/// decision variable dictates.
pub open spec fn midpoint_member(x: int, y: int, d: int, ox: int, oy: int) -> bool
    decreases x - y + 2,
{
    if y > x {
        false
    } else {
        oct8(x, y, ox, oy) || if d <= 0 {
            midpoint_member(x, y + 1, d + 2 * (y + 1) + 1, ox, oy)
        } else {
            midpoint_member(x - 1, y + 1, d + 2 * ((y + 1) - (x - 1)) + 1, ox, oy)
        }
    }
}

/// The offsets of the outlined circle of radius `rr`: the full midpoint walk.
pub open spec fn on_circle_outline(rr: int, ox: int, oy: int) -> bool {
    midpoint_member(rr, 0, 1 - rr, ox, oy)
}

/// Absolute value.
pub open spec fn iabs(v: int) -> int {
    if v >= 0 {
        v
    } else {
        -v
    }
}

/// Offsets the walk emits from a state with scan row `y` never come closer to
/// an axis than `y`: each later step's points have both coordinate magnitudes
/// at least the step's row, and rows only rise. So a point belongs to exactly
/// one step: the one whose row is the point's smaller coordinate magnitude.
proof fn lemma_midpoint_min(x: int, y: int, d: int, ox: int, oy: int)
    requires
        0 <= y,
        midpoint_member(x, y, d, ox, oy),
    ensures
        iabs(ox) >= y && iabs(oy) >= y,
        iabs(ox) <= x && iabs(oy) <= x,
    decreases x - y + 2,
{
    if !oct8(x, y, ox, oy) {
        if d <= 0 {
            lemma_midpoint_min(x, y + 1, d + 2 * (y + 1) + 1, ox, oy);
        } else {
            lemma_midpoint_min(x - 1, y + 1, d + 2 * ((y + 1) - (x - 1)) + 1, ox, oy);
        }
    }
}

/// Draws the eight symmetric points of one midpoint step, each bounds-checked
/// independently: exactly the on-canvas points of the step take `color`.
#[verifier::rlimit(100)]
fn draw_octant_points(buffer: &mut PixelBuffer, cx: i32, cy: i32, x: i32, y: i32, color: [u8; 4])
    requires
        old(buffer).wf(),
        -0x1000_0000 <= cx <= 0x1000_0000,
        -0x1000_0000 <= cy <= 0x1000_0000,
        0 <= y <= x <= 0x4000_0000,
    ensures
        final(buffer).wf(),
        final(buffer).width == old(buffer).width,
        final(buffer).height == old(buffer).height,
        forall|px: int, py: int|
            old(buffer).in_bounds(px, py) ==> #[trigger] final(buffer).pixel(px, py) =~= if oct8(
                x as int,
                y as int,
                px - cx as int,
                py - cy as int,
            ) {
                color@
            } else {
                old(buffer).pixel(px, py)
            },
{
    let p1x = cx + x;
    let p1y = cy + y;
    if p1x >= 0 && p1y >= 0 {
        let _ = buffer.set_pixel(p1x as u32, p1y as u32, color);
    }
    let p2x = cx - x;
    let p2y = cy + y;
    if p2x >= 0 && p2y >= 0 {
        let _ = buffer.set_pixel(p2x as u32, p2y as u32, color);
    }
    let p3x = cx + x;
    let p3y = cy - y;
    if p3x >= 0 && p3y >= 0 {
        let _ = buffer.set_pixel(p3x as u32, p3y as u32, color);
    }
    let p4x = cx - x;
    let p4y = cy - y;
    if p4x >= 0 && p4y >= 0 {
        let _ = buffer.set_pixel(p4x as u32, p4y as u32, color);
    }
    let p5x = cx + y;
    let p5y = cy + x;
    if p5x >= 0 && p5y >= 0 {
        let _ = buffer.set_pixel(p5x as u32, p5y as u32, color);
    }
    let p6x = cx - y;
    let p6y = cy + x;
    if p6x >= 0 && p6y >= 0 {
        let _ = buffer.set_pixel(p6x as u32, p6y as u32, color);
    }
    let p7x = cx + y;
    let p7y = cy - x;
    if p7x >= 0 && p7y >= 0 {
        let _ = buffer.set_pixel(p7x as u32, p7y as u32, color);
    }
    let p8x = cx - y;
    let p8y = cy - x;
    if p8x >= 0 && p8y >= 0 {
        let _ = buffer.set_pixel(p8x as u32, p8y as u32, color);
    }
    proof {
        assert forall|px: int, py: int|
            old(buffer).in_bounds(px, py) implies #[trigger] buffer.pixel(px, py) =~= if oct8(
            x as int,
            y as int,
            px - cx as int,
            py - cy as int,
        ) {
            color@
        } else {
            old(buffer).pixel(px, py)
        } by {
            let ox = px - cx as int;
            let oy = py - cy as int;
            if oct8(x as int, y as int, ox, oy) {
                assert((ox == x as int || ox == -(x as int)) && (oy == y as int || oy == -(
                y as int)) || (ox == y as int || ox == -(y as int)) && (oy == x as int || oy == -(
                x as int)));
            }
        }
    }
}

/// Walks the midpoint circle algorithm, drawing the eight symmetric points of
/// each step. Each candidate point is bounds-checked independently: points
/// off the canvas are skipped, never an error. Exactly the on-canvas points
/// of the walk take `color`.
#[verifier::rlimit(100)]
fn outline_circle(buffer: &mut PixelBuffer, cx: i32, cy: i32, radius: i32, color: [u8; 4])
    requires
        old(buffer).wf(),
        -0x1000_0000 <= cx <= 0x1000_0000,
        -0x1000_0000 <= cy <= 0x1000_0000,
        1 <= radius <= 0x4000_0000,
    ensures
        final(buffer).wf(),
        final(buffer).width == old(buffer).width,
        final(buffer).height == old(buffer).height,
        forall|px: int, py: int|
            old(buffer).in_bounds(px, py) ==> #[trigger] final(buffer).pixel(px, py) =~= if
                on_circle_outline(radius as int, px - cx as int, py - cy as int) {
                color@
            } else {
                old(buffer).pixel(px, py)
            },
{
    let mut x: i32 = radius;
    let mut y: i32 = 0;
    let mut d: i128 = 1 - radius as i128;
    proof {
        assert forall|px: int, py: int|
            old(buffer).in_bounds(px, py) implies #[trigger] buffer.pixel(px, py) =~= if
            on_circle_outline(radius as int, px - cx as int, py - cy as int) && !midpoint_member(
            radius as int,
            0,
            1 - radius as int,
            px - cx as int,
            py - cy as int,
        ) {
            color@
        } else {
            old(buffer).pixel(px, py)
        } by {
        }
    }
    loop
        invariant
            buffer.wf(),
            buffer.width == old(buffer).width,
            buffer.height == old(buffer).height,
            -0x1000_0000 <= cx <= 0x1000_0000,
            -0x1000_0000 <= cy <= 0x1000_0000,
            1 <= radius <= 0x4000_0000,
            -1 <= x <= radius,
            0 <= y <= radius + 1,
            y == 0 ==> x == radius,
            -(1 + radius as int + (y as int + 1) * (4 * radius as int + 6)) <= d as int <= 1
                + radius as int + (y as int + 1) * (4 * radius as int + 6),
            forall|ox: int, oy: int|
                #[trigger] midpoint_member(x as int, y as int, d as int, ox, oy)
                    ==> on_circle_outline(radius as int, ox, oy),
            forall|px: int, py: int|
                old(buffer).in_bounds(px, py) ==> #[trigger] buffer.pixel(px, py) =~= if
                    on_circle_outline(radius as int, px - cx as int, py - cy as int)
                    && !midpoint_member(
                    x as int,
                    y as int,
                    d as int,
                    px - cx as int,
                    py - cy as int,
                ) {
                    color@
                } else {
                    old(buffer).pixel(px, py)
                },
        ensures
            buffer.wf(),
            buffer.width == old(buffer).width,
            buffer.height == old(buffer).height,
            forall|px: int, py: int|
                old(buffer).in_bounds(px, py) ==> #[trigger] buffer.pixel(px, py) =~= if
                    on_circle_outline(radius as int, px - cx as int, py - cy as int) {
                    color@
                } else {
                    old(buffer).pixel(px, py)
                },
        decreases x - y + 2,
    {
        if y > x {
            proof {
                assert forall|px: int, py: int|
                    old(buffer).in_bounds(px, py) implies #[trigger] buffer.pixel(px, py) =~= if
                    on_circle_outline(radius as int, px - cx as int, py - cy as int) {
                    color@
                } else {
                    old(buffer).pixel(px, py)
                } by {
                    assert(!midpoint_member(
                        x as int,
                        y as int,
                        d as int,
                        px - cx as int,
                        py - cy as int,
                    ));
                }
            }
            break ;
        }
        let ghost pre = *buffer;
        let ghost x0 = x as int;
        let ghost y0 = y as int;
        let ghost d0 = d as int;
        draw_octant_points(buffer, cx, cy, x, y, color);
        proof {
            assert((y as int + 2) * (4 * radius as int + 6) == (y as int + 1) * (4 * radius as int
                + 6) + (4 * radius as int + 6)) by (nonlinear_arith);
            assert((y as int + 2) * (4 * radius as int + 6) <= 0x8000_0000_0000_0000)
                by (nonlinear_arith)
                requires
                    0 <= y <= 0x4000_0001,
                    1 <= radius <= 0x4000_0000,
            ;
        }
        y = y + 1;
        if d <= 0 {
            d = d + 2 * (y as i128) + 1;
        } else {
            x = x - 1;
            d = d + 2 * ((y as i128) - (x as i128)) + 1;
        }
        proof {
            let ghost mnext_x = x as int;
            let ghost mnext_y = y as int;
            let ghost mnext_d = d as int;
            assert forall|ox: int, oy: int|
                #[trigger] midpoint_member(mnext_x, mnext_y, mnext_d, ox, oy)
                    implies on_circle_outline(radius as int, ox, oy) by {
                assert(midpoint_member(x0, y0, d0, ox, oy));
            }
            assert forall|px: int, py: int|
                old(buffer).in_bounds(px, py) implies #[trigger] buffer.pixel(px, py) =~= if
                on_circle_outline(radius as int, px - cx as int, py - cy as int)
                && !midpoint_member(mnext_x, mnext_y, mnext_d, px - cx as int, py - cy as int) {
                color@
            } else {
                old(buffer).pixel(px, py)
            } by {
                let ox = px - cx as int;
                let oy = py - cy as int;
                if oct8(x0, y0, ox, oy) {
                    assert(midpoint_member(x0, y0, d0, ox, oy));
                    assert(on_circle_outline(radius as int, ox, oy));
                    assert(buffer.pixel(px, py) =~= color@);
                    if midpoint_member(mnext_x, mnext_y, mnext_d, ox, oy) {
                        lemma_midpoint_min(mnext_x, mnext_y, mnext_d, ox, oy);
                        assert(iabs(ox) >= y0 + 1 && iabs(oy) >= y0 + 1);
                        assert(iabs(ox) == y0 || iabs(oy) == y0);
                        assert(false);
                    }
                } else {
                    assert(buffer.pixel(px, py) =~= pre.pixel(px, py));
                    assert(midpoint_member(x0, y0, d0, ox, oy) == midpoint_member(
                        mnext_x,
                        mnext_y,
                        mnext_d,
                        ox,
                        oy,
                    ));
                }
            }
        }
    }
}

/// The four axis-aligned extreme points of the circle hold `color` wherever
/// they lie on the canvas.
pub open spec fn cardinal_points_colored(
    b: PixelBuffer,
    cx: int,
    cy: int,
    rr: int,
    color: Seq<u8>,
) -> bool {
    &&& b.in_bounds(cx + rr, cy) ==> b.pixel(cx + rr, cy) =~= color
    &&& b.in_bounds(cx - rr, cy) ==> b.pixel(cx - rr, cy) =~= color
    &&& b.in_bounds(cx, cy + rr) ==> b.pixel(cx, cy + rr) =~= color
    &&& b.in_bounds(cx, cy - rr) ==> b.pixel(cx, cy - rr) =~= color
}

/// The four bytes of the pixel at flat index `i` of the buffer.
pub open spec fn pixel_at_index(b: PixelBuffer, i: int) -> Seq<u8> {
    b.data@.subrange(4 * i, 4 * i + 4)
}

/// How many of the first `n` pixels hold exactly the bytes `target`. The
/// flood fill terminates because every write lowers this count.
pub open spec fn count_matching(b: PixelBuffer, target: Seq<u8>, n: int) -> int
    decreases n,
{
    if n <= 0 {
        0
    } else {
        count_matching(b, target, n - 1) + if pixel_at_index(b, n - 1) == target {
            1int
        } else {
            0int
        }
    }
}

/// The count of matching pixels never goes negative.
proof fn lemma_count_nonneg(b: PixelBuffer, target: Seq<u8>, n: int)
    ensures
        0 <= count_matching(b, target, n),
    decreases n,
{
    if n > 0 {
        lemma_count_nonneg(b, target, n - 1);
    }
}

/// Every flat pixel index splits into in-bounds coordinates.
proof fn lemma_index_decompose(b: PixelBuffer, j: int)
    requires
        b.wf(),
        0 <= j < b.width as int * b.height as int,
    ensures
        b.in_bounds(j % (b.width as int), j / (b.width as int)),
        j == (j / (b.width as int)) * b.width as int + j % (b.width as int),
{
    let w = b.width as int;
    let h = b.height as int;
    assert(w > 0) by (nonlinear_arith)
        requires
            0 <= w,
            0 <= h,
            0 <= j < w * h,
    ;
    assert(0 <= j % w < w && j == w * (j / w) + j % w) by (nonlinear_arith)
        requires
            w > 0,
            0 <= j,
    ;
    assert(0 <= j / w < h) by (nonlinear_arith)
        requires
            w > 0,
            0 <= j < w * h,
            j == w * (j / w) + j % w,
            0 <= j % w < w,
    ;
}

/// Rewriting one pixel away from `target` drops the count of matching pixels
/// among the first `n` by one if that pixel is among them.
proof fn lemma_count_after_set(b1: PixelBuffer, b2: PixelBuffer, target: Seq<u8>, k: int, n: int)
    requires
        b1.wf(),
        b2.wf(),
        b1.width == b2.width,
        b1.height == b2.height,
        0 <= k < b1.width as int * b1.height as int,
        pixel_at_index(b1, k) == target,
        pixel_at_index(b2, k) != target,
        forall|j: int|
            0 <= j < b1.width as int * b1.height as int && j != k ==> pixel_at_index(b2, j)
                == #[trigger] pixel_at_index(b1, j),
        n <= b1.width as int * b1.height as int,
    ensures
        count_matching(b2, target, n) == count_matching(b1, target, n) - if k < n {
            1int
        } else {
            0int
        },
    decreases n,
{
    if n > 0 {
        lemma_count_after_set(b1, b2, target, k, n - 1);
    }
}

/// The two cells share an edge.
pub open spec fn adjacent4(ax: int, ay: int, bx: int, by: int) -> bool {
    (ax == bx && (ay == by + 1 || ay + 1 == by)) || (ay == by && (ax == bx + 1 || ax + 1 == bx))
}

/// `path` walks from the seed (sx, sy) to (px, py) through 4-connected
/// cells, every cell after the seed lying on the canvas and holding exactly
/// `target`.
#[verifier::opaque]
pub open spec fn valid_fill_path(
    b: PixelBuffer,
    target: Seq<u8>,
    sx: int,
    sy: int,
    path: Seq<(int, int)>,
    px: int,
    py: int,
) -> bool {
    &&& path.len() >= 1
    &&& path[0] == (sx, sy)
    &&& path.last() == (px, py)
    &&& forall|i: int|
        1 <= i < path.len() ==> adjacent4(
            path[i - 1].0,
            path[i - 1].1,
            (#[trigger] path[i]).0,
            path[i].1,
        )
    &&& forall|i: int|
        1 <= i < path.len() ==> b.in_bounds((#[trigger] path[i]).0, path[i].1) && b.pixel(
            path[i].0,
            path[i].1,
        ) == target
}

/// A queued coordinate is either the seed itself or the neighbor of some
/// cell already known reachable.
pub open spec fn queue_entry_ok(
    b: PixelBuffer,
    target: Seq<u8>,
    x: u32,
    y: u32,
    e: (u32, u32),
) -> bool {
    e == (x, y) || exists|qx: int, qy: int|
        adjacent4(qx, qy, e.0 as int, e.1 as int) && #[trigger] fill_reachable(
            b,
            target,
            x as int,
            y as int,
            qx,
            qy,
        )
}

/// (px, py) lies in the seed's 4-connected region of `target`-colored pixels.
pub open spec fn fill_reachable(
    b: PixelBuffer,
    target: Seq<u8>,
    sx: int,
    sy: int,
    px: int,
    py: int,
) -> bool {
    exists|path: Seq<(int, int)>| valid_fill_path(b, target, sx, sy, path, px, py)
}

/// The cell held exactly `target` on the original canvas and holds `newc`
/// now: the fill has painted it.
pub open spec fn filled_cell(
    b0: PixelBuffer,
    b: PixelBuffer,
    target: Seq<u8>,
    newc: Seq<u8>,
    px: int,
    py: int,
) -> bool {
    b0.in_bounds(px, py) && b0.pixel(px, py) == target && b.pixel(px, py) == newc
}

/// The coordinate (bx, by) sits somewhere in the queue.
pub open spec fn queued(q: Seq<(u32, u32)>, bx: int, by: int) -> bool {
    exists|i: int| 0 <= i < q.len() && (#[trigger] q[i]).0 == bx && q[i].1 == by
}

/// Every target-colored in-bounds neighbor of a painted cell is painted
/// itself or still waiting in the queue. With an empty queue this says the
/// painted region is closed under 4-adjacency, which forces every reachable
/// cell to be painted.
pub open spec fn frontier_ok(
    b0: PixelBuffer,
    b: PixelBuffer,
    target: Seq<u8>,
    newc: Seq<u8>,
    q: Seq<(u32, u32)>,
) -> bool {
    forall|ax: int, ay: int, bx: int, by: int|
        filled_cell(b0, b, target, newc, ax, ay) && #[trigger] adjacent4(ax, ay, bx, by)
            && b0.in_bounds(bx, by) && b0.pixel(bx, by) == target ==> filled_cell(
            b0,
            b,
            target,
            newc,
            bx,
            by,
        ) || queued(q, bx, by)
}

/// Popping a handled coordinate keeps the frontier property: the popped cell
/// is off the canvas, already painted, or was never target-colored, so it can
/// discharge every pair that pointed at it.
proof fn lemma_frontier_pop(
    b0: PixelBuffer,
    b: PixelBuffer,
    target: Seq<u8>,
    newc: Seq<u8>,
    q0: Seq<(u32, u32)>,
    q1: Seq<(u32, u32)>,
)
    requires
        q0.len() > 0,
        q1 == q0.subrange(1, q0.len() as int),
        frontier_ok(b0, b, target, newc, q0),
        !b0.in_bounds(q0[0].0 as int, q0[0].1 as int) || filled_cell(
            b0,
            b,
            target,
            newc,
            q0[0].0 as int,
            q0[0].1 as int,
        ) || b0.pixel(q0[0].0 as int, q0[0].1 as int) != target,
    ensures
        frontier_ok(b0, b, target, newc, q1),
{
    assert forall|ax: int, ay: int, bx: int, by: int|
        filled_cell(b0, b, target, newc, ax, ay) && #[trigger] adjacent4(ax, ay, bx, by)
            && b0.in_bounds(bx, by) && b0.pixel(bx, by) == target implies filled_cell(
        b0,
        b,
        target,
        newc,
        bx,
        by,
    ) || queued(q1, bx, by) by {
        if !filled_cell(b0, b, target, newc, bx, by) {
            assert(queued(q0, bx, by));
            let i = choose|i: int| 0 <= i < q0.len() && (#[trigger] q0[i]).0 == bx && q0[i].1 == by;
            if i == 0 {
                assert(false);
            } else {
                assert(q1[i - 1] == q0[i]);
            }
        }
    }
}

/// Painting one popped cell and queuing its on-canvas neighbors keeps the
/// frontier property.
proof fn lemma_frontier_fill(
    b0: PixelBuffer,
    pre: PixelBuffer,
    post: PixelBuffer,
    target: Seq<u8>,
    newc: Seq<u8>,
    q0: Seq<(u32, u32)>,
    q1: Seq<(u32, u32)>,
    px: u32,
    py: u32,
)
    requires
        frontier_ok(b0, pre, target, newc, q0),
        q0.len() > 0,
        q0[0] == (px, py),
        b0.in_bounds(px as int, py as int),
        post.pixel(px as int, py as int) == newc,
        forall|qx: int, qy: int|
            b0.in_bounds(qx, qy) && !(qx == px as int && qy == py as int) ==> post.pixel(qx, qy)
                =~= #[trigger] pre.pixel(qx, qy),
        b0.in_bounds(px as int - 1, py as int) ==> queued(q1, px as int - 1, py as int),
        b0.in_bounds(px as int + 1, py as int) ==> queued(q1, px as int + 1, py as int),
        b0.in_bounds(px as int, py as int - 1) ==> queued(q1, px as int, py as int - 1),
        b0.in_bounds(px as int, py as int + 1) ==> queued(q1, px as int, py as int + 1),
        q0.len() - 1 <= q1.len(),
        forall|i: int| 0 <= i < q0.len() - 1 ==> #[trigger] q1[i] == q0[i + 1],
    ensures
        frontier_ok(b0, post, target, newc, q1),
{
    assert forall|ax: int, ay: int, bx: int, by: int|
        filled_cell(b0, post, target, newc, ax, ay) && #[trigger] adjacent4(ax, ay, bx, by)
            && b0.in_bounds(bx, by) && b0.pixel(bx, by) == target implies filled_cell(
        b0,
        post,
        target,
        newc,
        bx,
        by,
    ) || queued(q1, bx, by) by {
        if !filled_cell(b0, post, target, newc, bx, by) {
            if ax == px as int && ay == py as int {
                assert(queued(q1, bx, by));
            } else {
                assert(pre.pixel(ax, ay) =~= post.pixel(ax, ay));
                assert(filled_cell(b0, pre, target, newc, ax, ay));
                if filled_cell(b0, pre, target, newc, bx, by) {
                    if bx == px as int && by == py as int {
                        assert(filled_cell(b0, post, target, newc, bx, by));
                    } else {
                        assert(pre.pixel(bx, by) =~= post.pixel(bx, by));
                    }
                } else {
                    assert(queued(q0, bx, by));
                    let i = choose|i: int|
                        0 <= i < q0.len() && (#[trigger] q0[i]).0 == bx && q0[i].1 == by;
                    if i == 0 {
                        assert(bx == px as int && by == py as int);
                        assert(filled_cell(b0, post, target, newc, bx, by));
                    } else {
                        assert(q1[i - 1] == q0[i]);
                    }
                }
            }
        }
    }
}

/// Pushing keeps everything queued and queues the pushed coordinate.
pub proof fn lemma_queued_push(q: Seq<(u32, u32)>, v: (u32, u32))
    ensures
        queued(q.push(v), v.0 as int, v.1 as int),
        forall|bx: int, by: int| queued(q, bx, by) ==> queued(q.push(v), bx, by),
        forall|i: int| 0 <= i < q.len() ==> #[trigger] q.push(v)[i] == q[i],
{
    assert(q.push(v)[q.len() as int] == v);
    assert forall|bx: int, by: int| queued(q, bx, by) implies queued(q.push(v), bx, by) by {
        let i = choose|i: int| 0 <= i < q.len() && (#[trigger] q[i]).0 == bx && q[i].1 == by;
        assert(q.push(v)[i] == q[i]);
    }
}

/// With the painted region closed under 4-adjacency (an empty frontier),
/// every cell reachable from a painted seed through target-colored cells is
/// painted: induction along the path.
proof fn lemma_closure_fills(
    b0: PixelBuffer,
    b: PixelBuffer,
    target: Seq<u8>,
    newc: Seq<u8>,
    sx: int,
    sy: int,
    path: Seq<(int, int)>,
    px: int,
    py: int,
)
    requires
        valid_fill_path(b0, target, sx, sy, path, px, py),
        filled_cell(b0, b, target, newc, sx, sy),
        frontier_ok(b0, b, target, newc, Seq::<(u32, u32)>::empty()),
    ensures
        filled_cell(b0, b, target, newc, px, py),
    decreases path.len(),
{
    reveal(valid_fill_path);
    if path.len() == 1 {
        assert(path[0] == (sx, sy) && path.last() == (px, py));
    } else {
        let prefix = path.drop_last();
        let prev = path[path.len() - 2];
        assert(prefix.last() == prev);
        assert forall|i: int|
            1 <= i < prefix.len() implies adjacent4(
            prefix[i - 1].0,
            prefix[i - 1].1,
            (#[trigger] prefix[i]).0,
            prefix[i].1,
        ) by {
            assert(prefix[i - 1] == path[i - 1] && prefix[i] == path[i]);
        }
        assert forall|i: int|
            1 <= i < prefix.len() implies b0.in_bounds((#[trigger] prefix[i]).0, prefix[i].1)
            && b0.pixel(prefix[i].0, prefix[i].1) == target by {
            assert(prefix[i] == path[i]);
        }
        assert(valid_fill_path(b0, target, sx, sy, prefix, prev.0, prev.1));
        lemma_closure_fills(b0, b, target, newc, sx, sy, prefix, prev.0, prev.1);
        let last = path.len() - 1;
        assert(adjacent4(path[last - 1].0, path[last - 1].1, path[last].0, path[last].1));
        assert(b0.in_bounds(path[last].0, path[last].1) && b0.pixel(path[last].0, path[last].1)
            == target);
        assert(!queued(Seq::<(u32, u32)>::empty(), px, py));
    }
}

/// After one flood-fill write the count of target-colored pixels drops by
/// exactly one.
proof fn lemma_fill_count_step(
    pre: PixelBuffer,
    post: PixelBuffer,
    target: Seq<u8>,
    newc: Seq<u8>,
    px: u32,
    py: u32,
)
    requires
        pre.wf(),
        post.wf(),
        pre.width == post.width,
        pre.height == post.height,
        pre.in_bounds(px as int, py as int),
        pre.pixel(px as int, py as int) == target,
        post.pixel(px as int, py as int) == newc,
        newc != target,
        forall|qx: int, qy: int|
            pre.in_bounds(qx, qy) && !(qx == px as int && qy == py as int) ==> post.pixel(qx, qy)
                =~= #[trigger] pre.pixel(qx, qy),
    ensures
        count_matching(post, target, pre.width as int * pre.height as int) == count_matching(
            pre,
            target,
            pre.width as int * pre.height as int,
        ) - 1,
{
    let width = pre.width;
    let height = pre.height;
    let total = width as int * height as int;
    let k = py as int * width as int + px as int;
    assert(pixel_at_index(pre, k) == pre.pixel(px as int, py as int));
    assert(pixel_at_index(post, k) == post.pixel(px as int, py as int));
    assert(0 <= k < total) by (nonlinear_arith)
        requires
            0 <= px < width,
            0 <= py < height,
            k == py as int * width as int + px as int,
            total == width as int * height as int,
    ;
    assert forall|j: int| 0 <= j < total && j != k implies pixel_at_index(post, j)
        == #[trigger] pixel_at_index(pre, j) by {
        lemma_index_decompose(pre, j);
        let jx = j % (width as int);
        let jy = j / (width as int);
        assert(!(jx == px as int && jy == py as int));
        assert(post.pixel(jx, jy) =~= pre.pixel(jx, jy));
        assert(pixel_at_index(pre, j) == pre.pixel(jx, jy));
        assert(pixel_at_index(post, j) == post.pixel(jx, jy));
    }
    lemma_count_after_set(pre, post, target, k, total);
}

/// Flood fill: breadth-first, 4-connected, exact-color match from the seed
/// pixel (x, y). Fails exactly when the seed is out of bounds, and then
/// changes nothing. When the seed already holds `new_color` the fill is a
/// no-op. Otherwise every pixel either keeps its bytes or held exactly the
/// seed's original color, was 4-connected to the seed through such pixels,
/// and now holds `new_color`; the seed itself is filled.
#[verifier::rlimit(100)]
pub fn fill(buffer: &mut PixelBuffer, x: u32, y: u32, new_color: [u8; 4]) -> (r: Result<
    (),
    String,
>)
    requires
        old(buffer).wf(),
    ensures
        final(buffer).wf(),
        final(buffer).width == old(buffer).width,
        final(buffer).height == old(buffer).height,
        r is Ok <==> old(buffer).in_bounds(x as int, y as int),
        r is Err ==> *final(buffer) == *old(buffer),
        r is Ok && old(buffer).pixel(x as int, y as int) =~= new_color@ ==> *final(buffer) == *old(
            buffer,
        ),
        forall|px: int, py: int|
            old(buffer).in_bounds(px, py) ==> #[trigger] final(buffer).pixel(px, py) =~= old(
                buffer,
            ).pixel(px, py) || (old(buffer).pixel(px, py) =~= old(buffer).pixel(
                x as int,
                y as int,
            ) && final(buffer).pixel(px, py) =~= new_color@ && fill_reachable(
                *old(buffer),
                old(buffer).pixel(x as int, y as int),
                x as int,
                y as int,
                px,
                py,
            )),
        r is Ok && !(old(buffer).pixel(x as int, y as int) =~= new_color@) ==> final(buffer).pixel(
            x as int,
            y as int,
        ) =~= new_color@,
        r is Ok && !(old(buffer).pixel(x as int, y as int) =~= new_color@) ==> forall|
            px: int,
            py: int,
        |
            old(buffer).in_bounds(px, py) && old(buffer).pixel(px, py) =~= old(buffer).pixel(
                x as int,
                y as int,
            ) && #[trigger] fill_reachable(
                *old(buffer),
                old(buffer).pixel(x as int, y as int),
                x as int,
                y as int,
                px,
                py,
            ) ==> final(buffer).pixel(px, py) =~= new_color@,
{
    let target_color = match buffer.get_pixel(x, y) {
        Some(c) => c,
        None => {
            return Err("Invalid starting position".to_owned());
        },
    };
    if eq_color(target_color, new_color) {
        return Ok(());
    }
    let mut queue: VecDeque<(u32, u32)> = VecDeque::new();
    queue.push_back((x, y));
    proof {
        assert(queue@[0] == (x, y));
        assert forall|ax: int, ay: int, bx: int, by: int|
            filled_cell(*old(buffer), *buffer, target_color@, new_color@, ax, ay)
                && #[trigger] adjacent4(ax, ay, bx, by) && old(buffer).in_bounds(bx, by) && old(
                buffer,
            ).pixel(bx, by) == target_color@ implies filled_cell(
            *old(buffer),
            *buffer,
            target_color@,
            new_color@,
            bx,
            by,
        ) || queued(queue@, bx, by) by {
            assert(old(buffer).pixel(ax, ay) != new_color@);
        }
    }
    let width = buffer.width;
    let height = buffer.height;
    let ghost total = width as int * height as int;
    #[verifier::spinoff_prover]
    loop
        invariant
            buffer.wf(),
            buffer.width == old(buffer).width,
            buffer.height == old(buffer).height,
            width == buffer.width,
            height == buffer.height,
            total == width as int * height as int,
            old(buffer).in_bounds(x as int, y as int),
            old(buffer).pixel(x as int, y as int) =~= target_color@,
            !(target_color@ =~= new_color@),
            target_color@ != new_color@,
            frontier_ok(*old(buffer), *buffer, target_color@, new_color@, queue@),
            forall|px: int, py: int|
                old(buffer).in_bounds(px, py) ==> #[trigger] buffer.pixel(px, py) =~= old(
                    buffer,
                ).pixel(px, py) || (old(buffer).pixel(px, py) =~= target_color@ && buffer.pixel(
                    px,
                    py,
                ) =~= new_color@ && fill_reachable(
                    *old(buffer),
                    target_color@,
                    x as int,
                    y as int,
                    px,
                    py,
                )),
            buffer.pixel(x as int, y as int) =~= new_color@ || exists|i: int|
                0 <= i < queue@.len() && queue@[i] == (x, y),
            forall|i: int|
                0 <= i < queue@.len() ==> queue_entry_ok(
                    *old(buffer),
                    target_color@,
                    x,
                    y,
                    #[trigger] queue@[i],
                ),
        ensures
            buffer.wf(),
            buffer.width == old(buffer).width,
            buffer.height == old(buffer).height,
            forall|px: int, py: int|
                old(buffer).in_bounds(px, py) ==> #[trigger] buffer.pixel(px, py) =~= old(
                    buffer,
                ).pixel(px, py) || (old(buffer).pixel(px, py) =~= target_color@ && buffer.pixel(
                    px,
                    py,
                ) =~= new_color@ && fill_reachable(
                    *old(buffer),
                    target_color@,
                    x as int,
                    y as int,
                    px,
                    py,
                )),
            buffer.pixel(x as int, y as int) =~= new_color@,
            frontier_ok(*old(buffer), *buffer, target_color@, new_color@, queue@),
            queue@.len() == 0,
        decreases 5 * count_matching(*buffer, target_color@, total) + queue@.len(),
    {
        proof {
            lemma_count_nonneg(*buffer, target_color@, total);
        }
        if queue.len() == 0 {
            break ;
        }
        let ghost q0 = queue@;
        let p = queue.pop_front().unwrap();
        let px = p.0;
        let py = p.1;
        if px >= width || py >= height {
            proof {
                if !(buffer.pixel(x as int, y as int) =~= new_color@) {
                    let i = choose|i: int| 0 <= i < q0.len() && q0[i] == (x, y);
                    assert(i >= 1);
                    assert(queue@[i - 1] == (x, y));
                }
                assert forall|i: int| 0 <= i < queue@.len() implies queue_entry_ok(
                    *old(buffer),
                    target_color@,
                    x,
                    y,
                    #[trigger] queue@[i],
                ) by {
                    assert(queue@[i] == q0[i + 1]);
                }
                assert(!old(buffer).in_bounds(q0[0].0 as int, q0[0].1 as int));
                lemma_frontier_pop(
                    *old(buffer),
                    *buffer,
                    target_color@,
                    new_color@,
                    q0,
                    queue@,
                );
            }
            continue ;
        }
        let current_color = buffer.get_pixel(px, py).unwrap();
        if !eq_color(current_color, target_color) {
            proof {
                if !(buffer.pixel(x as int, y as int) =~= new_color@) {
                    let i = choose|i: int| 0 <= i < q0.len() && q0[i] == (x, y);
                    if i == 0 {
                        assert((px, py) == (x, y));
                        assert(buffer.pixel(x as int, y as int) =~= old(buffer).pixel(
                            x as int,
                            y as int,
                        ) || buffer.pixel(x as int, y as int) =~= new_color@);
                        assert(false);
                    } else {
                        assert(queue@[i - 1] == (x, y));
                    }
                }
                assert forall|i: int| 0 <= i < queue@.len() implies queue_entry_ok(
                    *old(buffer),
                    target_color@,
                    x,
                    y,
                    #[trigger] queue@[i],
                ) by {
                    assert(queue@[i] == q0[i + 1]);
                }
                if old(buffer).pixel(px as int, py as int) == target_color@ {
                    assert(buffer.pixel(px as int, py as int) =~= new_color@);
                    assert(filled_cell(
                        *old(buffer),
                        *buffer,
                        target_color@,
                        new_color@,
                        px as int,
                        py as int,
                    ));
                }
                lemma_frontier_pop(
                    *old(buffer),
                    *buffer,
                    target_color@,
                    new_color@,
                    q0,
                    queue@,
                );
            }
            continue ;
        }
        let ghost pre = *buffer;
        proof {
            reveal(valid_fill_path);
            if (px, py) == (x, y) {
                let unit = seq![(x as int, y as int)];
                assert(valid_fill_path(
                    *old(buffer),
                    target_color@,
                    x as int,
                    y as int,
                    unit,
                    px as int,
                    py as int,
                ));
            } else {
                assert(q0[0] == (px, py));
                assert(queue_entry_ok(*old(buffer), target_color@, x, y, (px, py)));
                assert(exists|qx: int, qy: int|
                    adjacent4(qx, qy, px as int, py as int) && #[trigger] fill_reachable(
                        *old(buffer),
                        target_color@,
                        x as int,
                        y as int,
                        qx,
                        qy,
                    ));
                let (qx, qy) = choose|qx: int, qy: int|
                    adjacent4(qx, qy, px as int, py as int) && #[trigger] fill_reachable(
                        *old(buffer),
                        target_color@,
                        x as int,
                        y as int,
                        qx,
                        qy,
                    );
                let path = choose|path: Seq<(int, int)>|
                    valid_fill_path(*old(buffer), target_color@, x as int, y as int, path, qx, qy);
                let path2 = path.push((px as int, py as int));
                assert(old(buffer).pixel(px as int, py as int) =~= target_color@);
                assert(old(buffer).in_bounds(px as int, py as int));
                assert(path2.last() == (px as int, py as int));
                assert forall|i: int|
                    1 <= i < path2.len() implies adjacent4(
                    path2[i - 1].0,
                    path2[i - 1].1,
                    (#[trigger] path2[i]).0,
                    path2[i].1,
                ) by {
                    if i < path.len() {
                        assert(path2[i - 1] == path[i - 1] && path2[i] == path[i]);
                    } else {
                        assert(path2[i - 1] == path.last());
                    }
                }
                assert forall|i: int|
                    1 <= i < path2.len() implies old(buffer).in_bounds(
                    (#[trigger] path2[i]).0,
                    path2[i].1,
                ) && old(buffer).pixel(path2[i].0, path2[i].1) == target_color@ by {
                    if i < path.len() {
                        assert(path2[i] == path[i]);
                    }
                }
                assert(valid_fill_path(
                    *old(buffer),
                    target_color@,
                    x as int,
                    y as int,
                    path2,
                    px as int,
                    py as int,
                ));
            }
            assert(fill_reachable(*old(buffer), target_color@, x as int, y as int, px as int, py as int));
        }
        let _ = buffer.set_pixel(px, py, new_color);
        proof {
            assert(pre.pixel(px as int, py as int) == target_color@);
            assert(buffer.pixel(px as int, py as int) == new_color@);
            lemma_fill_count_step(pre, *buffer, target_color@, new_color@, px, py);
            lemma_count_nonneg(*buffer, target_color@, total);
        }
        let ghost q_mid = queue@;
        if px > 0 {
            let ghost qb = queue@;
            queue.push_back((px - 1, py));
            proof {
                lemma_queued_push(qb, ((px - 1) as u32, py));
            }
        }
        if px < width - 1 {
            let ghost qb = queue@;
            queue.push_back((px + 1, py));
            proof {
                lemma_queued_push(qb, ((px + 1) as u32, py));
            }
        }
        if py > 0 {
            let ghost qb = queue@;
            queue.push_back((px, py - 1));
            proof {
                lemma_queued_push(qb, (px, (py - 1) as u32));
            }
        }
        if py < height - 1 {
            let ghost qb = queue@;
            queue.push_back((px, py + 1));
            proof {
                lemma_queued_push(qb, (px, (py + 1) as u32));
            }
        }
        proof {
            assert forall|i: int| 0 <= i < q0.len() - 1 implies #[trigger] queue@[i] == q0[i
                + 1] by {
                assert(q_mid[i] == q0[i + 1]);
            }
            lemma_frontier_fill(
                *old(buffer),
                pre,
                *buffer,
                target_color@,
                new_color@,
                q0,
                queue@,
                px,
                py,
            );
            if !(buffer.pixel(x as int, y as int) =~= new_color@) {
                assert(!((px, py) == (x, y)));
                let i = choose|i: int| 0 <= i < q0.len() && q0[i] == (x, y);
                assert(i >= 1);
                assert(q0.subrange(1, q0.len() as int)[i - 1] == (x, y));
                assert(queue@[i - 1] == (x, y));
            }
            assert forall|i: int| 0 <= i < queue@.len() implies queue_entry_ok(
                *old(buffer),
                target_color@,
                x,
                y,
                #[trigger] queue@[i],
            ) by {
                if i < q0.len() - 1 {
                    assert(queue@[i] == q0[i + 1]);
                } else {
                    assert(adjacent4(
                        px as int,
                        py as int,
                        queue@[i].0 as int,
                        queue@[i].1 as int,
                    ));
                    assert(fill_reachable(
                        *old(buffer),
                        target_color@,
                        x as int,
                        y as int,
                        px as int,
                        py as int,
                    ));
                }
            }
        }
    }
    proof {
        assert(queue@ =~= Seq::<(u32, u32)>::empty());
        assert(frontier_ok(
            *old(buffer),
            *buffer,
            target_color@,
            new_color@,
            Seq::<(u32, u32)>::empty(),
        ));
        assert(old(buffer).pixel(x as int, y as int) == target_color@);
        assert(filled_cell(
            *old(buffer),
            *buffer,
            target_color@,
            new_color@,
            x as int,
            y as int,
        ));
        assert forall|px: int, py: int|
            old(buffer).in_bounds(px, py) && old(buffer).pixel(px, py) =~= old(buffer).pixel(
                x as int,
                y as int,
            ) && #[trigger] fill_reachable(
                *old(buffer),
                old(buffer).pixel(x as int, y as int),
                x as int,
                y as int,
                px,
                py,
            ) implies buffer.pixel(px, py) =~= new_color@ by {
            assert(fill_reachable(*old(buffer), target_color@, x as int, y as int, px, py));
            let path = choose|path: Seq<(int, int)>|
                valid_fill_path(*old(buffer), target_color@, x as int, y as int, path, px, py);
            lemma_closure_fills(
                *old(buffer),
                *buffer,
                target_color@,
                new_color@,
                x as int,
                y as int,
                path,
                px,
                py,
            );
        }
    }
    Ok(())
}

/// Whether two RGBA colors hold exactly the same four bytes.
pub fn eq_color(a: [u8; 4], b: [u8; 4]) -> (r: bool)
    ensures
        r <==> a@ == b@,
{
    let r = a[0] == b[0] && a[1] == b[1] && a[2] == b[2] && a[3] == b[3];
    proof {
        if r {
            assert(a@ =~= b@);
        }
    }
    r
}

/// Spec-level minimum of two `u32` values.
pub open spec fn min_u32_spec(a: u32, b: u32) -> int {
    if a <= b {
        a as int
    } else {
        b as int
    }
}

/// Spec-level maximum of two `u32` values.
pub open spec fn max_u32_spec(a: u32, b: u32) -> int {
    if a >= b {
        a as int
    } else {
        b as int
    }
}

} // verus!
