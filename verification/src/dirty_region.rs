//! Dirty-rectangle tracking for partial redraw.
//!
//! A [`DirtyRegion`] accumulates the rectangles of a canvas that changed since
//! the last flush. [`DirtyRegion::get_bounds`] yields the minimal rectangle
//! covering everything added; [`DirtyRegion::optimize`] greedily merges
//! intersecting rectangles to cut the count.

use vstd::prelude::*;

verus! {

/// Coordinates handled by the region tracker stay within this magnitude, so
/// that every edge sum fits an `i32` comfortably.
pub const COORD_LIMIT: i32 = 0x2000_0000;

/// An axis-aligned rectangle in canvas space, y-down. Empty iff `width <= 0 ||
/// height <= 0`.
#[derive(Debug, Clone, Copy, PartialEq, Eq, Structural)]
pub struct Rect {
    pub x: i32,
    pub y: i32,
    pub width: i32,
    pub height: i32,
}

/// The rectangle's corners stay within [`COORD_LIMIT`], keeping edge
/// arithmetic free of `i32` overflow.
pub open spec fn rect_wf(r: Rect) -> bool {
    &&& -COORD_LIMIT <= r.x <= COORD_LIMIT
    &&& -COORD_LIMIT <= r.y <= COORD_LIMIT
    &&& -COORD_LIMIT <= r.x + r.width <= COORD_LIMIT
    &&& -COORD_LIMIT <= r.y + r.height <= COORD_LIMIT
}

/// Whether the point (px, py) lies inside `r`.
pub open spec fn rect_contains(r: Rect, px: int, py: int) -> bool {
    r.x <= px < r.x + r.width && r.y <= py < r.y + r.height
}

/// Whether `a` lies entirely inside `b`, edge for edge.
pub open spec fn rect_contained(a: Rect, b: Rect) -> bool {
    b.x <= a.x && a.x + a.width <= b.x + b.width && b.y <= a.y && a.y + a.height <= b.y + b.height
}

/// The formula [`Rect::intersects`] computes: the rectangles share at least
/// one point when both are nonempty.
pub open spec fn spec_intersects(a: Rect, b: Rect) -> bool {
    !(a.x + a.width <= b.x || b.x + b.width <= a.x || a.y + a.height <= b.y || b.y + b.height
        <= a.y)
}

/// The bounding box of `a` and `b`: each edge is the outermost of the two.
pub open spec fn spec_union(a: Rect, b: Rect) -> Rect {
    let x = if a.x <= b.x {
        a.x
    } else {
        b.x
    };
    let y = if a.y <= b.y {
        a.y
    } else {
        b.y
    };
    let right = if a.x + a.width >= b.x + b.width {
        a.x + a.width
    } else {
        b.x + b.width
    };
    let bottom = if a.y + a.height >= b.y + b.height {
        a.y + a.height
    } else {
        b.y + b.height
    };
    Rect { x: x as i32, y: y as i32, width: (right - x) as i32, height: (bottom - y) as i32 }
}

impl Rect {
    pub fn new(x: i32, y: i32, width: i32, height: i32) -> (r: Rect)
        ensures
            r == (Rect { x, y, width, height }),
    {
        Rect { x, y, width, height }
    }

    /// A rectangle covering no point at all.
    pub fn is_empty(&self) -> (r: bool)
        ensures
            r == (self.width <= 0 || self.height <= 0),
            !r ==> rect_contains(*self, self.x as int, self.y as int),
    {
        self.width <= 0 || self.height <= 0
    }

    /// Whether the two rectangles overlap.
    pub fn intersects(&self, other: &Rect) -> (r: bool)
        requires
            rect_wf(*self),
            rect_wf(*other),
        ensures
            r == spec_intersects(*self, *other),
    {
        !(self.x + self.width <= other.x || other.x + other.width <= self.x || self.y
            + self.height <= other.y || other.y + other.height <= self.y)
    }

    /// The bounding box of the two rectangles.
    pub fn union(&self, other: &Rect) -> (r: Rect)
        requires
            rect_wf(*self),
            rect_wf(*other),
        ensures
            r == spec_union(*self, *other),
            rect_wf(r),
            rect_contained(*self, r),
            rect_contained(*other, r),
    {
        let x = if self.x <= other.x {
            self.x
        } else {
            other.x
        };
        let y = if self.y <= other.y {
            self.y
        } else {
            other.y
        };
        let self_right = self.x + self.width;
        let other_right = other.x + other.width;
        let right = if self_right >= other_right {
            self_right
        } else {
            other_right
        };
        let self_bottom = self.y + self.height;
        let other_bottom = other.y + other.height;
        let bottom = if self_bottom >= other_bottom {
            self_bottom
        } else {
            other_bottom
        };
        Rect { x, y, width: right - x, height: bottom - y }
    }
}

/// `b` is the exact bounding box of the rectangles: each of its four edges
/// bounds every rectangle and is attained by one of them.
pub open spec fn is_bounds(rects: Seq<Rect>, b: Rect) -> bool {
    &&& forall|i: int| 0 <= i < rects.len() ==> rect_contained(#[trigger] rects[i], b)
    &&& exists|i: int| 0 <= i < rects.len() && (#[trigger] rects[i]).x == b.x
    &&& exists|i: int| 0 <= i < rects.len() && (#[trigger] rects[i]).y == b.y
    &&& exists|i: int|
        0 <= i < rects.len() && (#[trigger] rects[i]).x + rects[i].width == b.x + b.width
    &&& exists|i: int|
        0 <= i < rects.len() && (#[trigger] rects[i]).y + rects[i].height == b.y + b.height
}

/// Accumulates the rectangles of the canvas that changed since the last
/// flush. Only nonempty, well-formed rectangles are kept.
#[derive(Debug)]
pub struct DirtyRegion {
    pub rects: Vec<Rect>,
}

impl DirtyRegion {
    /// Every tracked rectangle is nonempty and within coordinate limits.
    pub open spec fn wf(self) -> bool {
        forall|i: int|
            0 <= i < self.rects@.len() ==> rect_wf(#[trigger] self.rects@[i])
                && self.rects@[i].width > 0 && self.rects@[i].height > 0
    }

    pub fn new() -> (r: DirtyRegion)
        ensures
            r.wf(),
            r.rects@.len() == 0,
    {
        DirtyRegion { rects: Vec::new() }
    }

    /// Tracks `rect`; an empty rectangle is dropped.
    pub fn add_rect(&mut self, rect: Rect)
        requires
            old(self).wf(),
            rect_wf(rect),
        ensures
            final(self).wf(),
            rect.width > 0 && rect.height > 0 ==> final(self).rects@ == old(self).rects@.push(
                rect,
            ),
            rect.width <= 0 || rect.height <= 0 ==> *final(self) == *old(self),
    {
        if !rect.is_empty() {
            self.rects.push(rect);
        }
    }

    /// Tracks a square of side `brush_size` centered on (x, y).
    pub fn add_point(&mut self, x: i32, y: i32, brush_size: i32)
        requires
            old(self).wf(),
            -COORD_LIMIT / 2 <= x <= COORD_LIMIT / 2,
            -COORD_LIMIT / 2 <= y <= COORD_LIMIT / 2,
            -COORD_LIMIT / 2 <= brush_size <= COORD_LIMIT / 2,
        ensures
            final(self).wf(),
            brush_size > 0 ==> final(self).rects@ == old(self).rects@.push(
                Rect {
                    x: (x - brush_size / 2) as i32,
                    y: (y - brush_size / 2) as i32,
                    width: brush_size,
                    height: brush_size,
                },
            ),
            brush_size <= 0 ==> *final(self) == *old(self),
    {
        let half = brush_size / 2;
        self.add_rect(Rect::new(x - half, y - half, brush_size, brush_size));
    }

    /// Tracks the bounding box of the segment from (x1, y1) to (x2, y2),
    /// inflated by half the brush size on each side — a conservative box, not
    /// a tight stroke outline.
    pub fn add_line(&mut self, x1: i32, y1: i32, x2: i32, y2: i32, brush_size: i32)
        requires
            old(self).wf(),
            -COORD_LIMIT / 2 <= x1 <= COORD_LIMIT / 2,
            -COORD_LIMIT / 2 <= y1 <= COORD_LIMIT / 2,
            -COORD_LIMIT / 2 <= x2 <= COORD_LIMIT / 2,
            -COORD_LIMIT / 2 <= y2 <= COORD_LIMIT / 2,
            0 <= brush_size <= COORD_LIMIT / 4,
        ensures
            final(self).wf(),
            max_i32_spec(x1, x2) - min_i32_spec(x1, x2) + brush_size > 0 && max_i32_spec(y1, y2)
                - min_i32_spec(y1, y2) + brush_size > 0 ==> final(self).rects@ == old(
                self,
            ).rects@.push(
                Rect {
                    x: (min_i32_spec(x1, x2) - brush_size / 2) as i32,
                    y: (min_i32_spec(y1, y2) - brush_size / 2) as i32,
                    width: (max_i32_spec(x1, x2) - min_i32_spec(x1, x2) + brush_size) as i32,
                    height: (max_i32_spec(y1, y2) - min_i32_spec(y1, y2) + brush_size) as i32,
                },
            ),
            max_i32_spec(x1, x2) - min_i32_spec(x1, x2) + brush_size <= 0 || max_i32_spec(y1, y2)
                - min_i32_spec(y1, y2) + brush_size <= 0 ==> *final(self) == *old(self),
    {
        let min_x = if x1 <= x2 {
            x1
        } else {
            x2
        };
        let min_y = if y1 <= y2 {
            y1
        } else {
            y2
        };
        let max_x = if x1 >= x2 {
            x1
        } else {
            x2
        };
        let max_y = if y1 >= y2 {
            y1
        } else {
            y2
        };
        let half = brush_size / 2;
        self.add_rect(
            Rect::new(
                min_x - half,
                min_y - half,
                (max_x - min_x) + brush_size,
                (max_y - min_y) + brush_size,
            ),
        );
    }

    /// Whether nothing has been tracked.
    pub fn is_empty(&self) -> (r: bool)
        ensures
            r == (self.rects@.len() == 0),
    {
        self.rects.len() == 0
    }

    /// The tracked rectangles, in insertion order.
    pub fn rects(&self) -> (r: &Vec<Rect>)
        ensures
            r == &self.rects,
    {
        &self.rects
    }

    /// The minimal rectangle covering every tracked rectangle, or `None` when
    /// nothing is tracked.
    pub fn get_bounds(&self) -> (r: Option<Rect>)
        requires
            self.wf(),
        ensures
            r is Some <==> self.rects@.len() > 0,
            r matches Some(b) ==> is_bounds(self.rects@, b) && rect_wf(b),
    {
        if self.rects.len() == 0 {
            return None;
        }
        let mut result = self.rects[0];
        proof {
            let s = self.rects@.subrange(0, 1);
            assert(s[0] == self.rects@[0]);
            assert(rect_contained(s[0], result));
            assert(s[0].x == result.x);
            assert(s[0].y == result.y);
        }
        let mut i: usize = 1;
        while i < self.rects.len()
            invariant
                self.wf(),
                1 <= i <= self.rects@.len(),
                rect_wf(result),
                is_bounds(self.rects@.subrange(0, i as int), result),
            decreases self.rects@.len() - i,
        {
            let ghost prefix = self.rects@.subrange(0, i as int);
            let ghost prev = result;
            result = result.union(&self.rects[i]);
            i = i + 1;
            proof {
                assert(self.rects@.subrange(0, i as int) =~= prefix.push(self.rects@[i - 1]));
                lemma_bounds_extend(prefix, prev, self.rects@[i - 1]);
            }
        }
        proof {
            assert(self.rects@.subrange(0, self.rects@.len() as int) =~= self.rects@);
        }
        Some(result)
    }

    /// Forgets every tracked rectangle.
    pub fn clear(&mut self)
        ensures
            final(self).wf(),
            final(self).rects@.len() == 0,
    {
        self.rects.clear();
    }

    /// Greedily merges intersecting rectangles: each input rectangle ends up
    /// contained in some output rectangle, and every output edge stays within
    /// the input bounds. The result is not a minimal cover; merging two
    /// rectangles covers their whole bounding box.
    pub fn optimize(&mut self)
        requires
            old(self).wf(),
        ensures
            final(self).wf(),
            final(self).rects@.len() <= old(self).rects@.len(),
            all_covered(old(self).rects@, final(self).rects@),
            forall|j: int|
                0 <= j < final(self).rects@.len() ==> edges_within(
                    old(self).rects@,
                    #[trigger] final(self).rects@[j],
                ),
    {
        if self.rects.len() <= 1 {
            proof {
                lemma_all_covered_refl(self.rects@);
                assert forall|j: int| 0 <= j < self.rects@.len() implies edges_within(
                    self.rects@,
                    #[trigger] self.rects@[j],
                ) by {
                    lemma_self_edges(self.rects@, j);
                }
            }
            return ;
        }
        let ghost orig = self.rects@;
        let mut optimized: Vec<Rect> = Vec::new();
        let mut i: usize = 0;
        while i < self.rects.len()
            invariant
                self.wf(),
                self.rects@ == orig,
                i <= orig.len(),
                optimized@.len() <= i,
                forall|j: int|
                    0 <= j < optimized@.len() ==> rect_wf(#[trigger] optimized@[j])
                        && optimized@[j].width > 0 && optimized@[j].height > 0,
                all_covered(orig.subrange(0, i as int), optimized@),
                forall|j: int|
                    0 <= j < optimized@.len() ==> edges_within(orig, #[trigger] optimized@[j]),
            decreases self.rects@.len() - i,
        {
            let rect = self.rects[i];
            let mut merged = false;
            let mut j: usize = 0;
            let ghost before = optimized@;
            while j < optimized.len()
                invariant
                    self.wf(),
                    self.rects@ == orig,
                    i < orig.len(),
                    rect == orig[i as int],
                    j <= optimized@.len(),
                    optimized@.len() == before.len(),
                    forall|t: int|
                        0 <= t < optimized@.len() ==> rect_wf(#[trigger] optimized@[t])
                            && optimized@[t].width > 0 && optimized@[t].height > 0,
                    forall|t: int|
                        0 <= t < optimized@.len() ==> rect_contained(
                            before[t],
                            #[trigger] optimized@[t],
                        ),
                    forall|t: int|
                        0 <= t < optimized@.len() ==> edges_within(orig, #[trigger] optimized@[t]),
                    merged ==> covered_by(rect, optimized@),
                    !merged ==> optimized@ == before,
                decreases optimized@.len() - j,
            {
                if !merged && rect.intersects(&optimized[j]) {
                    let u = optimized[j].union(&rect);
                    proof {
                        lemma_union_edges_within(orig, optimized@[j as int], rect, i as int);
                    }
                    optimized.set(j, u);
                    merged = true;
                    proof {
                        assert(rect_contained(rect, optimized@[j as int]));
                        assert(covered_by(rect, optimized@));
                        assert forall|t: int| 0 <= t < optimized@.len() implies rect_contained(
                            before[t],
                            #[trigger] optimized@[t],
                        ) by {
                            if t != j {
                                assert(optimized@[t] == before[t]);
                                assert(rect_contained(before[t], before[t]));
                            }
                        }
                    }
                    break ;
                }
                j = j + 1;
            }
            if !merged {
                optimized.push(rect);
                proof {
                    assert(orig[i as int] == rect);
                    lemma_self_edges(orig, i as int);
                    assert forall|t: int| 0 <= t < optimized@.len() implies edges_within(
                        orig,
                        #[trigger] optimized@[t],
                    ) by {
                        if t < before.len() {
                            assert(optimized@[t] == before[t]);
                        } else {
                            assert(optimized@[t] == rect);
                        }
                    }
                }
            }
            proof {
                if !merged {
                    assert(rect_contained(orig[i as int], optimized@[optimized@.len() - 1]));
                    assert(covered_by(orig[i as int], optimized@));
                }
                lemma_all_covered_step(orig, i as int, before, optimized@);
            }
            i = i + 1;
        }
        proof {
            assert(orig.subrange(0, orig.len() as int) =~= orig);
        }
        self.rects = optimized;
    }
}

/// `r` is contained in some rectangle of `to`.
pub open spec fn covered_by(r: Rect, to: Seq<Rect>) -> bool {
    exists|j: int| 0 <= j < to.len() && rect_contained(r, #[trigger] to[j])
}

/// Every rectangle of `from` is contained in some rectangle of `to`.
pub open spec fn all_covered(from: Seq<Rect>, to: Seq<Rect>) -> bool {
    forall|k: int| 0 <= k < from.len() ==> covered_by(#[trigger] from[k], to)
}

/// Each edge of `r` is no farther out than the matching edge of some
/// rectangle in `rects`.
pub open spec fn edges_within(rects: Seq<Rect>, r: Rect) -> bool {
    &&& exists|i: int| 0 <= i < rects.len() && (#[trigger] rects[i]).x <= r.x
    &&& exists|i: int| 0 <= i < rects.len() && (#[trigger] rects[i]).y <= r.y
    &&& exists|i: int|
        0 <= i < rects.len() && r.x + r.width <= (#[trigger] rects[i]).x + rects[i].width
    &&& exists|i: int|
        0 <= i < rects.len() && r.y + r.height <= (#[trigger] rects[i]).y + rects[i].height
}

/// A rectangle of the sequence bounds itself on every edge.
proof fn lemma_self_edges(rects: Seq<Rect>, i: int)
    requires
        0 <= i < rects.len(),
    ensures
        edges_within(rects, rects[i]),
{
    assert(rects[i].x <= rects[i].x);
}

/// The bounding box of two rectangles whose edges stay within `rects` stays
/// within `rects` too.
proof fn lemma_union_edges_within(rects: Seq<Rect>, a: Rect, b: Rect, bi: int)
    requires
        edges_within(rects, a),
        0 <= bi < rects.len(),
        rects[bi] == b,
    ensures
        edges_within(rects, spec_union(a, b)),
{
}

/// Extending the rectangle set by `r` extends its exact bounding box to the
/// union with `r`.
proof fn lemma_bounds_extend(prefix: Seq<Rect>, b: Rect, r: Rect)
    requires
        is_bounds(prefix, b),
        rect_wf(b),
        rect_wf(r),
    ensures
        is_bounds(prefix.push(r), spec_union(b, r)),
{
    let s = prefix.push(r);
    let u = spec_union(b, r);
    assert forall|i: int| 0 <= i < s.len() implies rect_contained(#[trigger] s[i], u) by {
        if i < prefix.len() {
            assert(s[i] == prefix[i]);
            assert(rect_contained(prefix[i], b));
        } else {
            assert(s[i] == r);
        }
    }
    let last = prefix.len() as int;
    if b.x <= r.x {
        let w = choose|i: int| 0 <= i < prefix.len() && (#[trigger] prefix[i]).x == b.x;
        assert(s[w] == prefix[w]);
        assert(s[w].x == u.x);
    } else {
        assert(s[last].x == u.x);
    }
    if b.y <= r.y {
        let w = choose|i: int| 0 <= i < prefix.len() && (#[trigger] prefix[i]).y == b.y;
        assert(s[w] == prefix[w]);
        assert(s[w].y == u.y);
    } else {
        assert(s[last].y == u.y);
    }
    if b.x + b.width >= r.x + r.width {
        let w = choose|i: int|
            0 <= i < prefix.len() && (#[trigger] prefix[i]).x + prefix[i].width == b.x + b.width;
        assert(s[w] == prefix[w]);
        assert(s[w].x + s[w].width == u.x + u.width);
    } else {
        assert(s[last].x + s[last].width == u.x + u.width);
    }
    if b.y + b.height >= r.y + r.height {
        let w = choose|i: int|
            0 <= i < prefix.len() && (#[trigger] prefix[i]).y + prefix[i].height == b.y + b.height;
        assert(s[w] == prefix[w]);
        assert(s[w].y + s[w].height == u.y + u.height);
    } else {
        assert(s[last].y + s[last].height == u.y + u.height);
    }
}

/// Every rectangle set covers itself.
proof fn lemma_all_covered_refl(rects: Seq<Rect>)
    ensures
        all_covered(rects, rects),
{
    assert forall|k: int| 0 <= k < rects.len() implies covered_by(#[trigger] rects[k], rects) by {
        assert(rect_contained(rects[k], rects[k]));
    }
}

/// One merge step of [`DirtyRegion::optimize`] keeps every processed
/// rectangle covered: the rectangles covering the first `i` inputs may only
/// have grown, and the input at `i` found a cover of its own.
proof fn lemma_all_covered_step(orig: Seq<Rect>, i: int, before: Seq<Rect>, after: Seq<Rect>)
    requires
        0 <= i < orig.len(),
        all_covered(orig.subrange(0, i), before),
        before.len() <= after.len(),
        forall|t: int| 0 <= t < before.len() ==> rect_contained(before[t], #[trigger] after[t]),
        covered_by(orig[i], after),
    ensures
        all_covered(orig.subrange(0, i + 1), after),
{
    assert forall|k: int| 0 <= k < i + 1 implies covered_by(
        #[trigger] orig.subrange(0, i + 1)[k],
        after,
    ) by {
        assert(orig.subrange(0, i + 1)[k] == orig[k]);
        if k < i {
            assert(orig.subrange(0, i)[k] == orig[k]);
            assert(covered_by(orig.subrange(0, i)[k], before));
            let j = choose|j: int|
                0 <= j < before.len() && rect_contained(orig.subrange(0, i)[k], #[trigger] before[j]);
            assert(rect_contained(before[j], after[j]));
            assert(rect_contained(orig.subrange(0, i + 1)[k], after[j]));
        } else {
            let j = choose|j: int|
                0 <= j < after.len() && rect_contained(orig[i], #[trigger] after[j]);
            assert(rect_contained(orig.subrange(0, i + 1)[k], after[j]));
        }
    }
}

/// Covering half of the bounds law: the rectangle [`DirtyRegion::get_bounds`]
/// returns contains every tracked rectangle.
pub proof fn lemma_bounds_cover(rects: Seq<Rect>, b: Rect)
    requires
        is_bounds(rects, b),
    ensures
        forall|i: int| 0 <= i < rects.len() ==> rect_contained(#[trigger] rects[i], b),
{
}

/// Minimality half of the bounds law: any rectangle containing every tracked
/// rectangle contains the one [`DirtyRegion::get_bounds`] returns, so that
/// rectangle is the minimal cover of everything added.
pub proof fn lemma_bounds_minimal(rects: Seq<Rect>, b: Rect, c: Rect)
    requires
        is_bounds(rects, b),
        rects.len() > 0,
        forall|i: int| 0 <= i < rects.len() ==> rect_contained(#[trigger] rects[i], c),
    ensures
        rect_contained(b, c),
{
}

/// Spec-level minimum of two `i32` values.
pub open spec fn min_i32_spec(a: i32, b: i32) -> int {
    if a <= b {
        a as int
    } else {
        b as int
    }
}

/// Spec-level maximum of two `i32` values.
pub open spec fn max_i32_spec(a: i32, b: i32) -> int {
    if a >= b {
        a as int
    } else {
        b as int
    }
}

} // verus!
