//! Selection masks over a canvas, and the mask-combination modes.
//!
//! A [`Selection`] is a boolean mask over a `width` x `height` canvas plus a
//! cached bounding box. Selection-producing tools build a temporary mask from
//! geometry and combine it into the persistent mask under a
//! [`SelectionMode`]; after every combination the bounding box is recomputed
//! by a full rescan ([`Selection::update_bounds`]).

use vstd::prelude::*;

verus! {

/// How a new temporary mask combines with the existing one.
#[derive(Debug, Clone, Copy, PartialEq, Eq, Structural)]
pub enum SelectionMode {
    /// The new mask replaces the current one.
    Replace,
    /// Union: a cell is selected if it was, or the new mask selects it.
    Add,
    /// Difference: a cell stays selected only where the new mask does not
    /// select it.
    Subtract,
    /// Intersection: a cell stays selected only where the new mask selects it
    /// too.
    Intersect,
}

/// The combination rule, cell by cell.
pub open spec fn spec_apply_mode(mode: SelectionMode, cur: bool, new: bool) -> bool {
    match mode {
        SelectionMode::Replace => new,
        SelectionMode::Add => cur || new,
        SelectionMode::Subtract => cur && !new,
        SelectionMode::Intersect => cur && new,
    }
}

/// Inclusive bounding box of the selected cells.
#[derive(Debug, Clone, Copy, PartialEq, Eq, Structural)]
pub struct SelectionBounds {
    pub min_x: u32,
    pub max_x: u32,
    pub min_y: u32,
    pub max_y: u32,
}

/// A boolean mask over the canvas plus a cached bounding box. The box is not
/// maintained incrementally: after writing the mask directly, call
/// [`Selection::update_bounds`], or [`Selection::is_empty`] answers from
/// stale data.
#[derive(Debug, Clone)]
pub struct Selection {
    pub width: u32,
    pub height: u32,
    pub mask: Vec<bool>,
    pub bounds: Option<SelectionBounds>,
}

impl Selection {
    /// The mask holds one cell per canvas pixel, and a cached box lies within
    /// the canvas.
    pub open spec fn wf(self) -> bool {
        &&& self.mask@.len() == self.width as int * self.height as int
        &&& match self.bounds {
            Option::None => true,
            Option::Some(b) => b.min_x <= b.max_x < self.width && b.min_y <= b.max_y
                < self.height,
        }
    }

    /// Whether (x, y) addresses a cell of the mask.
    pub open spec fn in_dims(self, x: int, y: int) -> bool {
        0 <= x < self.width as int && 0 <= y < self.height as int
    }

    /// Mask index of cell (x, y).
    pub open spec fn index(self, x: int, y: int) -> int {
        y * self.width as int + x
    }

    /// Whether cell (x, y) is selected; out-of-canvas coordinates never are.
    pub open spec fn sel(self, x: int, y: int) -> bool {
        self.in_dims(x, y) && self.mask@[self.index(x, y)]
    }

    /// The cached box matches the mask exactly: `None` iff nothing is
    /// selected, otherwise each edge bounds every selected cell and is
    /// attained by one.
    pub open spec fn bounds_exact(self) -> bool {
        match self.bounds {
            Option::None => forall|px: int, py: int| !#[trigger] self.sel(px, py),
            Option::Some(b) => {
                &&& forall|px: int, py: int|
                    #[trigger] self.sel(px, py) ==> b.min_x <= px <= b.max_x && b.min_y <= py
                        <= b.max_y
                &&& exists|px: int, py: int| #[trigger] self.sel(px, py) && px == b.min_x
                &&& exists|px: int, py: int| #[trigger] self.sel(px, py) && px == b.max_x
                &&& exists|px: int, py: int| #[trigger] self.sel(px, py) && py == b.min_y
                &&& exists|px: int, py: int| #[trigger] self.sel(px, py) && py == b.max_y
            },
        }
    }

    /// Every cell's index lies inside the mask.
    pub proof fn lemma_index_in_range(self, x: int, y: int)
        requires
            self.wf(),
            self.in_dims(x, y),
        ensures
            0 <= self.index(x, y) < self.mask@.len(),
    {
        let w = self.width as int;
        let h = self.height as int;
        assert(0 <= y * w + x < w * h) by (nonlinear_arith)
            requires
                0 <= x < w,
                0 <= y < h,
        ;
    }

    /// Distinct in-canvas cells have distinct mask indices.
    pub proof fn lemma_distinct_indices(self, ax: int, ay: int, bx: int, by: int)
        requires
            self.in_dims(ax, ay),
            self.in_dims(bx, by),
            !(ax == bx && ay == by),
        ensures
            self.index(ax, ay) != self.index(bx, by),
    {
        let w = self.width as int;
        assert(ay * w + ax != by * w + bx) by (nonlinear_arith)
            requires
                0 <= ax < w,
                0 <= bx < w,
                0 <= ay,
                0 <= by,
                !(ax == bx && ay == by),
        ;
    }

    /// An empty selection over the given canvas size.
    pub fn new(width: u32, height: u32) -> (r: Selection)
        requires
            width as int * height as int <= usize::MAX as int,
        ensures
            r.wf(),
            r.width == width,
            r.height == height,
            r.bounds is None,
            forall|px: int, py: int| !#[trigger] r.sel(px, py),
            r.bounds_exact(),
    {
        let size: usize = width as usize * height as usize;
        let r = Selection { width, height, mask: filled_bool(size, false), bounds: Option::None };
        proof {
            assert forall|px: int, py: int| !#[trigger] r.sel(px, py) by {
                if r.in_dims(px, py) {
                    r.lemma_index_in_range(px, py);
                }
            }
        }
        r
    }

    /// Whether the cached bounding box records no selection.
    pub fn is_empty(&self) -> (r: bool)
        ensures
            r == (self.bounds is None),
    {
        match self.bounds {
            Option::None => true,
            Option::Some(_) => false,
        }
    }

    /// Deselects every cell and clears the cached box.
    pub fn clear(&mut self)
        requires
            old(self).wf(),
        ensures
            final(self).wf(),
            final(self).width == old(self).width,
            final(self).height == old(self).height,
            final(self).bounds is None,
            forall|px: int, py: int| !#[trigger] final(self).sel(px, py),
            final(self).bounds_exact(),
    {
        let len = self.mask.len();
        self.mask = filled_bool(len, false);
        self.bounds = Option::None;
        proof {
            assert forall|px: int, py: int| !#[trigger] self.sel(px, py) by {
                if self.in_dims(px, py) {
                    self.lemma_index_in_range(px, py);
                }
            }
        }
    }

    /// Sets one cell of the mask; coordinates off the canvas are ignored. The
    /// cached box is not updated.
    pub fn select_pixel(&mut self, x: u32, y: u32, selected: bool)
        requires
            old(self).wf(),
        ensures
            final(self).wf(),
            final(self).width == old(self).width,
            final(self).height == old(self).height,
            final(self).bounds == old(self).bounds,
            old(self).in_dims(x as int, y as int) ==> final(self).sel(x as int, y as int)
                == selected,
            forall|px: int, py: int|
                !(px == x as int && py == y as int) ==> #[trigger] final(self).sel(px, py)
                    == old(self).sel(px, py),
    {
        if x < self.width && y < self.height {
            proof {
                self.lemma_index_in_range(x as int, y as int);
            }
            let n: usize = self.mask.len();
            let index: usize = y as usize * self.width as usize + x as usize;
            self.mask.set(index, selected);
            proof {
                assert forall|px: int, py: int|
                    !(px == x as int && py == y as int) implies #[trigger] self.sel(px, py) == old(
                    self,
                ).sel(px, py) by {
                    if old(self).in_dims(px, py) {
                        old(self).lemma_index_in_range(px, py);
                        old(self).lemma_distinct_indices(px, py, x as int, y as int);
                    }
                }
            }
        }
    }

    /// Whether a cell is selected; coordinates off the canvas never are.
    pub fn is_selected(&self, x: u32, y: u32) -> (r: bool)
        requires
            self.wf(),
        ensures
            r == self.sel(x as int, y as int),
    {
        if x < self.width && y < self.height {
            proof {
                self.lemma_index_in_range(x as int, y as int);
            }
            let n: usize = self.mask.len();
            let index: usize = y as usize * self.width as usize + x as usize;
            self.mask[index]
        } else {
            false
        }
    }

    /// Rescans the whole mask and recomputes the cached bounding box, making
    /// it exact again after direct mask writes.
    pub fn update_bounds(&mut self)
        requires
            old(self).wf(),
        ensures
            final(self).wf(),
            final(self).width == old(self).width,
            final(self).height == old(self).height,
            final(self).mask == old(self).mask,
            final(self).bounds_exact(),
    {
        let mut min_x: u32 = self.width;
        let mut max_x: u32 = 0;
        let mut min_y: u32 = self.height;
        let mut max_y: u32 = 0;
        let mut has_selection = false;
        let ghost me = *self;
        let mut y: u32 = 0;
        while y < self.height
            invariant
                *self == me,
                me.wf(),
                y <= me.height,
                has_selection <==> exists|px: int, py: int| #[trigger] me.sel(px, py) && py < y,
                forall|px: int, py: int|
                    #[trigger] me.sel(px, py) && py < y ==> min_x <= px <= max_x && min_y <= py
                        <= max_y,
                has_selection ==> exists|px: int, py: int|
                    #[trigger] me.sel(px, py) && py < y && px == min_x,
                has_selection ==> exists|px: int, py: int|
                    #[trigger] me.sel(px, py) && py < y && px == max_x,
                has_selection ==> exists|px: int, py: int|
                    #[trigger] me.sel(px, py) && py < y && py == min_y,
                has_selection ==> exists|px: int, py: int|
                    #[trigger] me.sel(px, py) && py < y && py == max_y,
                has_selection ==> min_x <= max_x < me.width && min_y <= max_y < me.height,
            decreases me.height - y,
        {
            let mut x: u32 = 0;
            while x < self.width
                invariant
                    *self == me,
                    me.wf(),
                    y < me.height,
                    x <= me.width,
                    has_selection <==> exists|px: int, py: int|
                        #[trigger] me.sel(px, py) && (py < y || (py == y && px < x)),
                    forall|px: int, py: int|
                        #[trigger] me.sel(px, py) && (py < y || (py == y && px < x)) ==> min_x
                            <= px <= max_x && min_y <= py <= max_y,
                    has_selection ==> exists|px: int, py: int|
                        #[trigger] me.sel(px, py) && (py < y || (py == y && px < x)) && px
                            == min_x,
                    has_selection ==> exists|px: int, py: int|
                        #[trigger] me.sel(px, py) && (py < y || (py == y && px < x)) && px
                            == max_x,
                    has_selection ==> exists|px: int, py: int|
                        #[trigger] me.sel(px, py) && (py < y || (py == y && px < x)) && py
                            == min_y,
                    has_selection ==> exists|px: int, py: int|
                        #[trigger] me.sel(px, py) && (py < y || (py == y && px < x)) && py
                            == max_y,
                    has_selection ==> min_x <= max_x < me.width && min_y <= max_y < me.height,
                decreases me.width - x,
            {
                if self.is_selected(x, y) {
                    if !has_selection {
                        has_selection = true;
                        min_x = x;
                        max_x = x;
                        min_y = y;
                        max_y = y;
                    } else {
                        if x < min_x {
                            min_x = x;
                        }
                        if x > max_x {
                            max_x = x;
                        }
                        if y < min_y {
                            min_y = y;
                        }
                        if y > max_y {
                            max_y = y;
                        }
                    }
                }
                x = x + 1;
            }
            y = y + 1;
        }
        if has_selection {
            self.bounds = Option::Some(SelectionBounds { min_x, max_x, min_y, max_y });
            proof {
                assert forall|px: int, py: int| #[trigger] self.sel(px, py) implies min_x <= px
                    <= max_x && min_y <= py <= max_y by {
                    assert(me.sel(px, py) && py < me.height as int);
                }
                let (ax, ay) = choose|px: int, py: int|
                    #[trigger] me.sel(px, py) && py < me.height as int && px == min_x;
                assert(self.sel(ax, ay) && ax == min_x);
                let (bx, by) = choose|px: int, py: int|
                    #[trigger] me.sel(px, py) && py < me.height as int && px == max_x;
                assert(self.sel(bx, by) && bx == max_x);
                let (cx, cy) = choose|px: int, py: int|
                    #[trigger] me.sel(px, py) && py < me.height as int && py == min_y;
                assert(self.sel(cx, cy) && cy == min_y);
                let (dx, dy) = choose|px: int, py: int|
                    #[trigger] me.sel(px, py) && py < me.height as int && py == max_y;
                assert(self.sel(dx, dy) && dy == max_y);
            }
        } else {
            self.bounds = Option::None;
            proof {
                assert forall|px: int, py: int| !#[trigger] self.sel(px, py) by {
                    if me.sel(px, py) {
                        assert(me.sel(px, py) && py < me.height as int);
                    }
                }
            }
        }
    }

    /// Selects every cell and sets the box to the full canvas.
    pub fn select_all(&mut self)
        requires
            old(self).wf(),
            old(self).width > 0,
            old(self).height > 0,
        ensures
            final(self).wf(),
            final(self).width == old(self).width,
            final(self).height == old(self).height,
            forall|px: int, py: int|
                #[trigger] final(self).sel(px, py) == final(self).in_dims(px, py),
            final(self).bounds == Option::Some(
                SelectionBounds {
                    min_x: 0,
                    max_x: (old(self).width - 1) as u32,
                    min_y: 0,
                    max_y: (old(self).height - 1) as u32,
                },
            ),
            final(self).bounds_exact(),
    {
        let len = self.mask.len();
        self.mask = filled_bool(len, true);
        self.bounds = Option::Some(
            SelectionBounds { min_x: 0, max_x: self.width - 1, min_y: 0, max_y: self.height - 1 },
        );
        proof {
            assert forall|px: int, py: int| #[trigger] self.sel(px, py) == self.in_dims(
                px,
                py,
            ) by {
                if self.in_dims(px, py) {
                    self.lemma_index_in_range(px, py);
                }
            }
            assert(self.sel(0, 0));
            assert(self.sel(self.width as int - 1, 0));
            assert(self.sel(0, self.height as int - 1));
        }
    }

    /// Flips every cell of the mask and recomputes the box.
    pub fn invert(&mut self)
        requires
            old(self).wf(),
        ensures
            final(self).wf(),
            final(self).width == old(self).width,
            final(self).height == old(self).height,
            forall|px: int, py: int|
                final(self).in_dims(px, py) ==> #[trigger] final(self).sel(px, py) == !old(
                    self,
                ).sel(px, py),
            final(self).bounds_exact(),
    {
        let ghost orig = old(self).mask@;
        let mut i: usize = 0;
        let len = self.mask.len();
        while i < len
            invariant
                self.width == old(self).width,
                self.height == old(self).height,
                self.bounds == old(self).bounds,
                self.mask@.len() == orig.len(),
                len == orig.len(),
                i <= len,
                forall|k: int| 0 <= k < i ==> self.mask@[k] == !orig[k],
                forall|k: int| i <= k < len ==> self.mask@[k] == orig[k],
            decreases len - i,
        {
            let v = self.mask[i];
            self.mask.set(i, !v);
            i = i + 1;
        }
        let ghost flipped = *self;
        self.update_bounds();
        proof {
            assert(self.mask@ == flipped.mask@);
            assert forall|px: int, py: int|
                self.in_dims(px, py) implies #[trigger] self.sel(px, py) == !old(self).sel(
                px,
                py,
            ) by {
                old(self).lemma_index_in_range(px, py);
                assert(self.sel(px, py) == flipped.sel(px, py));
            }
        }
    }
}

/// A boolean vector of the given length with every cell set to `value`.
pub fn filled_bool(len: usize, value: bool) -> (r: Vec<bool>)
    ensures
        r@.len() == len,
        forall|i: int| 0 <= i < len ==> r@[i] == value,
{
    let mut r: Vec<bool> = Vec::new();
    let mut i: usize = 0;
    while i < len
        invariant
            i <= len,
            r@.len() == i,
            forall|k: int| 0 <= k < i ==> r@[k] == value,
        decreases len - i,
    {
        r.push(value);
        i = i + 1;
    }
    r
}

/// Combines a temporary mask into the selection under `mode`, cell by cell:
/// `Replace` takes the new mask, `Add` the union, `Subtract` the difference,
/// `Intersect` the intersection. The cached box is not updated here.
pub fn apply_selection_mode(selection: &mut Selection, new_mask: &Vec<bool>, mode: SelectionMode)
    requires
        old(selection).wf(),
        new_mask@.len() == old(selection).mask@.len(),
    ensures
        final(selection).wf(),
        final(selection).width == old(selection).width,
        final(selection).height == old(selection).height,
        final(selection).bounds == old(selection).bounds,
        final(selection).mask@.len() == old(selection).mask@.len(),
        forall|i: int|
            0 <= i < final(selection).mask@.len() ==> #[trigger] final(selection).mask@[i]
                == spec_apply_mode(mode, old(selection).mask@[i], new_mask@[i]),
{
    let len = self_mask_len(selection);
    let mut i: usize = 0;
    while i < len
        invariant
            selection.wf(),
            selection.width == old(selection).width,
            selection.height == old(selection).height,
            selection.bounds == old(selection).bounds,
            selection.mask@.len() == old(selection).mask@.len(),
            len == selection.mask@.len(),
            new_mask@.len() == len,
            i <= len,
            forall|k: int|
                0 <= k < i ==> #[trigger] selection.mask@[k] == spec_apply_mode(
                    mode,
                    old(selection).mask@[k],
                    new_mask@[k],
                ),
            forall|k: int| i <= k < len ==> selection.mask@[k] == old(selection).mask@[k],
        decreases len - i,
    {
        let cur = selection.mask[i];
        let new = new_mask[i];
        let v = match mode {
            SelectionMode::Replace => new,
            SelectionMode::Add => cur || new,
            SelectionMode::Subtract => cur && !new,
            SelectionMode::Intersect => cur && new,
        };
        selection.mask.set(i, v);
        i = i + 1;
    }
}

/// Length of the selection's mask.
fn self_mask_len(selection: &Selection) -> (r: usize)
    ensures
        r == selection.mask@.len(),
{
    selection.mask.len()
}

} // verus!
