//! A walker over the cells of a rectangle, row by row.
use vstd::prelude::*;
use crate::axis::Offset;
use crate::axis::rect::Rect;
use crate::axis::Position;
use crate::grid::walker::{lemma_forward_walk_increases, steps_forward, walk_position, walker_after, NeverAcross, Walker};

verus! {

/// The step back from the end of a row of width `w` to the start of the next row: the
/// column distance `1 - w`, wrapped into an `isize` as a two's complement machine does.
pub open spec fn line_return(w: usize) -> isize {
    if w - 1 <= isize::MAX {
        (1 - w) as isize
    } else {
        (usize::MAX - w + 2) as isize
    }
}

/// The step from the cell with row-major index `c` to the next cell.
pub open spec fn rect_step(rect: Rect, c: int) -> Offset {
    if c % (rect.width() as int) == rect.width() - 1 {
        Offset::spec_new(line_return(rect.width()), 1)
    } else {
        Offset::spec_new(1, 0)
    }
}

/// The number of steps a walk over `rect` gives: one per cell, at most `usize::MAX`.
pub open spec fn walk_limit(rect: Rect) -> int {
    if rect.has_usize_area() {
        rect.area()
    } else {
        usize::MAX as int
    }
}

/// Gives the steps of a row-major walk over the cells of a rectangle.
pub struct RectWalker {
    count: usize,
    rect: Rect,
}

impl RectWalker {
    /// The rectangle walked.
    pub closed spec fn shape(&self) -> Rect {
        self.rect
    }

    /// The number of steps given so far.
    pub closed spec fn steps_taken(&self) -> usize {
        self.count
    }

    /// The walker over `rect` that has given `count` steps.
    pub closed spec fn spec_new(rect: Rect, count: usize) -> RectWalker {
        RectWalker { count, rect }
    }

    /// A walker made of a rectangle and a step count has those.
    pub broadcast proof fn lemma_spec_new(rect: Rect, count: usize)
        ensures
            (#[trigger] RectWalker::spec_new(rect, count)).shape() == rect,
            RectWalker::spec_new(rect, count).steps_taken() == count,
    {
    }

    pub fn new(rect: Rect) -> (r: Self)
        ensures
            r == RectWalker::spec_new(rect, 0),
            r.shape() == rect,
            r.steps_taken() == 0,
    {
        Self { rect, count: 0 }
    }
}

impl Walker for RectWalker {
    open spec fn after_step(&self) -> RectWalker {
        if self.steps_taken() >= walk_limit(self.shape()) {
            *self
        } else {
            RectWalker::spec_new(self.shape(), (self.steps_taken() + 1) as usize)
        }
    }

    open spec fn step_given(&self) -> Option<Offset> {
        if self.steps_taken() >= walk_limit(self.shape()) {
            None
        } else {
            Some(rect_step(self.shape(), self.steps_taken() as int))
        }
    }

    fn next_step(&mut self) -> (r: Option<Offset>)
        ensures
            final(self).shape() == old(self).shape(),
            old(self).steps_taken() >= walk_limit(old(self).shape()) ==> r is None
                && final(self).steps_taken() == old(self).steps_taken(),
            old(self).steps_taken() < walk_limit(old(self).shape()) ==> r == Some(
                rect_step(old(self).shape(), old(self).steps_taken() as int),
            ) && final(self).steps_taken() == old(self).steps_taken() + 1,
    {
        let limit = match self.rect.checked_size() {
            Some(size) => size,
            None => usize::MAX,
        };
        if self.count >= limit {
            return None;
        }
        let w = self.rect.get_width();
        proof {
            if self.rect.has_usize_area() {
                crate::axis::rect::lemma_positive_side(self.count as int, w as int, self.rect.height() as int);
            } else if w == 0 {
                assert(w * self.rect.height() == 0) by (nonlinear_arith)
                    requires
                        w == 0,
                ;
            }
        }
        self.count = self.count + 1;
        let offset = if (self.count - 1) % w == w - 1 {
            let back: isize = if w - 1 <= (isize::MAX as usize) {
                -((w - 1) as isize)
            } else {
                (usize::MAX - w + 2) as isize
            };
            Offset::new(back, 1)
        } else {
            Offset::new(1, 0)
        };
        Some(offset)
    }
}

impl NeverAcross for RectWalker {
    proof fn lemma_never_across(&self, start: Position, i: nat, j: nat) {
        assert forall|v: RectWalker| (#[trigger] v.step_given()) is Some implies steps_forward(v.step_given().unwrap()) by {
            broadcast use crate::axis::group_axis_lemmas;

            let o = rect_step(v.shape(), v.steps_taken() as int);
            assert(v.step_given() == Some(o));
            assert(o.y() == 0 ==> o.x() == 1);
        }
        lemma_forward_walk_increases(*self, start, i, j);
    }
}

/// Each step of a row-major walk leads from a cell to the next one in row-major order.
pub proof fn lemma_rect_walk_follows_rows(rect: Rect, k: int)
    requires
        rect.has_usize_area(),
        0 <= k,
        k + 1 < rect.area(),
    ensures
        rect.spec_fold_x_first(k).can_offset(rect_step(rect, k)),
        rect.spec_fold_x_first(k).offset_by(rect_step(rect, k)) == rect.spec_fold_x_first(k + 1),
{
    broadcast use crate::axis::group_axis_lemmas;

    let w = rect.width() as int;
    let h = rect.height() as int;
    crate::axis::rect::lemma_index_split(k, w, h);
    crate::axis::rect::lemma_index_split(k + 1, w, h);
    let q = k / w;
    let r = k % w;
    if r == w - 1 {
        assert(w * (q + 1) + 0 == k + 1) by (nonlinear_arith)
            requires
                w * q + r == k,
                r == w - 1,
        ;
        assert(q + 1 < h) by (nonlinear_arith)
            requires
                w * (q + 1) < w * h,
                w > 0,
        ;
        crate::axis::rect::lemma_index_join(q + 1, 0, w, h);
        assert(w * 2 <= w * h) by (nonlinear_arith)
            requires
                q + 1 < h,
                0 <= q,
                w > 0,
        ;
        assert(w - 1 <= isize::MAX);
    } else {
        assert((k + 1) / w == q && (k + 1) % w == r + 1) by {
            crate::axis::rect::lemma_index_join(q, r + 1, w, h);
        }
    }
    crate::axis::Position::lemma_ext(
        rect.spec_fold_x_first(k).offset_by(rect_step(rect, k)),
        rect.spec_fold_x_first(k + 1),
    );
}

/// After `k` steps, a fresh walker over `rect` has given `k` steps.
proof fn lemma_rect_walker_after(rect: Rect, k: nat)
    requires
        k <= walk_limit(rect),
    ensures
        walker_after(RectWalker::spec_new(rect, 0), k) == RectWalker::spec_new(rect, k as usize),
    decreases k,
{
    broadcast use RectWalker::lemma_spec_new;

    if k > 0 {
        lemma_rect_walker_after(rect, (k - 1) as nat);
    }
}

/// Once a walker over `rect` has given all its steps it stays as it is.
proof fn lemma_rect_walker_done(rect: Rect, k: nat)
    requires
        k >= walk_limit(rect),
    ensures
        walker_after(RectWalker::spec_new(rect, 0), k) == RectWalker::spec_new(rect, walk_limit(rect) as usize),
    decreases k,
{
    broadcast use RectWalker::lemma_spec_new;

    if k == walk_limit(rect) {
        lemma_rect_walker_after(rect, k);
    } else {
        lemma_rect_walker_done(rect, (k - 1) as nat);
    }
}

/// A fresh walker over `rect` gives exactly one step per cell: a step at each of its
/// first `area` calls, and none after.
pub proof fn lemma_rect_walk_length(rect: Rect, k: nat)
    requires
        rect.has_usize_area(),
    ensures
        k < rect.area() ==> walker_after(RectWalker::spec_new(rect, 0), k).step_given()
            == Some(rect_step(rect, k as int)),
        k >= rect.area() ==> walker_after(RectWalker::spec_new(rect, 0), k).step_given() is None,
{
    broadcast use RectWalker::lemma_spec_new;

    if k < rect.area() {
        lemma_rect_walker_after(rect, k);
    } else {
        lemma_rect_walker_done(rect, k);
    }
}

/// A row-major walk over `rect` from the origin stands, after `k` steps, on the cell
/// with row-major index `k`: it reads every cell once, row by row.
pub proof fn lemma_rect_walk_visits_rows(rect: Rect, k: nat)
    requires
        rect.has_usize_area(),
        k < rect.area(),
    ensures
        walk_position(RectWalker::spec_new(rect, 0), Position::spec_new(0, 0), k) == Some(rect.spec_fold_x_first(k as int)),
    decreases k,
{
    broadcast use RectWalker::lemma_spec_new;
    broadcast use crate::axis::group_axis_lemmas;

    if k == 0 {
        crate::axis::rect::lemma_positive_side(0, rect.width() as int, rect.height() as int);
        assert(0int % (rect.width() as int) == 0 && 0int / (rect.width() as int) == 0);
    } else {
        lemma_rect_walk_visits_rows(rect, (k - 1) as nat);
        lemma_rect_walker_after(rect, (k - 1) as nat);
        lemma_rect_walk_follows_rows(rect, k - 1);
    }
}

/// After its last step, a row-major walk over `rect` from the origin stands just below
/// the last row, at column zero; this needs the step back to the row start, `1 - w`, to
/// fit in an `isize`.
pub proof fn lemma_rect_walk_last_step(rect: Rect)
    requires
        rect.has_usize_area(),
        rect.area() >= 1,
        rect.width() - 1 <= isize::MAX,
    ensures
        walk_position(RectWalker::spec_new(rect, 0), Position::spec_new(0, 0), rect.area() as nat)
            == Some(Position::spec_new(0, rect.height())),
{
    broadcast use RectWalker::lemma_spec_new;
    broadcast use crate::axis::group_axis_lemmas;

    let w = rect.width() as int;
    let h = rect.height() as int;
    let k = rect.area() - 1;
    crate::axis::rect::lemma_positive_side(k, w, h);
    assert(w * (h - 1) + (w - 1) == k) by (nonlinear_arith)
        requires
            k == w * h - 1,
    ;
    crate::axis::rect::lemma_index_join(h - 1, w - 1, w, h);
    lemma_rect_walk_visits_rows(rect, k as nat);
    lemma_rect_walk_length(rect, k as nat);
    assert(rect.spec_fold_x_first(k) == Position::spec_new((w - 1) as usize, (h - 1) as usize));
    assert(rect_step(rect, k) == Offset::spec_new((1 - w) as isize, 1));
    assert((k + 1) as nat == rect.area() as nat);
    crate::axis::Position::lemma_ext(
        Position::spec_new((w - 1) as usize, (h - 1) as usize).offset_by(Offset::spec_new((1 - w) as isize, 1)),
        Position::spec_new(0, rect.height()),
    );
}

/// A row-major walk never comes back to a cell: distinct step counts are distinct cells.
pub proof fn lemma_rect_walk_never_across(rect: Rect, i: int, j: int)
    requires
        0 <= i < j < rect.area(),
    ensures
        rect.spec_fold_x_first(i) != rect.spec_fold_x_first(j),
{
    rect.lemma_fold_flatten_x_first(i);
    rect.lemma_fold_flatten_x_first(j);
}

} // verus!
