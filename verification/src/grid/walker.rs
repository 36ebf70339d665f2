//! Walks over the cells of a grid, led by a walker that gives the step to the next cell.
pub mod rect_walker;

use vstd::prelude::*;
use crate::axis::{Offset, Position};
use crate::axis::zone::OffsetWalker;
use crate::grid::layout::{Layout, lookup};

verus! {

/// Gives, step by step, the offset that leads to the next cell of a walk.
pub trait Walker: Sized {
    /// The walker after it has given its next step.
    spec fn after_step(&self) -> Self;

    /// The next step it gives, or `None` when the walk ends.
    spec fn step_given(&self) -> Option<Offset>;

    /// The next step, or `None` when the walk ends.
    fn next_step(&mut self) -> (r: Option<Offset>)
        ensures
            *final(self) == old(self).after_step(),
            r == old(self).step_given(),
    ;
}

impl Walker for OffsetWalker {
    open spec fn after_step(&self) -> OffsetWalker {
        self.advanced()
    }

    open spec fn step_given(&self) -> Option<Offset> {
        self.advance_result()
    }

    fn next_step(&mut self) -> (r: Option<Offset>)
        ensures
            final(self).step_x() == old(self).step_x(),
            final(self).step_y() == old(self).step_y(),
            ({
                let c = old(self).current();
                let fits = isize::MIN <= c.x() + old(self).step_x() <= isize::MAX && isize::MIN
                    <= c.y() + old(self).step_y() <= isize::MAX;
                &&& fits ==> r == Some(c) && final(self).current() == Offset::spec_new(
                    (c.x() + old(self).step_x()) as isize,
                    (c.y() + old(self).step_y()) as isize,
                )
                &&& !fits ==> r is None && final(self).current() == c
            }),
    {
        self.next()
    }
}

/// The walker after it has given `n` steps.
pub open spec fn walker_after<W: Walker>(w: W, n: nat) -> W
    decreases n,
{
    if n == 0 {
        w
    } else {
        walker_after(w, (n - 1) as nat).after_step()
    }
}

/// Where a walk led by `w` from `start` stands after `n` steps; `None` once it has ended.
pub open spec fn walk_position<W: Walker>(w: W, start: Position, n: nat) -> Option<Position>
    decreases n,
{
    if n == 0 {
        Some(start)
    } else {
        walk_on(walk_position(w, start, (n - 1) as nat), walker_after(w, (n - 1) as nat).step_given())
    }
}

/// Whether the offset `c` moved `k` times by `(dx, dy)` fits in an `Offset`.
pub open spec fn multiple_fits(c: Offset, dx: int, dy: int, k: int) -> bool {
    &&& isize::MIN <= c.x() + k * dx <= isize::MAX
    &&& isize::MIN <= c.y() + k * dy <= isize::MAX
}

/// An offset walker gives, at its `k`-th step, its first offset moved `k` times by its
/// step, as long as the offset after that fits.
pub proof fn lemma_offset_walker_steps(w: OffsetWalker, k: nat)
    requires
        multiple_fits(w.current(), w.step_x() as int, w.step_y() as int, k as int + 1),
    ensures
        walker_after(w, k).step_x() == w.step_x(),
        walker_after(w, k).step_y() == w.step_y(),
        walker_after(w, k).current() == Offset::spec_new(
            (w.current().x() + k * w.step_x()) as isize,
            (w.current().y() + k * w.step_y()) as isize,
        ),
        walker_after(w, k).step_given() == Some(walker_after(w, k).current()),
    decreases k,
{
    broadcast use crate::axis::group_axis_lemmas;

    let c = w.current();
    let dx = w.step_x() as int;
    let dy = w.step_y() as int;
    let cur = walker_after(w, k);
    if k == 0 {
        assert(c.x() + 0 * dx == c.x() && c.y() + 0 * dy == c.y()) by (nonlinear_arith);
        Offset::lemma_ext(cur.current(), Offset::spec_new((c.x() + k * dx) as isize, (c.y() + k * dy) as isize));
    } else {
        assert(multiple_fits(c, dx, dy, k as int)) by {
            assert(isize::MIN <= c.x() + k * dx <= isize::MAX) by (nonlinear_arith)
                requires
                    isize::MIN <= c.x() <= isize::MAX,
                    isize::MIN <= c.x() + (k + 1) * dx <= isize::MAX,
                    k >= 1,
            ;
            assert(isize::MIN <= c.y() + k * dy <= isize::MAX) by (nonlinear_arith)
                requires
                    isize::MIN <= c.y() <= isize::MAX,
                    isize::MIN <= c.y() + (k + 1) * dy <= isize::MAX,
                    k >= 1,
            ;
        }
        lemma_offset_walker_steps(w, (k - 1) as nat);
        let j = (k - 1) as nat;
        assert(j == k - 1);
        assert(isize::MIN <= c.x() + j * dx <= isize::MAX) by (nonlinear_arith)
            requires
                isize::MIN <= c.x() <= isize::MAX,
                isize::MIN <= c.x() + (j + 1) * dx <= isize::MAX,
        ;
        assert(isize::MIN <= c.y() + j * dy <= isize::MAX) by (nonlinear_arith)
            requires
                isize::MIN <= c.y() <= isize::MAX,
                isize::MIN <= c.y() + (j + 1) * dy <= isize::MAX,
        ;
        let prev = walker_after(w, j);
        prev.lemma_advanced();
        assert(c.x() + (k - 1) * dx + dx == c.x() + k * dx) by (nonlinear_arith);
        assert(c.y() + (k - 1) * dy + dy == c.y() + k * dy) by (nonlinear_arith);
        assert(prev.current().x() == c.x() + (k - 1) * dx);
        assert(prev.current().y() == c.y() + (k - 1) * dy);
        assert(prev.can_advance());
        assert(cur == prev.advanced());
    }
    assert(cur.current().x() == c.x() + k * dx);
    assert(cur.current().y() == c.y() + k * dy);
    assert(c.x() + k * dx + dx == c.x() + (k + 1) * dx) by (nonlinear_arith);
    assert(c.y() + k * dy + dy == c.y() + (k + 1) * dy) by (nonlinear_arith);
    assert(cur.can_advance());
}

/// `k` successful steps of an offset walker are undone by moving it back `k` steps:
/// after them the walker can go back `k` steps, and that lands on its first offset.
pub proof fn lemma_offset_walker_back(w: OffsetWalker, k: nat)
    requires
        k <= isize::MAX,
        multiple_fits(w.current(), w.step_x() as int, w.step_y() as int, k as int),
    ensures
        walker_after(w, k).step_x() == w.step_x(),
        walker_after(w, k).step_y() == w.step_y(),
        walker_after(w, k).can_go_back(k as isize),
        Offset::spec_new(
            (walker_after(w, k).current().x() - walker_after(w, k).step_x() * (k as isize)) as isize,
            (walker_after(w, k).current().y() - walker_after(w, k).step_y() * (k as isize)) as isize,
        ) == w.current(),
{
    broadcast use crate::axis::group_axis_lemmas;

    let c = w.current();
    let dx = w.step_x() as int;
    let dy = w.step_y() as int;
    if k == 0 {
        assert(walker_after(w, 0) == w);
        assert(c.x() - dx * 0 == c.x() && c.y() - dy * 0 == c.y()) by (nonlinear_arith);
    } else {
        let j = (k - 1) as nat;
        lemma_offset_walker_steps(w, j);
        let prev = walker_after(w, j);
        prev.lemma_advanced();
        assert(c.x() + j * dx + dx == c.x() + k * dx) by (nonlinear_arith)
            requires
                j == k - 1,
        ;
        assert(c.y() + j * dy + dy == c.y() + k * dy) by (nonlinear_arith)
            requires
                j == k - 1,
        ;
        assert(isize::MIN <= c.x() + j * dx <= isize::MAX) by (nonlinear_arith)
            requires
                isize::MIN <= c.x() <= isize::MAX,
                isize::MIN <= c.x() + (j + 1) * dx <= isize::MAX,
        ;
        assert(isize::MIN <= c.y() + j * dy <= isize::MAX) by (nonlinear_arith)
            requires
                isize::MIN <= c.y() <= isize::MAX,
                isize::MIN <= c.y() + (j + 1) * dy <= isize::MAX,
        ;
        let v = walker_after(w, k);
        assert(v == prev.advanced());
        assert(v.current().x() == c.x() + k * dx);
        assert(v.current().y() == c.y() + k * dy);
        assert(c.x() + k * dx - dx * k == c.x() && c.y() + k * dy - dy * k == c.y()) by (nonlinear_arith);
    }
    Offset::lemma_ext(
        Offset::spec_new(
            (walker_after(w, k).current().x() - walker_after(w, k).step_x() * (k as isize)) as isize,
            (walker_after(w, k).current().y() - walker_after(w, k).step_y() * (k as isize)) as isize,
        ),
        c,
    );
}

/// Walking `j` steps and then `n` more is walking `j + n` steps.
pub proof fn lemma_walker_after_add<W: Walker>(w: W, j: nat, n: nat)
    ensures
        walker_after(walker_after(w, j), n) == walker_after(w, j + n),
    decreases n,
{
    if n > 0 {
        lemma_walker_after_add(w, j, (n - 1) as nat);
    }
}

/// Once an offset walker's next offset does not fit, it gives no step on any later call.
pub proof fn lemma_offset_walker_ended(w: OffsetWalker, k: nat, j: nat)
    requires
        !walker_after(w, k).can_advance(),
        k <= j,
    ensures
        walker_after(w, j) == walker_after(w, k),
        walker_after(w, j).step_given() is None,
{
    lemma_walker_after_add(w, k, (j - k) as nat);
    lemma_offset_walker_stops(walker_after(w, k), (j - k) as nat);
}

/// An offset walker whose next offset does not fit gives no step, now or ever after.
pub proof fn lemma_offset_walker_stops(w: OffsetWalker, k: nat)
    requires
        !w.can_advance(),
    ensures
        walker_after(w, k) == w,
        walker_after(w, k).step_given() is None,
    decreases k,
{
    w.lemma_advanced();
    if k > 0 {
        lemma_offset_walker_stops(w, (k - 1) as nat);
    }
}

/// Walkers that never lead back to a cell already visited: two different step counts of
/// a walk that has not ended stand on different cells.
pub trait NeverAcross: Walker {
    proof fn lemma_never_across(&self, start: Position, i: nat, j: nat)
        requires
            i < j,
            walk_position(*self, start, i) is Some,
            walk_position(*self, start, j) is Some,
        ensures
            walk_position(*self, start, i) != walk_position(*self, start, j),
    ;
}

/// Whether a step moves forward in row-major order: down a row, or right along a row.
pub open spec fn steps_forward(o: Offset) -> bool {
    o.y() > 0 || (o.y() == 0 && o.x() > 0)
}

/// Whether `p` comes before `q` in row-major order.
pub open spec fn row_major_before(p: Position, q: Position) -> bool {
    p.y() < q.y() || (p.y() == q.y() && p.x() < q.x())
}

/// A walk whose every step moves forward in row-major order stands on cells in strictly
/// increasing row-major order, so it never comes back to a cell.
pub proof fn lemma_forward_walk_increases<W: Walker>(w: W, start: Position, i: nat, j: nat)
    requires
        i < j,
        walk_position(w, start, j) is Some,
        forall|v: W| (#[trigger] v.step_given()) is Some ==> steps_forward(v.step_given().unwrap()),
    ensures
        walk_position(w, start, i) is Some,
        row_major_before(walk_position(w, start, i).unwrap(), walk_position(w, start, j).unwrap()),
    decreases j,
{
    broadcast use crate::axis::group_axis_lemmas;

    let prev = walk_position(w, start, (j - 1) as nat);
    let step = walker_after(w, (j - 1) as nat).step_given();
    assert(prev is Some && step is Some);
    let p = prev.unwrap();
    let o = step.unwrap();
    assert(steps_forward(o));
    assert(p.can_offset(o));
    assert(walk_position(w, start, j) == Some(p.offset_by(o)));
    assert(row_major_before(p, p.offset_by(o)));
    if i < j - 1 {
        lemma_forward_walk_increases(w, start, i, (j - 1) as nat);
    }
}

/// What reading `pos` in `layout` gives: the item, or `None` for a cell outside the
/// layout or without an item.
pub open spec fn item_at<L: Layout>(layout: &L, pos: Position) -> Option<L::Item> {
    match lookup(layout.cells(), layout.contents(), pos) {
        Ok(v) => Some(v),
        Err(_) => None,
    }
}

/// Reads the cells of a layout along a walk that starts at the origin.
pub struct Walkthrough<'l, W, L> {
    stand: Option<Position>,
    walker: W,
    layout_ref: &'l L,
    start_pos: Ghost<Position>,
    first: Ghost<W>,
    taken: Ghost<nat>,
}

impl<'l, W: Walker, L> Walkthrough<'l, W, L> {
    /// The cell the walk started from.
    pub closed spec fn start(&self) -> Position {
        self.start_pos@
    }

    /// The walker as the walk started.
    pub closed spec fn first_walker(&self) -> W {
        self.first@
    }

    /// The number of cells read so far.
    pub closed spec fn steps(&self) -> nat {
        self.taken@
    }

    /// The walk so far is the one its first walker leads from its start: after `steps()`
    /// reads it stands on the cell `walk_position` names, with the walker that many steps
    /// on.
    pub open spec fn follows_walk(&self) -> bool {
        &&& self.standing() == walk_position(self.first_walker(), self.start(), self.steps())
        &&& self.walker() == walker_after(self.first_walker(), self.steps())
    }

    /// The cell that the walk reads next, if it has not ended.
    pub closed spec fn standing(&self) -> Option<Position> {
        self.stand
    }

    /// The layout read.
    pub closed spec fn layout(&self) -> &'l L {
        self.layout_ref
    }

    /// The walker that leads the walk.
    pub closed spec fn walker(&self) -> W {
        self.walker
    }

    pub(crate) fn new(walker: W, layout_ref: &'l L) -> (r: Self)
        ensures
            r.standing() == Some(Position::spec_new(0, 0)),
            r.layout() == layout_ref,
            r.walker() == walker,
            r.start() == Position::spec_new(0, 0),
            r.first_walker() == walker,
            r.steps() == 0,
            r.follows_walk(),
    {
        Self::with_start(Position::new(0, 0), walker, layout_ref)
    }

    pub(crate) fn with_start(start: Position, walker: W, layout_ref: &'l L) -> (r: Self)
        ensures
            r.standing() == Some(start),
            r.layout() == layout_ref,
            r.walker() == walker,
            r.start() == start,
            r.first_walker() == walker,
            r.steps() == 0,
            r.follows_walk(),
    {
        let ghost w0 = walker;
        Self { stand: Some(start), walker, layout_ref, start_pos: Ghost(start), first: Ghost(w0), taken: Ghost(0) }
    }
}

impl<'l, W: Walker, L: Layout> Walkthrough<'l, W, L> {
    /// Reads the current cell (`Some(None)` where it holds nothing or lies outside the
    /// layout) and moves on by the walker's next step; `None` once the walk has ended.
    /// The walk ends after the walker's last step, and also when a step would leave the
    /// grid.
    pub fn next(&mut self) -> (r: Option<Option<&'l L::Item>>)
        requires
            old(self).layout().wf(),
        ensures
            final(self).layout() == old(self).layout(),
            final(self).walker() == (if old(self).standing() is Some {
                old(self).walker().after_step()
            } else {
                old(self).walker()
            }),
            final(self).standing() == walk_on(old(self).standing(), old(self).walker().step_given()),
            final(self).start() == old(self).start(),
            final(self).first_walker() == old(self).first_walker(),
            final(self).steps() == old(self).steps() + (if old(self).standing() is Some {
                1nat
            } else {
                0nat
            }),
            old(self).follows_walk() ==> final(self).follows_walk(),
            match old(self).standing() {
                None => r is None,
                Some(p) => match r {
                    Some(Some(item)) => item_at(old(self).layout(), p) == Some(*item),
                    Some(None) => item_at(old(self).layout(), p) is None,
                    None => false,
                },
            },
    {
        let stand = match self.stand.take() {
            Some(p) => p,
            None => {
                return None;
            },
        };
        if let Some(offset) = self.walker.next_step() {
            self.stand = step_from(stand, offset);
        }
        self.taken = Ghost(self.taken@ + 1);
        match self.layout_ref.get(&stand) {
            Ok(value) => Some(Some(value)),
            Err(_) => Some(None),
        }
    }
}

/// Where a walk standing at `stand` stands after a step that the walker gave as `step`:
/// the cell moved by the step, or nowhere once the walk has ended, the walker has no step
/// left, or the step leaves the grid.
pub open spec fn walk_on(stand: Option<Position>, step: Option<Offset>) -> Option<Position> {
    match (stand, step) {
        (Some(p), Some(o)) => if p.can_offset(o) {
            Some(p.offset_by(o))
        } else {
            None
        },
        _ => None,
    }
}

/// `pos` moved by `offset`, or `None` when that leaves the grid.
pub(crate) fn step_from(pos: Position, offset: Offset) -> (r: Option<Position>)
    ensures
        r == (if pos.can_offset(offset) {
            Some(pos.offset_by(offset))
        } else {
            None
        }),
{
    let x = pos.pos_x().checked_add_signed(offset.get_x());
    let y = pos.pos_y().checked_add_signed(offset.get_y());
    match (x, y) {
        (Some(x), Some(y)) => Some(Position::new(x, y)),
        _ => None,
    }
}

/// Changes the cells of a layout along a walk that starts at the origin.
pub struct WalkWith<'l, W, L> {
    /// The cell the walk visits next, if it has not ended.
    pub stand: Option<Position>,
    /// The walker that leads the walk.
    pub walker: W,
    /// The layout changed; what the walk writes through it is what the layout holds
    /// once the walk is dropped.
    pub layout_mut: &'l mut L,
    /// The cell the walk started from.
    pub start_pos: Ghost<Position>,
    /// The walker as the walk started.
    pub first: Ghost<W>,
    /// The number of cells visited so far.
    pub taken: Ghost<nat>,
}

impl<'l, W: Walker, L> WalkWith<'l, W, L> {
    /// The cell the walk started from.
    pub open spec fn start(&self) -> Position {
        self.start_pos@
    }

    /// The walker as the walk started.
    pub open spec fn first_walker(&self) -> W {
        self.first@
    }

    /// The number of cells visited so far.
    pub open spec fn steps(&self) -> nat {
        self.taken@
    }

    /// The walk so far is the one its first walker leads from its start: after `steps()`
    /// visits it stands on the cell `walk_position` names, with the walker that many
    /// steps on.
    pub open spec fn follows_walk(&self) -> bool {
        &&& self.standing() == walk_position(self.first_walker(), self.start(), self.steps())
        &&& self.walker() == walker_after(self.first_walker(), self.steps())
    }

    pub open spec fn standing(&self) -> Option<Position> {
        self.stand
    }

    /// The layout changed.
    pub open spec fn layout(&self) -> L {
        *self.layout_mut
    }

    /// The walker that leads the walk.
    pub open spec fn walker(&self) -> W {
        self.walker
    }

    pub(crate) fn new(walker: W, layout_mut: &'l mut L) -> (r: Self)
        ensures
            r.standing() == Some(Position::spec_new(0, 0)),
            r.layout() == *old(layout_mut),
            *final(r.layout_mut) == *final(layout_mut),
            r.walker() == walker,
            r.start() == Position::spec_new(0, 0),
            r.first_walker() == walker,
            r.steps() == 0,
            r.follows_walk(),
    {
        Self::with_start(Position::new(0, 0), walker, layout_mut)
    }

    pub(crate) fn with_start(start: Position, walker: W, layout_mut: &'l mut L) -> (r: Self)
        ensures
            r.standing() == Some(start),
            r.layout() == *old(layout_mut),
            *final(r.layout_mut) == *final(layout_mut),
            r.walker() == walker,
            r.start() == start,
            r.first_walker() == walker,
            r.steps() == 0,
            r.follows_walk(),
    {
        let ghost w0 = walker;
        Self { stand: Some(start), walker, layout_mut, start_pos: Ghost(start), first: Ghost(w0), taken: Ghost(0) }
    }
}

impl<'l, W: NeverAcross, L: Layout> WalkWith<'l, W, L> {
    /// Gives access to the current cell's item (`Some(None)` where it holds nothing or
    /// lies outside the layout) and moves on by the walker's next step; `None` once the
    /// walk has ended. The item can be changed until the next call.
    pub fn next(&mut self) -> (r: Option<Option<&mut L::Item>>)
        requires
            old(self).layout().wf(),
        ensures
            final(self).layout().wf(),
            final(self).layout().cells() == old(self).layout().cells(),
            final(self).walker() == (if old(self).standing() is Some {
                old(self).walker().after_step()
            } else {
                old(self).walker()
            }),
            final(self).standing() == walk_on(old(self).standing(), old(self).walker().step_given()),
            final(self).start() == old(self).start(),
            final(self).first_walker() == old(self).first_walker(),
            final(self).steps() == old(self).steps() + (if old(self).standing() is Some {
                1nat
            } else {
                0nat
            }),
            old(self).follows_walk() ==> final(self).follows_walk(),
            match old(self).standing() {
                None => r is None && final(self).layout() == old(self).layout(),
                Some(p) => match r {
                    Some(Some(item)) => {
                        &&& item_at(&old(self).layout(), p) == Some(*item)
                        &&& final(self).layout().contents() == old(self).layout().contents().insert(p, *final(item))
                    },
                    Some(None) => {
                        &&& item_at(&old(self).layout(), p) is None
                        &&& final(self).layout().contents() == old(self).layout().contents()
                    },
                    None => false,
                },
            },
    {
        let stand = match self.stand.take() {
            Some(p) => p,
            None => {
                return None;
            },
        };
        if let Some(offset) = self.walker.next_step() {
            self.stand = step_from(stand, offset);
        }
        self.taken = Ghost(self.taken@ + 1);
        match self.layout_mut.get_mut(&stand) {
            Ok(value) => Some(Some(value)),
            Err(_) => Some(None),
        }
    }
}

} // verus!
