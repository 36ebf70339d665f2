//! A walker that moves an offset by a fixed step.
use vstd::prelude::*;
use crate::axis::Offset;

verus! {

/// Produces the offsets `current`, `current + delta`, `current + 2 * delta`, ... until a
/// component leaves the range of `isize`.
pub struct OffsetWalker {
    delta_x: isize,
    delta_y: isize,
    current: Offset,
}

impl OffsetWalker {
    pub closed spec fn step_x(&self) -> isize {
        self.delta_x
    }

    pub closed spec fn step_y(&self) -> isize {
        self.delta_y
    }

    /// The offset that the walker produces next.
    pub closed spec fn current(&self) -> Offset {
        self.current
    }

    /// Whether the offset after the current one fits in an `Offset`.
    pub open spec fn can_advance(&self) -> bool {
        &&& isize::MIN <= self.current().x() + self.step_x() <= isize::MAX
        &&& isize::MIN <= self.current().y() + self.step_y() <= isize::MAX
    }

    /// The walker after `next`: moved on by one step where the following offset fits,
    /// otherwise unchanged.
    pub closed spec fn advanced(self) -> OffsetWalker {
        if self.can_advance() {
            OffsetWalker {
                current: Offset::spec_new(
                    (self.current.x() + self.delta_x) as isize,
                    (self.current.y() + self.delta_y) as isize,
                ),
                ..self
            }
        } else {
            self
        }
    }

    /// The walker after `next` keeps its step; it moves on by one step where the following
    /// offset fits, and stays as it is otherwise.
    pub proof fn lemma_advanced(self)
        ensures
            self.advanced().step_x() == self.step_x(),
            self.advanced().step_y() == self.step_y(),
            self.can_advance() ==> self.advanced().current() == Offset::spec_new(
                (self.current().x() + self.step_x()) as isize,
                (self.current().y() + self.step_y()) as isize,
            ),
            !self.can_advance() ==> self.advanced() == self,
    {
    }

    /// What `next` gives: the current offset where the following one fits, else `None`.
    pub open spec fn advance_result(self) -> Option<Offset> {
        if self.can_advance() {
            Some(self.current())
        } else {
            None
        }
    }

    /// Whether moving the current offset back by `n` steps would compute an overflowing
    /// step multiple: those products are computed before any check.
    pub open spec fn backward_n_defined(&self, n: isize) -> bool {
        n > 0 ==> {
            &&& isize::MIN <= self.step_x() * n <= isize::MAX
            &&& isize::MIN <= self.current().x() - self.step_x() * n <= isize::MAX ==> isize::MIN
                <= self.step_y() * n <= isize::MAX
        }
    }

    /// Whether the current offset can move back by `n` steps.
    pub open spec fn can_go_back(&self, n: isize) -> bool {
        &&& isize::MIN <= self.current().x() - self.step_x() * n <= isize::MAX
        &&& isize::MIN <= self.current().y() - self.step_y() * n <= isize::MAX
    }

    pub fn new(delta_x: isize, delta_y: isize) -> (r: Self)
        ensures
            r.step_x() == delta_x,
            r.step_y() == delta_y,
            r.current() == Offset::spec_new(0, 0),
    {
        Self::with_offset(delta_x, delta_y, Offset::zero())
    }

    pub fn with_offset(delta_x: isize, delta_y: isize, current: Offset) -> (r: Self)
        ensures
            r.step_x() == delta_x,
            r.step_y() == delta_y,
            r.current() == current,
    {
        Self { delta_x, delta_y, current }
    }

    pub fn set_delta_x(&mut self, delta_x: isize)
        ensures
            final(self).step_x() == delta_x,
            final(self).step_y() == old(self).step_y(),
            final(self).current() == old(self).current(),
    {
        self.delta_x = delta_x;
    }

    pub fn set_delta_y(&mut self, delta_y: isize)
        ensures
            final(self).step_x() == old(self).step_x(),
            final(self).step_y() == delta_y,
            final(self).current() == old(self).current(),
    {
        self.delta_y = delta_y;
    }

    pub(crate) fn set_current(&mut self, current: Offset)
        ensures
            final(self).step_x() == old(self).step_x(),
            final(self).step_y() == old(self).step_y(),
            final(self).current() == current,
    {
        self.current = current;
    }

    /// Moves the current offset back by one step; returns whether it could.
    pub(crate) fn backward(&mut self) -> (r: bool)
        requires
            old(self).backward_n_defined(1),
        ensures
            r == old(self).can_go_back(1),
            final(self).step_x() == old(self).step_x(),
            final(self).step_y() == old(self).step_y(),
            final(self).current() == (if r {
                Offset::spec_new(
                    (old(self).current().x() - old(self).step_x()) as isize,
                    (old(self).current().y() - old(self).step_y()) as isize,
                )
            } else {
                old(self).current()
            }),
    {
        self.backward_n(1)
    }

    /// Moves the current offset back by `n` steps; returns whether it could. A negative
    /// `n` is refused, and `n == 0` leaves the walker unchanged.
    pub(crate) fn backward_n(&mut self, n: isize) -> (r: bool)
        requires
            old(self).backward_n_defined(n),
        ensures
            r == (n >= 0 && (n == 0 || old(self).can_go_back(n))),
            final(self).step_x() == old(self).step_x(),
            final(self).step_y() == old(self).step_y(),
            final(self).current() == (if r && n > 0 {
                Offset::spec_new(
                    (old(self).current().x() - old(self).step_x() * n) as isize,
                    (old(self).current().y() - old(self).step_y() * n) as isize,
                )
            } else {
                old(self).current()
            }),
    {
        if n < 0 {
            return false;
        }
        if n == 0 {
            return true;
        }
        let back_x = match self.current.get_x().checked_sub(self.delta_x * n) {
            Some(v) => v,
            None => {
                return false;
            },
        };
        let back_y = match self.current.get_y().checked_sub(self.delta_y * n) {
            Some(v) => v,
            None => {
                return false;
            },
        };
        self.set_current(Offset::new(back_x, back_y));
        true
    }

    /// The next offset of the walk, or `None` once the following offset would leave the
    /// range of `isize`; the walker then stays where it is.
    pub fn next(&mut self) -> (r: Option<Offset>)
        ensures
            *final(self) == old(self).advanced(),
            r == old(self).advance_result(),
            final(self).step_x() == old(self).step_x(),
            final(self).step_y() == old(self).step_y(),
            ({
                let c = old(self).current();
                let fits = isize::MIN <= c.x() + old(self).step_x() <= isize::MAX && isize::MIN
                    <= c.y() + old(self).step_y() <= isize::MAX;
                &&& fits ==> r == Some(c) && final(self).current() == Offset::spec_new(
                    (c.x() + old(self).step_x()) as isize,
                    (c.y() + old(self).step_y()) as isize,
                )
                &&& !fits ==> r is None && final(self).current() == c
            }),
    {
        let next_x = match self.current.get_x().checked_add(self.delta_x) {
            Some(v) => v,
            None => {
                return None;
            },
        };
        let next_y = match self.current.get_y().checked_add(self.delta_y) {
            Some(v) => v,
            None => {
                return None;
            },
        };
        let cur = self.current;
        self.current = Offset::new(next_x, next_y);
        Some(cur)
    }
}

} // verus!
