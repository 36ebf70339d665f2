//! Grids: a storage layout together with its bounding rectangle.
pub mod layout;
pub mod walker;

use vstd::prelude::*;
use core::ops::Index;
use vstd::std_specs::convert::{FromSpec, FromSpecImpl};
use crate::axis::Position;
use crate::axis::rect::{Rect, RectBounded};
use crate::grid::layout::{AccessResult, Layout, lookup};
use crate::grid::walker::{WalkWith, Walker, Walkthrough};
use crate::grid::walker::rect_walker::RectWalker;

pub use self::layout::{AccessError, CreateError, LooseLayout, TightLayout};

verus! {

/// A layout of items together with the rectangle that bounds the grid.
pub struct Grid<L> {
    layout: L,
    bound_rect: Rect,
}

impl<L> Grid<L> {
    /// The layout holding the items.
    pub closed spec fn inner(&self) -> L {
        self.layout
    }

    /// A grid bounded by `rect`, over the layout made from `rect`.
    pub fn with_rect(rect: Rect) -> (r: Self)
        where
            L: From<Rect>,
        ensures
            r.bounds() == rect,
            call_ensures(<L as From<Rect>>::from, (rect,), r.inner()),
            <L as FromSpec<Rect>>::obeys_from_spec() ==> r.inner() == <L as FromSpec<Rect>>::from_spec(rect),
    {
        let layout = L::from(rect);
        Self::with_layout_and_rect(layout, rect)
    }

    /// A grid over `layout`, bounded by the layout's own rectangle.
    pub fn with_layout(layout: L) -> (r: Self)
        where
            L: RectBounded,
        ensures
            r.bounds() == layout.bounds(),
            r.inner() == layout,
    {
        let bound = *layout.boundary();
        Self::with_layout_and_rect(layout, bound)
    }

    /// A grid over `layout`, bounded by `bound_rect`; nothing ties the two together.
    pub fn with_layout_and_rect(layout: L, bound_rect: Rect) -> (r: Self)
        ensures
            r.bounds() == bound_rect,
            r.inner() == layout,
    {
        Self { layout, bound_rect }
    }

    /// Reads the grid along the walk that `walker` leads, from the origin.
    pub fn walkthrough<W>(&self, walker: W) -> (r: Walkthrough<'_, W, Self>)
        where
            W: Walker,
        ensures
            r.standing() == Some(Position::spec_new(0, 0)),
            r.layout() == self,
            r.walker() == walker,
            r.start() == Position::spec_new(0, 0),
            r.first_walker() == walker,
            r.steps() == 0,
            r.follows_walk(),
    {
        Walkthrough::new(walker, self)
    }

    /// Reads the grid row by row over its bounding rectangle.
    pub fn scan_through(&self) -> (r: Walkthrough<'_, RectWalker, Self>)
        ensures
            r.standing() == Some(Position::spec_new(0, 0)),
            r.layout() == self,
            r.walker() == RectWalker::spec_new(self.bounds(), 0),
            r.start() == Position::spec_new(0, 0),
            r.first_walker() == RectWalker::spec_new(self.bounds(), 0),
            r.steps() == 0,
            r.follows_walk(),
    {
        self.walkthrough(RectWalker::new(self.bound_rect))
    }

    /// Changes the grid along the walk that `walker` leads, from the origin.
    pub fn walk_with<W>(&mut self, walker: W) -> (r: WalkWith<'_, W, Self>)
        where
            W: Walker,
        ensures
            r.standing() == Some(Position::spec_new(0, 0)),
            r.layout() == *old(self),
            *final(r.layout_mut) == *final(self),
            r.walker() == walker,
            r.start() == Position::spec_new(0, 0),
            r.first_walker() == walker,
            r.steps() == 0,
            r.follows_walk(),
    {
        WalkWith::new(walker, self)
    }

    /// Changes the grid row by row over its bounding rectangle.
    pub fn scan_with(&mut self) -> (r: WalkWith<'_, RectWalker, Self>)
        ensures
            r.standing() == Some(Position::spec_new(0, 0)),
            r.layout() == *old(self),
            *final(r.layout_mut) == *final(self),
            r.walker() == RectWalker::spec_new(old(self).bounds(), 0),
            r.start() == Position::spec_new(0, 0),
            r.first_walker() == RectWalker::spec_new(old(self).bounds(), 0),
            r.steps() == 0,
            r.follows_walk(),
    {
        let rect = self.bound_rect;
        self.walk_with(RectWalker::new(rect))
    }
}

impl<L> From<Rect> for Grid<L> where L: From<Rect> {
    fn from(value: Rect) -> (r: Self)
        ensures
            r.bounds() == value,
            call_ensures(<L as From<Rect>>::from, (value,), r.inner()),
    {
        Self::with_rect(value)
    }
}

impl<L> FromSpecImpl<Rect> for Grid<L> where L: From<Rect> {
    /// Only the bounds of the grid are known, so no value is claimed.
    open spec fn obeys_from_spec() -> bool {
        false
    }

    open spec fn from_spec(v: Rect) -> Grid<L> {
        arbitrary()
    }
}

impl<L: Layout> Layout for Grid<L> {
    type Item = L::Item;

    open spec fn wf(&self) -> bool {
        self.inner().wf()
    }

    open spec fn cells(&self) -> Set<Position> {
        self.inner().cells()
    }

    open spec fn contents(&self) -> Map<Position, L::Item> {
        self.inner().contents()
    }

    proof fn lemma_contents_within_cells(&self) {
        self.inner().lemma_contents_within_cells();
    }

    fn get(&self, pos: &Position) -> (r: AccessResult<&L::Item>) {
        self.layout.get(pos)
    }

    fn get_mut(&mut self, pos: &Position) -> (r: AccessResult<&mut L::Item>)
        ensures
            final(self).bounds() == old(self).bounds(),
    {
        self.layout.get_mut(pos)
    }

    fn set(&mut self, pos: &Position, item: L::Item) -> (r: AccessResult<Option<L::Item>>)
        ensures
            final(self).bounds() == old(self).bounds(),
    {
        self.layout.set(pos, item)
    }

    fn rmv(&mut self, pos: &Position) -> (r: AccessResult<Option<L::Item>>)
        ensures
            final(self).bounds() == old(self).bounds(),
    {
        self.layout.rmv(pos)
    }

    fn has(&self, pos: &Position) -> (r: bool) {
        self.layout.has(pos)
    }
}

impl<L> RectBounded for Grid<L> {
    closed spec fn bounds(&self) -> Rect {
        self.bound_rect
    }

    fn boundary(&self) -> (r: &Rect) {
        &self.bound_rect
    }
}

impl<'a, L: Layout> Index<&'a Position> for Grid<L> {
    type Output = L::Item;

    fn index(&self, index: &'a Position) -> (r: &L::Item)
        ensures
            lookup(self.cells(), self.contents(), *index) == Ok::<L::Item, AccessError>(*r),
    {
        self.get(index).unwrap()
    }
}

impl<'a, L: Layout> vstd::std_specs::core::IndexSpecImpl<&'a Position> for Grid<L> {
    open spec fn index_req(&self, index: &&'a Position) -> bool {
        self.wf() && self.cells().contains(**index) && self.contents().contains_key(**index)
    }
}

} // verus!
