//! Storage layouts for the items of a grid.
pub mod compress_layout;
pub mod loose_layout;
pub mod tight_layout;

use vstd::prelude::*;
use crate::axis::Position;

pub use self::loose_layout::LooseLayout;
pub use self::tight_layout::TightLayout;

verus! {

/// Why a cell could not be read or written.
#[derive(Debug, Clone, Copy, PartialEq, Eq, Structural)]
pub enum AccessError<P = Position> {
    /// The cell lies outside the layout.
    CannotAccess(P),
    /// The cell lies inside the layout but holds no item.
    NoValue(P),
}

pub type AccessResult<T> = Result<T, AccessError>;

/// Why a layout could not be created.
#[derive(Debug, Clone, Copy, PartialEq, Eq)]
pub enum CreateError {
    /// The number of cells is zero, or too large for the index type.
    InvalidSize(usize),
    /// The number of cells does not fit in a `usize`.
    InvalidShape(crate::axis::zone::Rect),
}

/// What reading the cell `pos` gives, for a layout whose accessible cells are `cells`
/// and whose items are `contents`.
pub open spec fn lookup<T>(cells: Set<Position>, contents: Map<Position, T>, pos: Position) -> AccessResult<T> {
    if !cells.contains(pos) {
        Err(AccessError::CannotAccess(pos))
    } else if contents.contains_key(pos) {
        Ok(contents[pos])
    } else {
        Err(AccessError::NoValue(pos))
    }
}

/// The item stored at `pos`, if any.
pub open spec fn stored_at<T>(contents: Map<Position, T>, pos: Position) -> Option<T> {
    if contents.contains_key(pos) {
        Some(contents[pos])
    } else {
        None
    }
}

/// What writing or removing at the cell `pos` answers: the item it held, or
/// `CannotAccess` for a cell outside the layout.
pub open spec fn replaced<T>(cells: Set<Position>, contents: Map<Position, T>, pos: Position) -> AccessResult<Option<T>> {
    if cells.contains(pos) {
        Ok(stored_at(contents, pos))
    } else {
        Err(AccessError::CannotAccess(pos))
    }
}

/// Whether a borrowed read result agrees with the value-level result `v`.
pub open spec fn read_agrees<T>(r: AccessResult<&T>, v: AccessResult<T>) -> bool {
    match r {
        Ok(item) => v == Ok::<T, AccessError>(*item),
        Err(e) => v == Err::<T, AccessError>(e),
    }
}

/// A storage of items addressed by grid positions.
pub trait Layout {
    type Item;

    /// The layout's internal invariant.
    spec fn wf(&self) -> bool;

    /// The cells that can be addressed.
    spec fn cells(&self) -> Set<Position>;

    /// The items held, by cell.
    spec fn contents(&self) -> Map<Position, Self::Item>;

    /// A layout holds items only in cells it can address.
    proof fn lemma_contents_within_cells(&self)
        requires
            self.wf(),
        ensures
            forall|p: Position| #[trigger] self.contents().contains_key(p) ==> self.cells().contains(p),
    ;

    /// The item at `pos`: `CannotAccess` for a cell outside the layout, `NoValue` for an
    /// empty cell.
    fn get(&self, pos: &Position) -> (r: AccessResult<&Self::Item>)
        requires
            self.wf(),
        ensures
            read_agrees(r, lookup(self.cells(), self.contents(), *pos)),
    ;

    /// The item at `pos`, to be changed in place.
    fn get_mut(&mut self, pos: &Position) -> (r: AccessResult<&mut Self::Item>)
        requires
            old(self).wf(),
        ensures
            final(self).wf(),
            final(self).cells() == old(self).cells(),
            match r {
                Ok(item) => {
                    &&& lookup(old(self).cells(), old(self).contents(), *pos) == Ok::<Self::Item, AccessError>(*item)
                    &&& final(self).contents() == old(self).contents().insert(*pos, *final(item))
                },
                Err(e) => {
                    &&& lookup(old(self).cells(), old(self).contents(), *pos) == Err::<Self::Item, AccessError>(e)
                    &&& final(self).contents() == old(self).contents()
                },
            },
    ;

    /// Stores `item` at `pos` and answers the item it replaced; a cell outside the layout
    /// is refused with `CannotAccess` and nothing changes.
    fn set(&mut self, pos: &Position, item: Self::Item) -> (r: AccessResult<Option<Self::Item>>)
        requires
            old(self).wf(),
        ensures
            final(self).wf(),
            final(self).cells() == old(self).cells(),
            r == replaced(old(self).cells(), old(self).contents(), *pos),
            final(self).contents() == (if old(self).cells().contains(*pos) {
                old(self).contents().insert(*pos, item)
            } else {
                old(self).contents()
            }),
    ;

    /// Removes the item at `pos` and answers it; a cell outside the layout is refused
    /// with `CannotAccess` and nothing changes.
    fn rmv(&mut self, pos: &Position) -> (r: AccessResult<Option<Self::Item>>)
        requires
            old(self).wf(),
        ensures
            final(self).wf(),
            final(self).cells() == old(self).cells(),
            r == replaced(old(self).cells(), old(self).contents(), *pos),
            final(self).contents() == old(self).contents().remove(*pos),
    ;

    /// Whether `pos` holds an item.
    fn has(&self, pos: &Position) -> (r: bool)
        requires
            self.wf(),
        ensures
            r == (self.cells().contains(*pos) && self.contents().contains_key(*pos)),
    {
        self.get(pos).is_ok()
    }
}

/// Reading a cell after storing an item in it gives that item; the other cells read as
/// before.
pub proof fn lemma_read_after_set<T>(cells: Set<Position>, contents: Map<Position, T>, pos: Position, item: T, other: Position)
    requires
        cells.contains(pos),
        other != pos,
    ensures
        lookup(cells, contents.insert(pos, item), pos) == Ok::<T, AccessError>(item),
        lookup(cells, contents.insert(pos, item), other) == lookup(cells, contents, other),
{
}

/// Reading a cell after removing its item gives `NoValue`; the other cells read as before.
pub proof fn lemma_read_after_rmv<T>(cells: Set<Position>, contents: Map<Position, T>, pos: Position, other: Position)
    requires
        cells.contains(pos),
        other != pos,
    ensures
        lookup(cells, contents.remove(pos), pos) == Err::<T, AccessError>(AccessError::NoValue(pos)),
        lookup(cells, contents.remove(pos), other) == lookup(cells, contents, other),
{
}

/// Storing an item and then removing it restores the contents of a cell that was empty,
/// and storing the item a cell held puts back the contents.
pub proof fn lemma_set_rmv_roundtrip<T>(contents: Map<Position, T>, pos: Position, item: T)
    ensures
        !contents.contains_key(pos) ==> contents.insert(pos, item).remove(pos) == contents,
        contents.contains_key(pos) ==> contents.remove(pos).insert(pos, contents[pos]) == contents,
{
    if !contents.contains_key(pos) {
        assert(contents.insert(pos, item).remove(pos) =~= contents);
    } else {
        assert(contents.remove(pos).insert(pos, contents[pos]) =~= contents);
    }
}

} // verus!
