//! Zones: areas of the grid anchored at a position.
pub mod offset;
pub mod rect;

use vstd::prelude::*;
use crate::axis::{position_diff, Offset, Position};

pub use self::rect::{MajoredRect, Rect, RectWalker, RectZone};
pub use self::offset::OffsetWalker;

verus! {

/// An area of the grid which provides
/// - an anchor: the absolute position of the zone on the grid;
/// - an optional size hint: the number of positions inside the zone;
/// - a containment check for offsets from the anchor and for absolute positions.
pub trait Zone {
    /// The anchor of the zone.
    spec fn anchor(&self) -> Position;

    /// Whether the zone covers the position at offset `o` from its anchor.
    spec fn covers_offset(&self, o: Offset) -> bool;

    /// Whether the number of positions of the zone can be counted in a `usize`.
    spec fn countable(&self) -> bool;

    /// The number of positions inside the zone.
    spec fn cell_count(&self) -> int;

    fn get_anchor(&self) -> (r: Position)
        ensures
            r == self.anchor(),
    ;

    fn contains_offset(&self, query: &Offset) -> (r: bool)
        ensures
            r == self.covers_offset(*query),
    ;

    /// The number of positions inside the zone, where the zone knows it; a zone that
    /// does not say gives `None`.
    fn size_hint(&self) -> (r: Option<usize>)
        requires
            self.countable(),
        ensures
            r matches Some(n) ==> n == self.cell_count(),
        default_ensures
            r is None,
    {
        None
    }

    /// Whether the absolute position `query` lies inside the zone: the offset from the
    /// anchor to `query` must fit in an `Offset`.
    fn contains_position(&self, query: &Position) -> (r: bool)
        requires
            query.can_diff(self.anchor()),
        ensures
            r == self.covers_offset(query.diff(self.anchor())),
    {
        let anchor = self.get_anchor();
        self.contains_offset(&position_diff(*query, anchor))
    }
}

} // verus!
