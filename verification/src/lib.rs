//! Two-dimensional grids: positions and offsets, rectangles of cells, storage layouts,
//! and walks over the cells.
pub mod axis;
pub mod grid;

pub use grid::walker::rect_walker::RectWalker;
pub use grid::walker::{NeverAcross, WalkWith, Walker, Walkthrough};
pub use grid::layout::{AccessError, AccessResult, Layout, LooseLayout, TightLayout};
pub use grid::Grid;
pub use axis::{Offset, Position};
pub use axis::rect::{Rect, RectBounded};
