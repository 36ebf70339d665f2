# grid_layout

A verified library for two-dimensional grids: positions and offsets, rectangles and
zones, storage layouts for the cells of a grid, and walkers that visit the cells.

- `src/axis.rs`: `Position`, `Offset`, their arithmetic and range overlap.
- `src/axis/rect.rs`: rectangles of positions, row- and column-major indexing, and the
  chunk shape used to split a grid into pieces.
- `src/axis/zone*`: zones anchored at a position, rectangular zones, their intersection,
  and walkers over offsets.
- `src/grid*`: the `Grid` type over a `Layout`, the tight, loose and compressed layouts,
  and the walkers that visit the cells of a grid.

Every function is proved by Verus against its `requires` / `ensures`; the laws that
relate several operations stand as public proof functions beside them. A walk is stated
in terms of its walker's own step model (`Walker::after_step`, `Walker::step_given`),
which each walker type defines.
