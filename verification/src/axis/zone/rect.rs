//! Rectangles of grid cells addressed by `Offset`, and rectangular zones.
use vstd::prelude::*;
use core::ops::{BitAnd, Deref, DerefMut, Range};
use vstd::std_specs::ops::BitAndSpecImpl;
use crate::axis::{in_range, lemma_overlap_exact, overlapping, overlap_of, range_holds, Offset, Position};
use crate::axis::rect::{lemma_index_join, lemma_index_split, lemma_positive_side};
use crate::axis::zone::Zone;
use crate::grid::walker::Walker;

verus! {

/// A `width` by `height` block of grid cells whose top-left cell is at offset zero.
#[derive(Debug, Default, Copy, Clone, Eq, PartialEq, Structural)]
pub struct Rect {
    width: usize,
    height: usize,
}

impl Rect {
    pub closed spec fn spec_new(width: usize, height: usize) -> Rect {
        Rect { width, height }
    }

    /// A rectangle made of two sides has those sides.
    pub broadcast proof fn lemma_spec_new(width: usize, height: usize)
        ensures
            (#[trigger] Rect::spec_new(width, height)).width() == width,
            Rect::spec_new(width, height).height() == height,
    {
    }

    pub closed spec fn width(self) -> usize {
        self.width
    }

    pub closed spec fn height(self) -> usize {
        self.height
    }

    /// The number of cells, as a mathematical integer.
    pub open spec fn area(self) -> int {
        self.width() * self.height()
    }

    /// Whether the number of cells fits in a `usize`.
    pub open spec fn has_usize_area(self) -> bool {
        self.area() <= usize::MAX
    }

    /// Whether the cell at offset `o` from the top-left cell belongs to this rectangle.
    pub open spec fn holds(self, o: Offset) -> bool {
        0 <= o.x() < self.width() && 0 <= o.y() < self.height()
    }

    /// The offset of the cell at column `c` and row `r`, where both fit in an `isize`.
    pub open spec fn offset_at(c: int, r: int) -> Option<Offset> {
        if c <= isize::MAX && r <= isize::MAX {
            Some(Offset::spec_new(c as isize, r as isize))
        } else {
            None
        }
    }

    /// The cell with row-major index `index`, if there is one and its offset fits.
    pub open spec fn spec_fold_x_first(self, index: int) -> Option<Offset> {
        if 0 <= index < self.area() {
            Rect::offset_at(index % self.width() as int, index / self.width() as int)
        } else {
            None
        }
    }

    /// The cell with column-major index `index`, if there is one and its offset fits.
    pub open spec fn spec_fold_y_first(self, index: int) -> Option<Offset> {
        if 0 <= index < self.area() {
            Rect::offset_at(index / self.height() as int, index % self.height() as int)
        } else {
            None
        }
    }

    /// The row-major index of a cell.
    pub open spec fn spec_flatten_x_first(self, o: Offset) -> int {
        self.width() * o.y() + o.x()
    }

    /// The column-major index of a cell.
    pub open spec fn spec_flatten_y_first(self, o: Offset) -> int {
        self.height() * o.x() + o.y()
    }

    /// Column-major numbering is the row-major numbering of the transposed rectangle,
    /// applied to the transposed cell.
    pub proof fn lemma_column_major_is_transposed_row_major(self, o: Offset, index: int)
        ensures
            self.spec_flatten_y_first(o) == Rect::spec_new(self.height(), self.width()).spec_flatten_x_first(
                Offset::spec_new(o.y(), o.x()),
            ),
            self.spec_fold_y_first(index) == (match Rect::spec_new(self.height(), self.width()).spec_fold_x_first(index) {
                Some(t) => Some(Offset::spec_new(t.y(), t.x())),
                None => None,
            }),
    {
        broadcast use crate::axis::group_axis_lemmas;
        broadcast use Rect::lemma_spec_new;

        assert(self.width() * self.height() == self.height() * self.width()) by (nonlinear_arith);
        if let Some(t) = Rect::spec_new(self.height(), self.width()).spec_fold_x_first(index) {
            Offset::lemma_ext(self.spec_fold_y_first(index).unwrap(), Offset::spec_new(t.y(), t.x()));
        }
    }

    /// A row-major index of a cell whose offset fits names a cell, whose row-major index
    /// it is.
    pub proof fn lemma_fold_flatten_x_first(self, index: int)
        requires
            self.spec_fold_x_first(index) is Some,
        ensures
            self.holds(self.spec_fold_x_first(index).unwrap()),
            self.spec_flatten_x_first(self.spec_fold_x_first(index).unwrap()) == index,
    {
        broadcast use crate::axis::group_axis_lemmas;

        lemma_index_split(index, self.width() as int, self.height() as int);
    }

    /// Each cell has a row-major index below the area, which names that cell.
    pub proof fn lemma_flatten_fold_x_first(self, o: Offset)
        requires
            self.holds(o),
        ensures
            0 <= self.spec_flatten_x_first(o) < self.area(),
            self.spec_fold_x_first(self.spec_flatten_x_first(o)) == Some(o),
    {
        broadcast use crate::axis::group_axis_lemmas;

        lemma_index_join(o.y() as int, o.x() as int, self.width() as int, self.height() as int);
    }

    /// A column-major index of a cell whose offset fits names a cell, whose column-major
    /// index it is.
    pub proof fn lemma_fold_flatten_y_first(self, index: int)
        requires
            self.spec_fold_y_first(index) is Some,
        ensures
            self.holds(self.spec_fold_y_first(index).unwrap()),
            self.spec_flatten_y_first(self.spec_fold_y_first(index).unwrap()) == index,
    {
        broadcast use crate::axis::group_axis_lemmas;

        assert(self.width() * self.height() == self.height() * self.width()) by (nonlinear_arith);
        lemma_index_split(index, self.height() as int, self.width() as int);
    }

    /// Each cell has a column-major index below the area, which names that cell.
    pub proof fn lemma_flatten_fold_y_first(self, o: Offset)
        requires
            self.holds(o),
        ensures
            0 <= self.spec_flatten_y_first(o) < self.area(),
            self.spec_fold_y_first(self.spec_flatten_y_first(o)) == Some(o),
    {
        broadcast use crate::axis::group_axis_lemmas;

        assert(self.width() * self.height() == self.height() * self.width()) by (nonlinear_arith);
        lemma_index_join(o.x() as int, o.y() as int, self.height() as int, self.width() as int);
    }

    pub fn new(width: usize, height: usize) -> (r: Self)
        ensures
            r == Rect::spec_new(width, height),
            r.width() == width,
            r.height() == height,
    {
        Self { width, height }
    }

    pub fn new_sqr(side: usize) -> (r: Self)
        ensures
            r == Rect::spec_new(side, side),
            r.width() == side,
            r.height() == side,
    {
        Self::new(side, side)
    }

    /// The number of cells; it must fit in a `usize`.
    pub fn size(&self) -> (r: usize)
        requires
            self.has_usize_area(),
        ensures
            r == self.area(),
    {
        self.width * self.height
    }

    /// The cell with row-major index `index`, or `None` when the index is past the last
    /// cell or the cell's offset does not fit in an `isize`.
    pub fn fold_x_first(&self, index: usize) -> (r: Option<Offset>)
        requires
            self.has_usize_area(),
        ensures
            r == self.spec_fold_x_first(index as int),
    {
        if index < self.size() {
            proof {
                lemma_positive_side(index as int, self.width as int, self.height as int);
            }
            offset_of(index % self.width, index / self.width)
        } else {
            None
        }
    }

    /// The cell with column-major index `index`, or `None` when the index is past the last
    /// cell or the cell's offset does not fit in an `isize`.
    pub fn fold_y_first(&self, index: usize) -> (r: Option<Offset>)
        requires
            self.has_usize_area(),
        ensures
            r == self.spec_fold_y_first(index as int),
    {
        if index < self.size() {
            proof {
                lemma_positive_side(index as int, self.width as int, self.height as int);
            }
            offset_of(index / self.height, index % self.height)
        } else {
            None
        }
    }

    /// The row-major index of the cell at `offset`, or `None` when it is not a cell of
    /// this rectangle.
    pub fn flatten_x_first(&self, offset: &Offset) -> (r: Option<usize>)
        requires
            self.holds(*offset) ==> self.spec_flatten_x_first(*offset) <= usize::MAX,
        ensures
            r == (if self.holds(*offset) {
                Some(self.spec_flatten_x_first(*offset) as usize)
            } else {
                None
            }),
    {
        if self.contains_offset(offset) {
            proof {
                lemma_nonneg_product(offset.y() as int, self.width as int);
            }
            Some(self.width * (offset.get_y() as usize) + (offset.get_x() as usize))
        } else {
            None
        }
    }

    /// The column-major index of the cell at `offset`, or `None` when it is not a cell of
    /// this rectangle.
    pub fn flatten_y_first(&self, offset: &Offset) -> (r: Option<usize>)
        requires
            self.holds(*offset) ==> self.spec_flatten_y_first(*offset) <= usize::MAX,
        ensures
            r == (if self.holds(*offset) {
                Some(self.spec_flatten_y_first(*offset) as usize)
            } else {
                None
            }),
    {
        if self.contains_offset(offset) {
            proof {
                lemma_nonneg_product(offset.x() as int, self.height as int);
            }
            Some(self.height * (offset.get_x() as usize) + (offset.get_y() as usize))
        } else {
            None
        }
    }

    pub fn contains_offset(&self, offset: &Offset) -> (r: bool)
        ensures
            r == self.holds(*offset),
    {
        let x = offset.get_x();
        let y = offset.get_y();
        let x_contained = x >= 0 && in_range(x as usize, self.width, 0);
        let y_contained = y >= 0 && in_range(y as usize, self.height, 0);
        x_contained && y_contained
    }

    pub fn get_width(&self) -> (r: usize)
        ensures
            r == self.width(),
    {
        self.width
    }

    pub fn get_height(&self) -> (r: usize)
        ensures
            r == self.height(),
    {
        self.height
    }
}

/// The offset of the cell at column `c` and row `r`, or `None` when either does not fit
/// in an `isize`.
fn offset_of(c: usize, r: usize) -> (o: Option<Offset>)
    ensures
        o == Rect::offset_at(c as int, r as int),
{
    match Offset::try_from((c, r)) {
        Ok(o) => Some(o),
        Err(_) => None,
    }
}

proof fn lemma_nonneg_product(a: int, b: int)
    requires
        0 <= a,
        0 <= b,
    ensures
        0 <= a * b,
        0 <= b * a,
{
    assert(0 <= a * b && b * a == a * b) by (nonlinear_arith)
        requires
            0 <= a,
            0 <= b,
    ;
}

/// A rectangle of cells placed on the grid with its top-left cell at `pos`.
pub struct RectZone {
    pos: Position,
    rect: Rect,
}

impl RectZone {
    pub closed spec fn spec_new(pos: Position, rect: Rect) -> RectZone {
        RectZone { pos, rect }
    }

    /// A zone made of an origin and a shape has those.
    pub broadcast proof fn lemma_spec_new(pos: Position, rect: Rect)
        ensures
            (#[trigger] RectZone::spec_new(pos, rect)).origin() == pos,
            RectZone::spec_new(pos, rect).shape() == rect,
    {
    }

    /// The grid position of the top-left cell.
    pub closed spec fn origin(&self) -> Position {
        self.pos
    }

    /// The shape of the zone.
    pub closed spec fn shape(&self) -> Rect {
        self.rect
    }

    /// Whether the columns and rows of the zone can be written as `usize` ranges.
    pub open spec fn has_usize_shadows(&self) -> bool {
        &&& self.origin().x() + self.shape().width() <= usize::MAX
        &&& self.origin().y() + self.shape().height() <= usize::MAX
    }

    /// The columns covered by the zone.
    pub open spec fn spec_x_shadow(&self) -> Range<usize> {
        Range {
            start: self.origin().x(),
            end: (self.origin().x() + self.shape().width()) as usize,
        }
    }

    /// The rows covered by the zone.
    pub open spec fn spec_y_shadow(&self) -> Range<usize> {
        Range {
            start: self.origin().y(),
            end: (self.origin().y() + self.shape().height()) as usize,
        }
    }

    /// Whether the grid position `p` is a cell of the zone.
    pub open spec fn covers(&self, p: Position) -> bool {
        &&& self.origin().x() <= p.x() < self.origin().x() + self.shape().width()
        &&& self.origin().y() <= p.y() < self.origin().y() + self.shape().height()
    }

    /// The zone made of the cells that two zones share, if there is any.
    pub open spec fn intersection(&self, other: &RectZone) -> Option<RectZone> {
        match (
            overlap_of(self.spec_x_shadow(), other.spec_x_shadow()),
            overlap_of(self.spec_y_shadow(), other.spec_y_shadow()),
        ) {
            (Some(xo), Some(yo)) => Some(
                RectZone::spec_new(
                    Position::spec_new(xo.start, yo.start),
                    Rect::spec_new((xo.end - xo.start) as usize, (yo.end - yo.start) as usize),
                ),
            ),
            _ => None,
        }
    }

    /// The intersection of two zones covers exactly the cells that both cover, and there
    /// is one exactly when some cell is covered by both; it then has positive sides.
    pub proof fn lemma_intersection_exact(a: &RectZone, b: &RectZone)
        requires
            a.has_usize_shadows(),
            b.has_usize_shadows(),
        ensures
            a.intersection(b) matches Some(z) ==> forall|p: Position|
                #[trigger] z.covers(p) <==> (a.covers(p) && b.covers(p)),
            a.intersection(b) is None ==> forall|p: Position| !(#[trigger] a.covers(p) && b.covers(p)),
            a.intersection(b) is Some <==> exists|p: Position| #[trigger] a.covers(p) && b.covers(p),
            a.intersection(b) matches Some(z) ==> z.shape().width() > 0 && z.shape().height() > 0,
    {
        broadcast use crate::axis::group_axis_lemmas;

        lemma_overlap_exact(a.spec_x_shadow(), b.spec_x_shadow());
        lemma_overlap_exact(a.spec_y_shadow(), b.spec_y_shadow());
        if let Some(z) = a.intersection(b) {
            assert forall|p: Position| #[trigger] z.covers(p) <==> (a.covers(p) && b.covers(p)) by {
                assert(range_holds(a.spec_x_shadow(), p.x() as int) == (a.origin().x() <= p.x()
                    < a.origin().x() + a.shape().width()));
                assert(range_holds(b.spec_x_shadow(), p.x() as int) == (b.origin().x() <= p.x()
                    < b.origin().x() + b.shape().width()));
                assert(range_holds(a.spec_y_shadow(), p.y() as int) == (a.origin().y() <= p.y()
                    < a.origin().y() + a.shape().height()));
                assert(range_holds(b.spec_y_shadow(), p.y() as int) == (b.origin().y() <= p.y()
                    < b.origin().y() + b.shape().height()));
            }
        } else {
            assert forall|p: Position| !(#[trigger] a.covers(p) && b.covers(p)) by {
                assert(range_holds(a.spec_x_shadow(), p.x() as int) == (a.origin().x() <= p.x()
                    < a.origin().x() + a.shape().width()));
                assert(range_holds(b.spec_x_shadow(), p.x() as int) == (b.origin().x() <= p.x()
                    < b.origin().x() + b.shape().width()));
                assert(range_holds(a.spec_y_shadow(), p.y() as int) == (a.origin().y() <= p.y()
                    < a.origin().y() + a.shape().height()));
                assert(range_holds(b.spec_y_shadow(), p.y() as int) == (b.origin().y() <= p.y()
                    < b.origin().y() + b.shape().height()));
            }
        }
        if let Some(z) = a.intersection(b) {
            let p = z.origin();
            assert(z.shape().width() > 0 && z.shape().height() > 0);
            assert(z.covers(p));
            assert(a.covers(p) && b.covers(p));
        }
    }

    pub fn new(width: usize, height: usize) -> (r: Self)
        ensures
            r.origin() == Position::spec_new(0, 0),
            r.shape() == Rect::spec_new(width, height),
    {
        Self::with_pos(width, height, Position::new(0, 0))
    }

    pub fn with_pos(width: usize, height: usize, pos: Position) -> (r: Self)
        ensures
            r.origin() == pos,
            r.shape() == Rect::spec_new(width, height),
    {
        Self { pos, rect: Rect::new(width, height) }
    }

    pub fn get_width(&self) -> (r: usize)
        ensures
            r == self.shape().width(),
    {
        self.rect.width
    }

    pub fn get_height(&self) -> (r: usize)
        ensures
            r == self.shape().height(),
    {
        self.rect.height
    }

    pub fn pos_x(&self) -> (r: usize)
        ensures
            r == self.origin().x(),
    {
        self.pos.pos_x()
    }

    pub fn pos_y(&self) -> (r: usize)
        ensures
            r == self.origin().y(),
    {
        self.pos.pos_y()
    }

    fn x_shadow(&self) -> (r: Range<usize>)
        requires
            self.origin().x() + self.shape().width() <= usize::MAX,
        ensures
            r == self.spec_x_shadow(),
    {
        self.pos_x()..self.pos_x() + self.get_width()
    }

    fn y_shadow(&self) -> (r: Range<usize>)
        requires
            self.origin().y() + self.shape().height() <= usize::MAX,
        ensures
            r == self.spec_y_shadow(),
    {
        self.pos_y()..self.pos_y() + self.get_height()
    }

    /// A walker over the offsets of the zone's cells, row by row.
    pub fn walk_through(&self) -> (r: RectWalker)
        ensures
            r.shape() == self.shape(),
            r.index() == 0,
    {
        RectWalker::new(self.rect)
    }
}

impl Zone for RectZone {
    open spec fn anchor(&self) -> Position {
        self.origin()
    }

    open spec fn covers_offset(&self, o: Offset) -> bool {
        self.shape().holds(o)
    }

    open spec fn countable(&self) -> bool {
        self.shape().has_usize_area()
    }

    open spec fn cell_count(&self) -> int {
        self.shape().area()
    }

    fn get_anchor(&self) -> (r: Position) {
        self.pos
    }

    fn contains_offset(&self, query: &Offset) -> (r: bool) {
        self.rect.contains_offset(query)
    }

    fn size_hint(&self) -> (r: Option<usize>)
        ensures
            r == Some(self.shape().area() as usize),
    {
        Some(self.rect.size())
    }
}

/// Checking a position against a rectangular zone through its offset from the anchor
/// agrees with the zone's cells.
pub proof fn lemma_zone_position_check(z: &RectZone, p: Position)
    requires
        p.can_diff(z.anchor()),
    ensures
        z.covers_offset(p.diff(z.anchor())) == z.covers(p),
{
    broadcast use crate::axis::group_axis_lemmas;

}

impl BitAnd for &RectZone {
    type Output = Option<RectZone>;

    fn bitand(self, rhs: Self) -> (r: Option<RectZone>) {
        let x_overlap = match overlapping(self.x_shadow(), rhs.x_shadow()) {
            Some(o) => o,
            None => {
                return None;
            },
        };
        let y_overlap = match overlapping(self.y_shadow(), rhs.y_shadow()) {
            Some(o) => o,
            None => {
                return None;
            },
        };
        Some(
            RectZone::with_pos(
                x_overlap.end - x_overlap.start,
                y_overlap.end - y_overlap.start,
                Position::new(x_overlap.start, y_overlap.start),
            ),
        )
    }
}

impl BitAndSpecImpl for &RectZone {
    open spec fn obeys_bitand_spec() -> bool {
        true
    }

    open spec fn bitand_req(self, rhs: Self) -> bool {
        self.has_usize_shadows() && rhs.has_usize_shadows()
    }

    open spec fn bitand_spec(self, rhs: Self) -> Option<RectZone> {
        self.intersection(rhs)
    }
}

/// Walks the offsets of the cells of a rectangle in row-major order.
pub struct RectWalker {
    rect: Rect,
    cur_index: usize,
}

impl RectWalker {
    #[verifier::type_invariant]
    spec fn inv(self) -> bool {
        self.cur_index <= self.rect.area()
    }

    /// The rectangle walked.
    pub closed spec fn shape(&self) -> Rect {
        self.rect
    }

    /// The row-major index of the next cell.
    pub closed spec fn index(&self) -> usize {
        self.cur_index
    }

    /// The walker after `next`: on to the following index where it yielded a cell, and
    /// unchanged otherwise.
    pub closed spec fn advanced(self) -> RectWalker {
        if self.shape().spec_fold_x_first(self.index() as int) is Some {
            RectWalker { cur_index: (self.cur_index + 1) as usize, ..self }
        } else {
            self
        }
    }

    /// The walker after `next` keeps its rectangle and moves its index on by one exactly
    /// where it yielded a cell.
    pub proof fn lemma_advanced(self)
        requires
            self.shape().has_usize_area(),
        ensures
            self.advanced().shape() == self.shape(),
            self.shape().spec_fold_x_first(self.index() as int) is Some ==> self.advanced().index()
                == self.index() + 1,
            self.shape().spec_fold_x_first(self.index() as int) is None ==> self.advanced() == self,
    {
    }

    pub fn new(rect: Rect) -> (r: Self)
        ensures
            r.shape() == rect,
            r.index() == 0,
    {
        proof {
            lemma_nonneg_product(rect.width as int, rect.height as int);
        }
        Self { rect, cur_index: 0 }
    }

    /// The offset of the next cell, or `None` past the last cell (or at a cell whose
    /// offset does not fit in an `isize`); the walker moves on only when it yields a cell.
    pub fn next(&mut self) -> (r: Option<Offset>)
        requires
            old(self).shape().has_usize_area(),
        ensures
            r == old(self).shape().spec_fold_x_first(old(self).index() as int),
            *final(self) == old(self).advanced(),
            final(self).shape() == old(self).shape(),
            final(self).index() == (if r is Some {
                old(self).index() + 1
            } else {
                old(self).index() as int
            }),
    {
        proof {
            use_type_invariant(&*self);
        }
        let cur_offset = match self.rect.fold_x_first(self.cur_index) {
            Some(o) => o,
            None => {
                return None;
            },
        };
        self.cur_index = self.cur_index + 1;
        Some(cur_offset)
    }

    /// The number of cells left to walk, and the number of cells of the rectangle.
    pub fn size_hint(&self) -> (r: (usize, Option<usize>))
        requires
            self.shape().has_usize_area(),
        ensures
            r.0 == self.shape().area() - self.index(),
            r.1 == Some(self.shape().area() as usize),
    {
        proof {
            use_type_invariant(self);
        }
        let size = self.rect.size();
        (size - self.cur_index, Some(size))
    }
}

impl Walker for RectWalker {
    open spec fn after_step(&self) -> RectWalker {
        if self.shape().has_usize_area() {
            self.advanced()
        } else {
            *self
        }
    }

    open spec fn step_given(&self) -> Option<Offset> {
        if self.shape().has_usize_area() {
            self.shape().spec_fold_x_first(self.index() as int)
        } else {
            None
        }
    }

    /// The offset of the next cell, taken as the step; a rectangle whose number of cells
    /// does not fit in a `usize` gives no step.
    fn next_step(&mut self) -> (r: Option<Offset>) {
        match self.rect.width.checked_mul(self.rect.height) {
            Some(_) => self.next(),
            None => None,
        }
    }
}

/// A rectangle together with the order in which its cells are numbered.
pub enum MajoredRect {
    /// Cells numbered row by row.
    RowMajored(Rect),
    /// Cells numbered column by column.
    ColMajored(Rect),
}

impl MajoredRect {
    /// The rectangle, whatever the order.
    pub open spec fn shape(&self) -> Rect {
        match self {
            MajoredRect::RowMajored(rect) => *rect,
            MajoredRect::ColMajored(rect) => *rect,
        }
    }

    pub fn new_row(width: usize, height: usize) -> (r: Self)
        ensures
            r == MajoredRect::RowMajored(Rect::spec_new(width, height)),
    {
        MajoredRect::RowMajored(Rect::new(width, height))
    }

    pub fn new_col(width: usize, height: usize) -> (r: Self)
        ensures
            r == MajoredRect::ColMajored(Rect::spec_new(width, height)),
    {
        MajoredRect::ColMajored(Rect::new(width, height))
    }

    /// The cell with the given index in this rectangle's order.
    pub fn fold_majored(&self, index: usize) -> (r: Option<Offset>)
        requires
            self.shape().has_usize_area(),
        ensures
            r == (match self {
                MajoredRect::RowMajored(rect) => rect.spec_fold_x_first(index as int),
                MajoredRect::ColMajored(rect) => rect.spec_fold_y_first(index as int),
            }),
    {
        match self {
            MajoredRect::RowMajored(rect) => rect.fold_x_first(index),
            MajoredRect::ColMajored(rect) => rect.fold_y_first(index),
        }
    }

    /// The index of the cell at `offset` in this rectangle's order.
    pub fn flat_majored(&self, offset: &Offset) -> (r: Option<usize>)
        requires
            self.shape().holds(*offset) ==> match self {
                MajoredRect::RowMajored(rect) => rect.spec_flatten_x_first(*offset) <= usize::MAX,
                MajoredRect::ColMajored(rect) => rect.spec_flatten_y_first(*offset) <= usize::MAX,
            },
        ensures
            r == (if self.shape().holds(*offset) {
                Some(
                    (match self {
                        MajoredRect::RowMajored(rect) => rect.spec_flatten_x_first(*offset),
                        MajoredRect::ColMajored(rect) => rect.spec_flatten_y_first(*offset),
                    }) as usize,
                )
            } else {
                None
            }),
    {
        match self {
            MajoredRect::RowMajored(rect) => rect.flatten_x_first(offset),
            MajoredRect::ColMajored(rect) => rect.flatten_y_first(offset),
        }
    }
}

impl Deref for MajoredRect {
    type Target = Rect;

    fn deref(&self) -> (r: &Rect)
        ensures
            *r == self.shape(),
    {
        match self {
            MajoredRect::RowMajored(rect) => rect,
            MajoredRect::ColMajored(rect) => rect,
        }
    }
}

impl DerefMut for MajoredRect {
    fn deref_mut(&mut self) -> (r: &mut Rect)
        ensures
            *r == old(self).shape(),
            *final(self) == (match *old(self) {
                MajoredRect::RowMajored(_) => MajoredRect::RowMajored(*final(r)),
                MajoredRect::ColMajored(_) => MajoredRect::ColMajored(*final(r)),
            }),
    {
        match self {
            MajoredRect::RowMajored(rect) => rect,
            MajoredRect::ColMajored(rect) => rect,
        }
    }
}

} // verus!
