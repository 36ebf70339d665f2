//! Positions and offsets on a two-dimensional grid, and integer ranges.
pub mod rect;
pub mod zone;

use vstd::prelude::*;
use core::ops::{Add, Mul, Neg, Range, Sub};
use vstd::std_specs::ops::{AddSpecImpl, MulSpecImpl, NegSpecImpl, SubSpecImpl};
use vstd::std_specs::convert::{FromSpecImpl, IntoSpecImpl, TryFromSpec, TryFromSpecImpl};
use core::num::TryFromIntError;
use self::rect::Rect;

verus! {

/// A cell position on a two-dimensional grid: a column `x` and a row `y`.
#[derive(Copy, Clone, Debug, Default, Hash, PartialEq, Eq, Structural)]
pub struct Position(usize, usize);

impl Position {
    /// The position with column `x` and row `y`.
    pub closed spec fn spec_new(x: usize, y: usize) -> Position {
        Position(x, y)
    }

    /// The column of this position.
    pub closed spec fn x(self) -> usize {
        self.0
    }

    /// The row of this position.
    pub closed spec fn y(self) -> usize {
        self.1
    }

    /// Two positions with the same coordinates are the same position.
    pub proof fn lemma_ext(p: Position, q: Position)
        requires
            p.x() == q.x(),
            p.y() == q.y(),
        ensures
            p == q,
    {
    }

    /// Whether moving this position by `o` stays on the grid.
    pub open spec fn can_offset(self, o: Offset) -> bool {
        &&& 0 <= self.x() + o.x() <= usize::MAX
        &&& 0 <= self.y() + o.y() <= usize::MAX
    }

    /// This position moved by `o`.
    pub open spec fn offset_by(self, o: Offset) -> Position {
        Position::spec_new((self.x() + o.x()) as usize, (self.y() + o.y()) as usize)
    }

    /// Whether moving this position back by `o` stays on the grid.
    pub open spec fn can_unoffset(self, o: Offset) -> bool {
        &&& 0 <= self.x() - o.x() <= usize::MAX
        &&& 0 <= self.y() - o.y() <= usize::MAX
    }

    /// This position moved back by `o`.
    pub open spec fn unoffset_by(self, o: Offset) -> Position {
        Position::spec_new((self.x() - o.x()) as usize, (self.y() - o.y()) as usize)
    }

    /// Whether the offset from `other` to this position fits in an `Offset`.
    pub open spec fn can_diff(self, other: Position) -> bool {
        &&& isize::MIN <= self.x() - other.x() <= isize::MAX
        &&& isize::MIN <= self.y() - other.y() <= isize::MAX
    }

    /// The offset that leads from `other` to this position.
    pub open spec fn diff(self, other: Position) -> Offset {
        Offset::spec_new((self.x() - other.x()) as isize, (self.y() - other.y()) as isize)
    }

    pub fn new(pos_x: usize, pos_y: usize) -> (r: Self)
        ensures
            r == Position::spec_new(pos_x, pos_y),
            r.x() == pos_x,
            r.y() == pos_y,
    {
        Self(pos_x, pos_y)
    }

    pub fn pos_x(&self) -> (r: usize)
        ensures
            r == self.x(),
    {
        self.0
    }

    pub fn pos_y(&self) -> (r: usize)
        ensures
            r == self.y(),
    {
        self.1
    }

    /// Moves this position by `rhs`; the moved position must stay on the grid.
    pub fn add_assign(&mut self, rhs: Offset)
        requires
            old(self).can_offset(rhs),
        ensures
            *final(self) == old(self).offset_by(rhs),
    {
        let x = self.0.checked_add_signed(rhs.0).unwrap();
        let y = self.1.checked_add_signed(rhs.1).unwrap();
        self.0 = x;
        self.1 = y;
    }

    /// Moves this position back by `rhs`; the moved position must stay on the grid.
    pub fn sub_assign(&mut self, rhs: Offset)
        requires
            old(self).can_unoffset(rhs),
        ensures
            *final(self) == old(self).unoffset_by(rhs),
    {
        let x = sub_signed(self.0, rhs.0);
        let y = sub_signed(self.1, rhs.1);
        self.0 = x;
        self.1 = y;
    }
}

/// The offset that leads from `b` to `a`.
pub(crate) fn position_diff(a: Position, b: Position) -> (r: Offset)
    requires
        a.can_diff(b),
    ensures
        r == a.diff(b),
{
    let x_diff = signed_diff(a.0, b.0);
    let y_diff = signed_diff(a.1, b.1);
    Offset::new(x_diff, y_diff)
}

/// `a - b` for an unsigned `a` and a signed `b`, where the result is known to be in range.
fn sub_signed(a: usize, b: isize) -> (r: usize)
    requires
        0 <= a - b <= usize::MAX,
    ensures
        r == a - b,
{
    if b >= 0 {
        a - (b as usize)
    } else {
        let m: usize = (-(b + 1)) as usize;
        a + m + 1
    }
}

/// The signed difference `a - b` of two unsigned values, where it is known to be in range.
fn signed_diff(a: usize, b: usize) -> (r: isize)
    requires
        isize::MIN <= a - b <= isize::MAX,
    ensures
        r == a - b,
{
    if a >= b {
        (a - b) as isize
    } else {
        let d: usize = b - a - 1;
        -(d as isize) - 1
    }
}

pub broadcast proof fn lemma_position_spec_new(x: usize, y: usize)
    ensures
        (#[trigger] Position::spec_new(x, y)).x() == x,
        Position::spec_new(x, y).y() == y,
{
}

pub broadcast proof fn lemma_position_eta(p: Position)
    ensures
        #[trigger] Position::spec_new(p.x(), p.y()) == p,
{
}

impl From<(usize, usize)> for Position {
    fn from(v: (usize, usize)) -> (r: Self) {
        Self(v.0, v.1)
    }
}

impl FromSpecImpl<(usize, usize)> for Position {
    open spec fn obeys_from_spec() -> bool {
        true
    }

    open spec fn from_spec(v: (usize, usize)) -> Position {
        Position::spec_new(v.0, v.1)
    }
}

impl Into<(usize, usize)> for Position {
    fn into(self) -> (r: (usize, usize)) {
        (self.0, self.1)
    }
}

impl IntoSpecImpl<(usize, usize)> for Position {
    open spec fn obeys_into_spec() -> bool {
        true
    }

    open spec fn into_spec(self) -> (usize, usize) {
        (self.x(), self.y())
    }
}

impl TryFrom<(isize, isize)> for Position {
    type Error = TryFromIntError;

    fn try_from(v: (isize, isize)) -> (r: Result<Self, Self::Error>) {
        let u_x = match usize::try_from(v.0) {
            Ok(x) => x,
            Err(e) => {
                return Err(e);
            },
        };
        let u_y = match usize::try_from(v.1) {
            Ok(y) => y,
            Err(e) => {
                return Err(e);
            },
        };
        Ok(Self::new(u_x, u_y))
    }
}

impl TryFromSpecImpl<(isize, isize)> for Position {
    open spec fn obeys_try_from_spec() -> bool {
        true
    }

    open spec fn try_from_spec(v: (isize, isize)) -> Result<Position, TryFromIntError> {
        if v.0 >= 0 && v.1 >= 0 {
            Ok(Position::spec_new(v.0 as usize, v.1 as usize))
        } else {
            Err(arbitrary())
        }
    }
}

impl TryFrom<Offset> for Position {
    type Error = TryFromIntError;

    fn try_from(value: Offset) -> (r: Result<Self, Self::Error>) {
        let offset_x = value.get_x();
        let offset_y = value.get_y();
        Position::try_from((offset_x, offset_y))
    }
}

impl TryFromSpecImpl<Offset> for Position {
    open spec fn obeys_try_from_spec() -> bool {
        true
    }

    open spec fn try_from_spec(v: Offset) -> Result<Position, TryFromIntError> {
        if v.x() >= 0 && v.y() >= 0 {
            Ok(Position::spec_new(v.x() as usize, v.y() as usize))
        } else {
            Err(arbitrary())
        }
    }
}

impl Sub for Position {
    type Output = Offset;

    fn sub(self, rhs: Position) -> (r: Offset) {
        position_diff(self, rhs)
    }
}

impl SubSpecImpl for Position {
    open spec fn obeys_sub_spec() -> bool {
        true
    }

    open spec fn sub_req(self, rhs: Position) -> bool {
        self.can_diff(rhs)
    }

    open spec fn sub_spec(self, rhs: Position) -> Offset {
        self.diff(rhs)
    }
}

impl Add<Offset> for Position {
    type Output = Position;

    fn add(self, rhs: Offset) -> (r: Position) {
        let mut from = self;
        from.add_assign(rhs);
        from
    }
}

impl AddSpecImpl<Offset> for Position {
    open spec fn obeys_add_spec() -> bool {
        true
    }

    open spec fn add_req(self, rhs: Offset) -> bool {
        self.can_offset(rhs)
    }

    open spec fn add_spec(self, rhs: Offset) -> Position {
        self.offset_by(rhs)
    }
}

impl Sub<Offset> for Position {
    type Output = Position;

    fn sub(self, rhs: Offset) -> (r: Position) {
        let mut from = self;
        from.sub_assign(rhs);
        from
    }
}

impl SubSpecImpl<Offset> for Position {
    open spec fn obeys_sub_spec() -> bool {
        true
    }

    open spec fn sub_req(self, rhs: Offset) -> bool {
        self.can_unoffset(rhs)
    }

    open spec fn sub_spec(self, rhs: Offset) -> Position {
        self.unoffset_by(rhs)
    }
}

/// The difference between two positions: a signed column and row distance.
#[derive(Copy, Clone, Debug, Default, Hash, PartialEq, Eq, Structural)]
pub struct Offset(isize, isize);

impl Offset {
    /// The offset with column distance `x` and row distance `y`.
    pub closed spec fn spec_new(x: isize, y: isize) -> Offset {
        Offset(x, y)
    }

    /// The column distance.
    pub closed spec fn x(self) -> isize {
        self.0
    }

    /// The row distance.
    pub closed spec fn y(self) -> isize {
        self.1
    }

    /// Two offsets with the same components are the same offset.
    pub proof fn lemma_ext(a: Offset, b: Offset)
        requires
            a.x() == b.x(),
            a.y() == b.y(),
        ensures
            a == b,
    {
    }

    /// Whether the component-wise sum of two offsets fits.
    pub open spec fn can_add(self, rhs: Offset) -> bool {
        &&& isize::MIN <= self.x() + rhs.x() <= isize::MAX
        &&& isize::MIN <= self.y() + rhs.y() <= isize::MAX
    }

    pub open spec fn sum(self, rhs: Offset) -> Offset {
        Offset::spec_new((self.x() + rhs.x()) as isize, (self.y() + rhs.y()) as isize)
    }

    /// Whether the component-wise difference of two offsets fits.
    pub open spec fn can_sub(self, rhs: Offset) -> bool {
        &&& isize::MIN <= self.x() - rhs.x() <= isize::MAX
        &&& isize::MIN <= self.y() - rhs.y() <= isize::MAX
    }

    pub open spec fn difference(self, rhs: Offset) -> Offset {
        Offset::spec_new((self.x() - rhs.x()) as isize, (self.y() - rhs.y()) as isize)
    }

    /// Whether the negated offset fits.
    pub open spec fn can_neg(self) -> bool {
        self.x() != isize::MIN && self.y() != isize::MIN
    }

    pub open spec fn negated(self) -> Offset {
        Offset::spec_new((-self.x()) as isize, (-self.y()) as isize)
    }

    /// Whether this offset scaled by the sides of `rect` fits.
    pub open spec fn can_scale(self, rect: Rect) -> bool {
        &&& rect.width() <= isize::MAX
        &&& rect.height() <= isize::MAX
        &&& isize::MIN <= self.x() * rect.width() <= isize::MAX
        &&& isize::MIN <= self.y() * rect.height() <= isize::MAX
    }

    /// This offset with its column distance scaled by the width of `rect` and its row
    /// distance by the height.
    pub open spec fn scaled(self, rect: Rect) -> Offset {
        Offset::spec_new((self.x() * rect.width()) as isize, (self.y() * rect.height()) as isize)
    }

    pub fn new(offset_x: isize, offset_y: isize) -> (r: Self)
        ensures
            r == Offset::spec_new(offset_x, offset_y),
            r.x() == offset_x,
            r.y() == offset_y,
    {
        Self(offset_x, offset_y)
    }

    pub fn with_x(x: isize) -> (r: Self)
        ensures
            r == Offset::spec_new(x, 0),
    {
        Self::new(x, 0)
    }

    pub fn with_y(y: isize) -> (r: Self)
        ensures
            r == Offset::spec_new(0, y),
    {
        Self::new(0, y)
    }

    pub fn zero() -> (r: Self)
        ensures
            r == Offset::spec_new(0, 0),
    {
        Self::new(0, 0)
    }

    pub fn get_x(&self) -> (r: isize)
        ensures
            r == self.x(),
    {
        self.0
    }

    pub fn get_y(&self) -> (r: isize)
        ensures
            r == self.y(),
    {
        self.1
    }

    pub(crate) fn get_mut_x(&mut self) -> (r: &mut isize)
        ensures
            *r == old(self).x(),
            *final(self) == Offset::spec_new(*final(r), old(self).y()),
    {
        &mut self.0
    }

    pub(crate) fn get_mut_y(&mut self) -> (r: &mut isize)
        ensures
            *r == old(self).y(),
            *final(self) == Offset::spec_new(old(self).x(), *final(r)),
    {
        &mut self.1
    }

    pub fn is_zero(&self) -> (r: bool)
        ensures
            r == (self.x() == 0 && self.y() == 0),
            r == (*self == Offset::spec_new(0, 0)),
    {
        self.get_x() == 0 && self.get_y() == 0
    }

    /// Adds `rhs` to this offset, component by component; the sum must fit.
    pub fn add_assign(&mut self, rhs: Offset)
        requires
            old(self).can_add(rhs),
        ensures
            *final(self) == old(self).sum(rhs),
    {
        let rx = rhs.get_x();
        let ry = rhs.get_y();
        *self.get_mut_x() += rx;
        *self.get_mut_y() += ry;
    }

    /// Subtracts `rhs` from this offset, component by component; the difference must fit.
    pub fn sub_assign(&mut self, rhs: Offset)
        requires
            old(self).can_sub(rhs),
        ensures
            *final(self) == old(self).difference(rhs),
    {
        let rx = rhs.get_x();
        let ry = rhs.get_y();
        *self.get_mut_x() -= rx;
        *self.get_mut_y() -= ry;
    }
}

/// Converts an unsigned value to a signed one, failing when it exceeds `isize::MAX`.
fn usize_to_isize(v: usize) -> (r: Result<isize, TryFromIntError>)
    ensures
        r == (if v <= isize::MAX {
            Ok::<isize, TryFromIntError>(v as isize)
        } else {
            Err::<isize, TryFromIntError>(arbitrary())
        }),
{
    match i64::try_from(v) {
        Ok(wide) => isize::try_from(wide),
        Err(e) => Err(e),
    }
}

pub broadcast proof fn lemma_offset_spec_new(x: isize, y: isize)
    ensures
        (#[trigger] Offset::spec_new(x, y)).x() == x,
        Offset::spec_new(x, y).y() == y,
{
}

pub broadcast proof fn lemma_offset_eta(o: Offset)
    ensures
        #[trigger] Offset::spec_new(o.x(), o.y()) == o,
{
}

pub broadcast group group_axis_lemmas {
    lemma_position_spec_new,
    lemma_position_eta,
    lemma_offset_spec_new,
    lemma_offset_eta,
}

impl From<(isize, isize)> for Offset {
    fn from(v: (isize, isize)) -> (r: Self) {
        Self(v.0, v.1)
    }
}

impl FromSpecImpl<(isize, isize)> for Offset {
    open spec fn obeys_from_spec() -> bool {
        true
    }

    open spec fn from_spec(v: (isize, isize)) -> Offset {
        Offset::spec_new(v.0, v.1)
    }
}

impl TryFrom<(usize, usize)> for Offset {
    type Error = TryFromIntError;

    fn try_from(v: (usize, usize)) -> (r: Result<Self, Self::Error>) {
        let i_x = match usize_to_isize(v.0) {
            Ok(x) => x,
            Err(e) => {
                return Err(e);
            },
        };
        let i_y = match usize_to_isize(v.1) {
            Ok(y) => y,
            Err(e) => {
                return Err(e);
            },
        };
        Ok(Self::new(i_x, i_y))
    }
}

impl TryFromSpecImpl<(usize, usize)> for Offset {
    open spec fn obeys_try_from_spec() -> bool {
        true
    }

    open spec fn try_from_spec(v: (usize, usize)) -> Result<Offset, TryFromIntError> {
        if v.0 <= isize::MAX && v.1 <= isize::MAX {
            Ok(Offset::spec_new(v.0 as isize, v.1 as isize))
        } else {
            Err(arbitrary())
        }
    }
}

impl TryFrom<Position> for Offset {
    type Error = TryFromIntError;

    fn try_from(value: Position) -> (r: Result<Self, Self::Error>) {
        let pos_x = value.pos_x();
        let pos_y = value.pos_y();
        Offset::try_from((pos_x, pos_y))
    }
}

impl TryFromSpecImpl<Position> for Offset {
    open spec fn obeys_try_from_spec() -> bool {
        true
    }

    open spec fn try_from_spec(v: Position) -> Result<Offset, TryFromIntError> {
        if v.x() <= isize::MAX && v.y() <= isize::MAX {
            Ok(Offset::spec_new(v.x() as isize, v.y() as isize))
        } else {
            Err(arbitrary())
        }
    }
}

impl Neg for Offset {
    type Output = Offset;

    fn neg(self) -> (r: Offset) {
        Self(-self.0, -self.1)
    }
}

impl NegSpecImpl for Offset {
    open spec fn obeys_neg_spec() -> bool {
        true
    }

    open spec fn neg_req(self) -> bool {
        self.can_neg()
    }

    open spec fn neg_spec(self) -> Offset {
        self.negated()
    }
}

impl Add<Offset> for Offset {
    type Output = Offset;

    fn add(self, rhs: Offset) -> (r: Offset) {
        Self(self.get_x() + rhs.get_x(), self.get_y() + rhs.get_y())
    }
}

impl AddSpecImpl<Offset> for Offset {
    open spec fn obeys_add_spec() -> bool {
        true
    }

    open spec fn add_req(self, rhs: Offset) -> bool {
        self.can_add(rhs)
    }

    open spec fn add_spec(self, rhs: Offset) -> Offset {
        self.sum(rhs)
    }
}

impl Sub<Offset> for Offset {
    type Output = Offset;

    fn sub(self, rhs: Offset) -> (r: Offset) {
        Self(self.get_x() - rhs.get_x(), self.get_y() - rhs.get_y())
    }
}

impl SubSpecImpl<Offset> for Offset {
    open spec fn obeys_sub_spec() -> bool {
        true
    }

    open spec fn sub_req(self, rhs: Offset) -> bool {
        self.can_sub(rhs)
    }

    open spec fn sub_spec(self, rhs: Offset) -> Offset {
        self.difference(rhs)
    }
}

impl Mul<Rect> for Offset {
    type Output = Offset;

    fn mul(self, rhs: Rect) -> (r: Offset) {
        let w: isize = rhs.get_width() as isize;
        let h: isize = rhs.get_height() as isize;
        let multiplied_x = self.get_x().checked_mul(w).unwrap();
        let multiplied_y = self.get_y().checked_mul(h).unwrap();
        Offset::new(multiplied_x, multiplied_y)
    }
}

impl MulSpecImpl<Rect> for Offset {
    open spec fn obeys_mul_spec() -> bool {
        true
    }

    open spec fn mul_req(self, rhs: Rect) -> bool {
        self.can_scale(rhs)
    }

    open spec fn mul_spec(self, rhs: Rect) -> Offset {
        self.scaled(rhs)
    }
}

impl Mul<usize> for Offset {
    type Output = Offset;

    fn mul(self, rhs: usize) -> (r: Offset) {
        self * Rect::new_sqr(rhs)
    }
}

impl MulSpecImpl<usize> for Offset {
    open spec fn obeys_mul_spec() -> bool {
        true
    }

    open spec fn mul_req(self, rhs: usize) -> bool {
        self.can_scale(Rect::spec_new(rhs, rhs))
    }

    open spec fn mul_spec(self, rhs: usize) -> Offset {
        self.scaled(Rect::spec_new(rhs, rhs))
    }
}

/// Moving a position by an offset and then back by the same offset returns the position.
pub proof fn lemma_offset_then_back(p: Position, o: Offset)
    requires
        p.can_offset(o),
    ensures
        p.offset_by(o).can_unoffset(o),
        p.offset_by(o).unoffset_by(o) == p,
{
    broadcast use group_axis_lemmas;

    Position::lemma_ext(p.offset_by(o).unoffset_by(o), p);
}

/// Moving `q` by the offset from `q` to `p` reaches `p`.
pub proof fn lemma_diff_then_offset(p: Position, q: Position)
    requires
        p.can_diff(q),
    ensures
        q.can_offset(p.diff(q)),
        q.offset_by(p.diff(q)) == p,
{
    broadcast use group_axis_lemmas;

    Position::lemma_ext(q.offset_by(p.diff(q)), p);
}

/// The offset from `p` to `p` moved by `o` is `o`.
pub proof fn lemma_offset_then_diff(p: Position, o: Offset)
    requires
        p.can_offset(o),
    ensures
        p.offset_by(o).can_diff(p),
        p.offset_by(o).diff(p) == o,
{
    broadcast use group_axis_lemmas;

    Offset::lemma_ext(p.offset_by(o).diff(p), o);
}

/// Adding an offset and then subtracting it gives back the first offset.
pub proof fn lemma_sum_then_difference(a: Offset, b: Offset)
    requires
        a.can_add(b),
    ensures
        a.sum(b).can_sub(b),
        a.sum(b).difference(b) == a,
{
    broadcast use group_axis_lemmas;

    Offset::lemma_ext(a.sum(b).difference(b), a);
}

/// Offset addition commutes.
pub proof fn lemma_sum_commutes(a: Offset, b: Offset)
    requires
        a.can_add(b),
    ensures
        b.can_add(a),
        a.sum(b) == b.sum(a),
{
    broadcast use group_axis_lemmas;

    Offset::lemma_ext(a.sum(b), b.sum(a));
}

/// An offset plus its negation is the zero offset.
pub proof fn lemma_sum_negated(a: Offset)
    requires
        a.can_neg(),
    ensures
        a.can_add(a.negated()),
        a.sum(a.negated()) == Offset::spec_new(0, 0),
{
    broadcast use group_axis_lemmas;

    Offset::lemma_ext(a.sum(a.negated()), Offset::spec_new(0, 0));
}

/// Converting a position to an offset and back gives the position.
pub proof fn lemma_position_offset_roundtrip(p: Position)
    requires
        p.x() <= isize::MAX,
        p.y() <= isize::MAX,
    ensures
        <Offset as TryFromSpec<Position>>::try_from_spec(p) matches Ok(o)
            && <Position as TryFromSpec<Offset>>::try_from_spec(o) == Ok::<Position, TryFromIntError>(p),
{
    broadcast use group_axis_lemmas;

}

/// The overlap of two ranges holds exactly the values that both hold; when there is no
/// overlap, no value is held by both.
pub proof fn lemma_overlap_exact(a: Range<usize>, b: Range<usize>)
    ensures
        overlap_of(a, b) matches Some(o) ==> !range_is_empty(o) && forall|v: int|
            #[trigger] range_holds(o, v) <==> (range_holds(a, v) && range_holds(b, v)),
        overlap_of(a, b) is None ==> forall|v: int| !(#[trigger] range_holds(a, v) && range_holds(b, v)),
{
}

/// The overlap of two ranges does not depend on their order.
pub proof fn lemma_overlap_symmetric(a: Range<usize>, b: Range<usize>)
    ensures
        overlap_of(a, b) == overlap_of(b, a),
{
}

/// Whether `point` lies in the half-open range of length `range` that begins at `start`.
///
/// The end of the range, `start + range`, is only computed when `point >= start`, and
/// must then fit in a `usize`.
pub fn in_range(point: usize, range: usize, start: usize) -> (r: bool)
    requires
        point >= start ==> start + range <= usize::MAX,
    ensures
        r == (start <= point < start + range),
{
    point >= start && point < start + range
}

/// Whether a half-open range holds no value.
pub open spec fn range_is_empty(r: Range<usize>) -> bool {
    r.end <= r.start
}

/// Whether `v` lies in the half-open range `r`.
pub open spec fn range_holds(r: Range<usize>, v: int) -> bool {
    r.start <= v < r.end
}

/// The overlap of two half-open ranges, or `None` when they share no value.
pub open spec fn overlap_of(a: Range<usize>, b: Range<usize>) -> Option<Range<usize>> {
    if range_is_empty(a) || range_is_empty(b) || !(a.start < b.end && b.start < a.end) {
        None
    } else {
        Some(
            Range {
                start: if a.start >= b.start { a.start } else { b.start },
                end: if a.end <= b.end { a.end } else { b.end },
            },
        )
    }
}

/// The overlap of two half-open ranges, or `None` when either is empty or they share
/// no value.
pub fn overlapping(range_1: Range<usize>, range_2: Range<usize>) -> (r: Option<Range<usize>>)
    ensures
        r == overlap_of(range_1, range_2),
        r matches Some(o) ==> !range_is_empty(o) && forall|v: int|
            #[trigger] range_holds(o, v) <==> (range_holds(range_1, v) && range_holds(range_2, v)),
        r is None ==> forall|v: int| !(#[trigger] range_holds(range_1, v) && range_holds(range_2, v)),
{
    if range_1.end <= range_1.start || range_2.end <= range_2.start {
        return None;
    }
    if range_1.start < range_2.end && range_2.start < range_1.end {
        let start = if range_1.start >= range_2.start {
            range_1.start
        } else {
            range_2.start
        };
        let end = if range_1.end <= range_2.end {
            range_1.end
        } else {
            range_2.end
        };
        Some(start..end)
    } else {
        None
    }
}

} // verus!
