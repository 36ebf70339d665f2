//! Rectangles of grid cells, addressed by `Position`.
use vstd::prelude::*;
use crate::axis::{Position, in_range};

verus! {

/// A `width` by `height` block of grid cells whose top-left cell is the origin.
#[derive(Debug, Default, Copy, Clone, Eq, PartialEq, Structural)]
pub struct Rect {
    width: usize,
    height: usize,
}

impl Rect {
    pub closed spec fn spec_new(width: usize, height: usize) -> Rect {
        Rect { width, height }
    }

    pub closed spec fn width(self) -> usize {
        self.width
    }

    pub closed spec fn height(self) -> usize {
        self.height
    }

    /// The number of cells, as a mathematical integer.
    pub open spec fn area(self) -> int {
        self.width() * self.height()
    }

    /// Whether the number of cells fits in a `usize`.
    pub open spec fn has_usize_area(self) -> bool {
        self.area() <= usize::MAX
    }

    /// Whether `pos` is one of the cells of this rectangle.
    pub open spec fn holds(self, pos: Position) -> bool {
        pos.x() < self.width() && pos.y() < self.height()
    }

    /// The cell with the given row-major index.
    pub open spec fn spec_fold_x_first(self, index: int) -> Position {
        Position::spec_new((index % self.width() as int) as usize, (index / self.width() as int) as usize)
    }

    /// The cell with the given column-major index.
    pub open spec fn spec_fold_y_first(self, index: int) -> Position {
        Position::spec_new((index / self.height() as int) as usize, (index % self.height() as int) as usize)
    }

    /// The row-major index of a cell.
    pub open spec fn spec_flatten_x_first(self, pos: Position) -> int {
        self.width() * pos.y() + pos.x()
    }

    /// The column-major index of a cell.
    pub open spec fn spec_flatten_y_first(self, pos: Position) -> int {
        self.height() * pos.x() + pos.y()
    }

    /// A rectangle made of two sides has those sides.
    pub broadcast proof fn lemma_spec_new(width: usize, height: usize)
        ensures
            (#[trigger] Rect::spec_new(width, height)).width() == width,
            Rect::spec_new(width, height).height() == height,
    {
    }

    pub proof fn lemma_ext(a: Rect, b: Rect)
        requires
            a.width() == b.width(),
            a.height() == b.height(),
        ensures
            a == b,
    {
    }

    /// Column-major numbering is the row-major numbering of the transposed rectangle,
    /// applied to the transposed cell.
    pub proof fn lemma_column_major_is_transposed_row_major(self, pos: Position, index: int)
        ensures
            self.spec_flatten_y_first(pos) == Rect::spec_new(self.height(), self.width()).spec_flatten_x_first(
                Position::spec_new(pos.y(), pos.x()),
            ),
            ({
                let t = Rect::spec_new(self.height(), self.width()).spec_fold_x_first(index);
                self.spec_fold_y_first(index) == Position::spec_new(t.y(), t.x())
            }),
    {
        broadcast use crate::axis::group_axis_lemmas;
        broadcast use Rect::lemma_spec_new;

        let t = Rect::spec_new(self.height(), self.width()).spec_fold_x_first(index);
        Position::lemma_ext(self.spec_fold_y_first(index), Position::spec_new(t.y(), t.x()));
    }

    /// Column-major numbering starts at the top-left cell, goes one down a column at each
    /// step, and from the bottom of a column to the top of the next one.
    pub proof fn lemma_column_major_steps(self, x: usize, y: usize)
        ensures
            self.spec_flatten_y_first(Position::spec_new(0, 0)) == 0,
            y + 1 < self.height() && y + 1 <= usize::MAX ==> self.spec_flatten_y_first(Position::spec_new(x, (y + 1) as usize))
                == self.spec_flatten_y_first(Position::spec_new(x, y)) + 1,
            self.height() >= 1 && x + 1 <= usize::MAX ==> self.spec_flatten_y_first(Position::spec_new((x + 1) as usize, 0))
                == self.spec_flatten_y_first(Position::spec_new(x, (self.height() - 1) as usize)) + 1,
    {
        broadcast use crate::axis::group_axis_lemmas;

        assert(self.height() * (x + 1) == self.height() * x + self.height()) by (nonlinear_arith);
        assert(self.height() * 0 == 0) by (nonlinear_arith);
    }

    /// Row-major numbering starts at the top-left cell, goes one right along a row at each
    /// step, and from the end of a row to the start of the next one.
    pub proof fn lemma_row_major_steps(self, x: usize, y: usize)
        ensures
            self.spec_flatten_x_first(Position::spec_new(0, 0)) == 0,
            x + 1 < self.width() && x + 1 <= usize::MAX ==> self.spec_flatten_x_first(Position::spec_new((x + 1) as usize, y))
                == self.spec_flatten_x_first(Position::spec_new(x, y)) + 1,
            self.width() >= 1 && y + 1 <= usize::MAX ==> self.spec_flatten_x_first(Position::spec_new(0, (y + 1) as usize))
                == self.spec_flatten_x_first(Position::spec_new((self.width() - 1) as usize, y)) + 1,
    {
        broadcast use crate::axis::group_axis_lemmas;

        assert(self.width() * (y + 1) == self.width() * y + self.width()) by (nonlinear_arith);
        assert(self.width() * 0 == 0) by (nonlinear_arith);
    }

    /// Each row-major index of a cell names a cell, whose row-major index it is.
    pub proof fn lemma_fold_flatten_x_first(self, index: int)
        requires
            0 <= index < self.area(),
        ensures
            self.holds(self.spec_fold_x_first(index)),
            self.spec_flatten_x_first(self.spec_fold_x_first(index)) == index,
    {
        broadcast use crate::axis::group_axis_lemmas;

        lemma_index_split(index, self.width() as int, self.height() as int);
    }

    /// Each cell has a row-major index below the area, which names that cell.
    pub proof fn lemma_flatten_fold_x_first(self, pos: Position)
        requires
            self.holds(pos),
        ensures
            0 <= self.spec_flatten_x_first(pos) < self.area(),
            self.spec_fold_x_first(self.spec_flatten_x_first(pos)) == pos,
    {
        broadcast use crate::axis::group_axis_lemmas;

        lemma_index_join(pos.y() as int, pos.x() as int, self.width() as int, self.height() as int);
        Position::lemma_ext(self.spec_fold_x_first(self.spec_flatten_x_first(pos)), pos);
    }

    /// Each column-major index of a cell names a cell, whose column-major index it is.
    pub proof fn lemma_fold_flatten_y_first(self, index: int)
        requires
            0 <= index < self.area(),
        ensures
            self.holds(self.spec_fold_y_first(index)),
            self.spec_flatten_y_first(self.spec_fold_y_first(index)) == index,
    {
        broadcast use crate::axis::group_axis_lemmas;

        assert(self.width() * self.height() == self.height() * self.width()) by (nonlinear_arith);
        lemma_index_split(index, self.height() as int, self.width() as int);
    }

    /// Each cell has a column-major index below the area, which names that cell.
    pub proof fn lemma_flatten_fold_y_first(self, pos: Position)
        requires
            self.holds(pos),
        ensures
            0 <= self.spec_flatten_y_first(pos) < self.area(),
            self.spec_fold_y_first(self.spec_flatten_y_first(pos)) == pos,
    {
        broadcast use crate::axis::group_axis_lemmas;

        assert(self.width() * self.height() == self.height() * self.width()) by (nonlinear_arith);
        lemma_index_join(pos.x() as int, pos.y() as int, self.height() as int, self.width() as int);
        Position::lemma_ext(self.spec_fold_y_first(self.spec_flatten_y_first(pos)), pos);
    }

    pub fn new(width: usize, height: usize) -> (r: Self)
        ensures
            r == Rect::spec_new(width, height),
            r.width() == width,
            r.height() == height,
    {
        Self { width, height }
    }

    pub fn new_sqr(side: usize) -> (r: Self)
        ensures
            r == Rect::spec_new(side, side),
            r.width() == side,
            r.height() == side,
    {
        Self::new(side, side)
    }

    /// The number of cells; it must fit in a `usize`.
    pub fn size(&self) -> (r: usize)
        requires
            self.has_usize_area(),
        ensures
            r == self.area(),
    {
        self.width * self.height
    }

    /// The number of cells, or `None` when it does not fit in a `usize`.
    pub fn checked_size(&self) -> (r: Option<usize>)
        ensures
            r == (if self.has_usize_area() {
                Some(self.area() as usize)
            } else {
                None
            }),
    {
        self.width.checked_mul(self.height)
    }

    /// The cell with row-major index `index`, or `None` when the index is past the last cell.
    pub fn fold_x_first(&self, index: usize) -> (r: Option<Position>)
        requires
            self.has_usize_area(),
        ensures
            r == (if index < self.area() {
                Some(self.spec_fold_x_first(index as int))
            } else {
                None
            }),
    {
        if index < self.size() {
            proof {
                lemma_positive_side(index as int, self.width as int, self.height as int);
            }
            Some(Position::new(index % self.width, index / self.width))
        } else {
            None
        }
    }

    /// The cell with column-major index `index`, or `None` when the index is past the last cell.
    pub fn fold_y_first(&self, index: usize) -> (r: Option<Position>)
        requires
            self.has_usize_area(),
        ensures
            r == (if index < self.area() {
                Some(self.spec_fold_y_first(index as int))
            } else {
                None
            }),
    {
        if index < self.size() {
            proof {
                lemma_positive_side(index as int, self.width as int, self.height as int);
            }
            Some(Position::new(index / self.height, index % self.height))
        } else {
            None
        }
    }

    /// The row-major index of `pos`, or `None` when `pos` is not a cell of this rectangle.
    pub fn flatten_x_first(&self, pos: &Position) -> (r: Option<usize>)
        requires
            self.holds(*pos) ==> self.spec_flatten_x_first(*pos) <= usize::MAX,
        ensures
            r == (if self.holds(*pos) {
                Some(self.spec_flatten_x_first(*pos) as usize)
            } else {
                None
            }),
    {
        if self.contains_pos(pos) {
            proof {
                lemma_product_bound(pos.y() as int, self.width as int);
            }
            Some(self.width * pos.pos_y() + pos.pos_x())
        } else {
            None
        }
    }

    /// The column-major index of `pos`, or `None` when `pos` is not a cell of this rectangle.
    pub fn flatten_y_first(&self, pos: &Position) -> (r: Option<usize>)
        requires
            self.holds(*pos) ==> self.spec_flatten_y_first(*pos) <= usize::MAX,
        ensures
            r == (if self.holds(*pos) {
                Some(self.spec_flatten_y_first(*pos) as usize)
            } else {
                None
            }),
    {
        if self.contains_pos(pos) {
            proof {
                lemma_product_bound(pos.x() as int, self.height as int);
            }
            Some(self.height * pos.pos_x() + pos.pos_y())
        } else {
            None
        }
    }

    pub fn contains_pos(&self, pos: &Position) -> (r: bool)
        ensures
            r == self.holds(*pos),
    {
        in_range(pos.pos_x(), self.width, 0) && in_range(pos.pos_y(), self.height, 0)
    }

    pub fn get_width(&self) -> (r: usize)
        ensures
            r == self.width(),
    {
        self.width
    }

    pub fn get_height(&self) -> (r: usize)
        ensures
            r == self.height(),
    {
        self.height
    }
}

/// Splitting an index below `d * e` into a quotient and a remainder by `d`.
pub(crate) proof fn lemma_index_split(i: int, d: int, e: int)
    requires
        0 <= i < d * e,
        0 <= d,
        0 <= e,
    ensures
        0 < d,
        0 <= i % d < d,
        0 <= i / d < e,
        d * (i / d) + i % d == i,
{
    lemma_positive_side(i, d, e);
    vstd::arithmetic::div_mod::lemma_fundamental_div_mod(i, d);
    vstd::arithmetic::div_mod::lemma_mod_bound(i, d);
    assert(0 <= i / d < e) by (nonlinear_arith)
        requires
            0 <= i < d * e,
            d * (i / d) + i % d == i,
            0 <= i % d < d,
            0 < d,
    ;
}

/// Joining a quotient `q < e` and a remainder `r < d` into an index below `d * e`.
pub(crate) proof fn lemma_index_join(q: int, r: int, d: int, e: int)
    requires
        0 <= r < d,
        0 <= q < e,
    ensures
        0 <= d * q + r < d * e,
        (d * q + r) % d == r,
        (d * q + r) / d == q,
{
    assert(0 <= d * q + r < d * e) by (nonlinear_arith)
        requires
            0 <= r < d,
            0 <= q < e,
    ;
    assert(d * q == q * d) by (nonlinear_arith);
    vstd::arithmetic::div_mod::lemma_fundamental_div_mod_converse(d * q + r, d, q, r);
}

/// An index below `a * b` means both sides are positive.
pub(crate) proof fn lemma_positive_side(index: int, a: int, b: int)
    requires
        0 <= index < a * b,
        0 <= a,
        0 <= b,
    ensures
        a > 0,
        b > 0,
{
    if a == 0 {
        assert(a * b == 0) by (nonlinear_arith)
            requires
                a == 0,
        ;
    }
    if b == 0 {
        assert(a * b == 0) by (nonlinear_arith)
            requires
                b == 0,
        ;
    }
}

proof fn lemma_product_bound(a: int, b: int)
    requires
        0 <= a,
        0 <= b,
    ensures
        0 <= a * b,
        0 <= b * a,
{
    assert(0 <= a * b) by (nonlinear_arith)
        requires
            0 <= a,
            0 <= b,
    ;
    assert(b * a == a * b) by (nonlinear_arith);
}

/// Whether `k` is `n / sqrt(m)` rounded to the nearest integer, halves rounded up:
/// `k - 1/2 <= n / sqrt(m) < k + 1/2`, written without roots or fractions.
pub open spec fn rounds_root_ratio(k: int, n: int, m: int) -> bool {
    &&& 0 <= k
    &&& (k == 0 || (2 * k - 1) * (2 * k - 1) * m <= 4 * n * n)
    &&& 4 * n * n < (2 * k + 1) * (2 * k + 1) * m
}

/// `n / sqrt(m)` rounded to the nearest integer, halves rounded up.
pub open spec fn root_ratio_rounded(n: int, m: int) -> int {
    choose|k: int| rounds_root_ratio(k, n, m)
}

/// Whether `k < n / sqrt(m)`, for a non-negative `k`.
pub open spec fn below_root_ratio(k: int, n: int, m: int) -> bool {
    k * k * m < n * n
}

/// Whether a `cw` by `ch` chunk is smaller than the average chunk `w * h / m`.
pub open spec fn falls_short(cw: int, ch: int, w: int, h: int, m: int) -> bool {
    cw * ch * m < w * h
}

/// `a / b` rounded up, for a positive `b`.
pub open spec fn ceil_div(a: int, b: int) -> int {
    (a + b - 1) / b
}

/// Grows the rounded chunk sides `(cw, ch)` of a `w` by `h` grid shared among `m` chunks
/// until the chunk is no smaller than the average one: both sides together for a square
/// grid, otherwise one side at a time, the side along the longer grid side first, and a
/// side only where its rounded value fell below the exact one.
pub open spec fn adjusted_sides(w: int, h: int, m: int, cw: int, ch: int) -> (int, int) {
    if w == h {
        if falls_short(cw, ch, w, h, m) {
            (cw + 1, ch + 1)
        } else {
            (cw, ch)
        }
    } else if w > h {
        let cw1 = if falls_short(cw, ch, w, h, m) && below_root_ratio(cw, w, m) {
            cw + 1
        } else {
            cw
        };
        let ch1 = if falls_short(cw1, ch, w, h, m) && below_root_ratio(ch, h, m) {
            ch + 1
        } else {
            ch
        };
        (cw1, ch1)
    } else {
        let ch1 = if falls_short(cw, ch, w, h, m) && below_root_ratio(ch, h, m) {
            ch + 1
        } else {
            ch
        };
        let cw1 = if falls_short(cw, ch1, w, h, m) && below_root_ratio(cw, w, m) {
            cw + 1
        } else {
            cw
        };
        (cw1, ch1)
    }
}

/// The chunk shape before it is grown to fit: about the average chunk of a `w` by `h`
/// grid shared among `m` chunks.
///
/// A grid of at most `m` cells gets single-cell chunks. Otherwise the exact chunk sides
/// are `w / sqrt(m)` and `h / sqrt(m)` (their product is the average chunk `w * h / m`);
/// they are rounded to the nearest integers, a side that rounds to zero becomes `1` with
/// the other side the average chunk rounded up, and otherwise the sides are grown by
/// `adjusted_sides`.
pub open spec fn rounded_chunk_shape(w: int, h: int, m: int) -> Option<Rect> {
    if w == 0 || h == 0 || m == 0 {
        None
    } else if w * h <= m {
        Some(Rect::spec_new(1, 1))
    } else {
        let cw = root_ratio_rounded(w, m);
        let ch = root_ratio_rounded(h, m);
        if cw == 0 && ch == 0 {
            None
        } else if cw == 0 {
            Some(Rect::spec_new(1, ceil_div(w * h, m) as usize))
        } else if ch == 0 {
            Some(Rect::spec_new(ceil_div(w * h, m) as usize, 1))
        } else {
            let (aw, ah) = adjusted_sides(w, h, m, cw, ch);
            Some(Rect::spec_new(aw as usize, ah as usize))
        }
    }
}

proof fn lemma_square_mono(a: int, b: int, m: int)
    requires
        0 <= a <= b,
        0 <= m,
    ensures
        a * a * m <= b * b * m,
{
    assert(a * a * m <= b * b * m) by (nonlinear_arith)
        requires
            0 <= a <= b,
            0 <= m,
    ;
}

/// `a * a * m < b * b * m` with a positive `m` and non-negative sides means `a < b`.
proof fn lemma_square_lt(a: int, b: int, m: int)
    requires
        0 <= a,
        0 <= b,
        0 < m,
        a * a * m < b * b * m,
    ensures
        a < b,
{
    if a >= b {
        lemma_square_mono(b, a, m);
    }
}

/// The rounded value of `n / sqrt(m)` is unique.
proof fn lemma_rounds_unique(k1: int, k2: int, n: int, m: int)
    requires
        0 < m,
        rounds_root_ratio(k1, n, m),
        rounds_root_ratio(k2, n, m),
    ensures
        k1 == k2,
{
    if k1 < k2 {
        lemma_square_lt(2 * k2 - 1, 2 * k1 + 1, m);
    } else if k2 < k1 {
        lemma_square_lt(2 * k1 - 1, 2 * k2 + 1, m);
    }
}

/// A rounded value is the one that `root_ratio_rounded` picks.
pub proof fn lemma_rounded_is_chosen(k: int, n: int, m: int)
    requires
        0 < m,
        rounds_root_ratio(k, n, m),
    ensures
        root_ratio_rounded(n, m) == k,
{
    let c = root_ratio_rounded(n, m);
    assert(rounds_root_ratio(c, n, m));
    lemma_rounds_unique(c, k, n, m);
}

/// The product of two values below 2^64 fits in a `u128`.
proof fn lemma_wide_product(a: int, b: int)
    requires
        0 <= a <= 0xffff_ffff_ffff_ffff,
        0 <= b <= 0xffff_ffff_ffff_ffff,
    ensures
        0 <= a * b <= 0xffff_ffff_ffff_fffe_0000_0000_0000_0001,
{
    assert(0 <= a * b <= 0xffff_ffff_ffff_ffff * 0xffff_ffff_ffff_ffff) by (nonlinear_arith)
        requires
            0 <= a <= 0xffff_ffff_ffff_ffff,
            0 <= b <= 0xffff_ffff_ffff_ffff,
    ;
}

/// The largest `f` with `f * f * m <= n * n`: `n / sqrt(m)` rounded down.
fn floor_root_ratio(n: usize, m: usize) -> (f: u128)
    requires
        m > 0,
    ensures
        f <= n,
        f * f * m <= n * n,
        n * n < (f + 1) * (f + 1) * m,
{
    proof {
        lemma_wide_product(n as int, n as int);
    }
    let nn: u128 = (n as u128) * (n as u128);
    let mm: u128 = m as u128;
    let mut lo: u128 = 0;
    let mut hi: u128 = (n as u128) + 1;
    proof {
        assert(0 * 0 * m == 0);
        assert(n * n < (n + 1) * (n + 1) * m) by (nonlinear_arith)
            requires
                m >= 1,
                n >= 0,
        ;
    }
    while hi - lo > 1
        invariant
            lo < hi <= n + 1,
            nn == n * n,
            mm == m,
            m > 0,
            lo * lo * m <= n * n,
            n * n < hi * hi * m,
        decreases hi - lo,
    {
        let mid: u128 = lo + (hi - lo) / 2;
        proof {
            assert(mid * mid <= 0xffff_ffff_ffff_ffff * 0xffff_ffff_ffff_ffffu128) by (nonlinear_arith)
                requires
                    0 <= mid <= 0xffff_ffff_ffff_ffff,
            ;
        }
        let sq: u128 = mid * mid;
        let fits = match sq.checked_mul(mm) {
            Some(v) => v <= nn,
            None => false,
        };
        if fits {
            lo = mid;
        } else {
            hi = mid;
        }
    }
    lo
}

/// `n / sqrt(m)` rounded to the nearest integer, halves rounded up.
fn round_root_ratio(n: usize, m: usize) -> (k: usize)
    requires
        m > 0,
    ensures
        rounds_root_ratio(k as int, n as int, m as int),
        k <= n,
{
    let f = floor_root_ratio(n, m);
    proof {
        lemma_wide_product(n as int, n as int);
        lemma_wide_product(f as int, f as int);
    }
    let nn: u128 = (n as u128) * (n as u128);
    let mm: u128 = m as u128;
    proof {
        lemma_square_mono(0, f as int, m as int);
        assert(f * m <= 0xffff_ffff_ffff_ffff * 0xffff_ffff_ffff_ffffu128) by (nonlinear_arith)
            requires
                0 <= f <= 0xffff_ffff_ffff_ffff,
                0 <= m <= 0xffff_ffff_ffff_ffff,
        ;
        assert(f * f * m == (f * f) * m);
    }
    let ffm: u128 = f * f * mm;
    let e: u128 = nn - ffm;
    let fm: u128 = f * mm;
    let quarter: u128 = (mm + 3) / 4;
    let bump = e >= fm + quarter;
    proof {
        let fi = f as int;
        let mi = m as int;
        let ni = n as int;
        assert((2 * fi + 1) * (2 * fi + 1) * mi == 4 * (fi * fi * mi) + 4 * (fi * mi) + mi)
            by (nonlinear_arith);
        if fi >= 1 {
            assert((2 * fi - 1) * (2 * fi - 1) * mi <= 4 * (fi * fi * mi)) by (nonlinear_arith)
                requires
                    fi >= 1,
                    mi >= 1,
            ;
        }
        assert((2 * fi + 2) * (2 * fi + 2) * mi == 4 * ((fi + 1) * (fi + 1) * mi))
            by (nonlinear_arith);
        assert((2 * fi + 2) * (2 * fi + 2) * mi <= (2 * fi + 3) * (2 * fi + 3) * mi)
            by (nonlinear_arith)
            requires
                fi >= 0,
                mi >= 1,
        ;
        assert(4 * ni * ni == 4 * (ni * ni)) by (nonlinear_arith);
        if bump {
            assert((2 * fi + 1) * (2 * fi + 1) <= (2 * fi + 1) * (2 * fi + 1) * mi)
                by (nonlinear_arith)
                requires
                    mi >= 1,
            ;
            assert(2 * fi + 1 <= 2 * ni) by (nonlinear_arith)
                requires
                    (2 * fi + 1) * (2 * fi + 1) <= 4 * ni * ni,
                    ni >= 0,
                    fi >= 0,
            ;
        }
    }
    if bump {
        (f + 1) as usize
    } else {
        f as usize
    }
}

/// Whether `k < n / sqrt(m)`.
fn is_below_root_ratio(k: usize, n: usize, m: usize) -> (r: bool)
    ensures
        r == below_root_ratio(k as int, n as int, m as int),
{
    proof {
        assert(k * k <= 0xffff_ffff_ffff_ffff * 0xffff_ffff_ffff_ffffu128) by (nonlinear_arith)
            requires
                0 <= k <= 0xffff_ffff_ffff_ffff,
        ;
        assert(n * n <= 0xffff_ffff_ffff_ffff * 0xffff_ffff_ffff_ffffu128) by (nonlinear_arith)
            requires
                0 <= n <= 0xffff_ffff_ffff_ffff,
        ;
    }
    let kk: u128 = (k as u128) * (k as u128);
    let nn: u128 = (n as u128) * (n as u128);
    match kk.checked_mul(m as u128) {
        Some(v) => v < nn,
        None => false,
    }
}

/// Whether a `cw` by `ch` chunk is smaller than the average chunk `w * h / m`.
fn is_short(cw: usize, ch: usize, total: u128, m: usize) -> (r: bool)
    ensures
        r == (cw * ch * m < total),
{
    proof {
        assert(cw * ch <= 0xffff_ffff_ffff_ffff * 0xffff_ffff_ffff_ffffu128) by (nonlinear_arith)
            requires
                0 <= cw <= 0xffff_ffff_ffff_ffff,
                0 <= ch <= 0xffff_ffff_ffff_ffff,
        ;
    }
    let area: u128 = (cw as u128) * (ch as u128);
    match area.checked_mul(m as u128) {
        Some(v) => v < total,
        None => false,
    }
}

/// A non-negative `k` below `n / sqrt(m)` is below `n`.
proof fn lemma_below_lt(k: int, n: int, m: int)
    requires
        0 <= k,
        0 <= n,
        1 <= m,
        below_root_ratio(k, n, m),
    ensures
        k < n,
{
    assert(k * k <= k * k * m) by (nonlinear_arith)
        requires
            1 <= m,
    ;
    lemma_square_lt(k, n, 1);
}

/// The rounded chunk shape of a `width` by `height` grid shared among `max` chunks.
fn rounded_chunk(width: usize, height: usize, max: usize) -> (r: Option<Rect>)
    ensures
        r == rounded_chunk_shape(width as int, height as int, max as int),
{
    if width == 0 || height == 0 || max == 0 {
        return None;
    }
    let ghost w = width as int;
    let ghost h = height as int;
    let ghost m = max as int;
    proof {
        assert(width * height <= 0xffff_ffff_ffff_ffff * 0xffff_ffff_ffff_ffffu128) by (nonlinear_arith)
            requires
                0 <= width <= 0xffff_ffff_ffff_ffff,
                0 <= height <= 0xffff_ffff_ffff_ffff,
        ;
    }
    let total: u128 = (width as u128) * (height as u128);
    if total <= max as u128 {
        return Some(Rect::new(1, 1));
    }
    let cw = round_root_ratio(width, max);
    let ch = round_root_ratio(height, max);
    proof {
        lemma_rounded_is_chosen(cw as int, w, m);
        lemma_rounded_is_chosen(ch as int, h, m);
    }
    if cw == 0 && ch == 0 {
        return None;
    }
    if cw == 0 || ch == 0 {
        let avg_ceil: u128 = (total + (max as u128) - 1) / (max as u128);
        proof {
            if cw == 0 {
                lemma_short_side_ceil(w, h, m);
            } else {
                lemma_short_side_ceil(h, w, m);
                assert(w * h == h * w) by (nonlinear_arith);
            }
        }
        if cw == 0 {
            return Some(Rect::new(1, avg_ceil as usize));
        } else {
            return Some(Rect::new(avg_ceil as usize, 1));
        }
    }
    let mut chunk_width = cw;
    let mut chunk_height = ch;
    if width == height {
        proof {
            lemma_rounds_unique(cw as int, ch as int, w, m);
        }
        if is_short(chunk_width, chunk_height, total, max) {
            proof {
                assert(cw * ch * m == cw * cw * m);
                lemma_below_lt(cw as int, w, m);
            }
            chunk_height = chunk_height + 1;
            chunk_width = chunk_width + 1;
        }
    } else if width > height {
        if is_short(chunk_width, chunk_height, total, max) && is_below_root_ratio(chunk_width, width, max) {
            proof {
                lemma_below_lt(cw as int, w, m);
            }
            chunk_width = chunk_width + 1;
        }
        if is_short(chunk_width, chunk_height, total, max) && is_below_root_ratio(chunk_height, height, max) {
            proof {
                lemma_below_lt(ch as int, h, m);
            }
            chunk_height = chunk_height + 1;
        }
    } else {
        if is_short(chunk_width, chunk_height, total, max) && is_below_root_ratio(chunk_height, height, max) {
            proof {
                lemma_below_lt(ch as int, h, m);
            }
            chunk_height = chunk_height + 1;
        }
        if is_short(chunk_width, chunk_height, total, max) && is_below_root_ratio(chunk_width, width, max) {
            proof {
                lemma_below_lt(cw as int, w, m);
            }
            chunk_width = chunk_width + 1;
        }
    }
    Some(Rect::new(chunk_width, chunk_height))
}

/// When `w / sqrt(m)` rounds to zero, the average chunk `w * h / m` rounded up is at
/// most `h`.
proof fn lemma_short_side_ceil(w: int, h: int, m: int)
    requires
        1 <= w,
        1 <= h,
        1 <= m,
        rounds_root_ratio(0, w, m),
    ensures
        1 <= ceil_div(w * h, m) <= h,
{
    assert((2 * 0 + 1) * (2 * 0 + 1) * m == m) by (nonlinear_arith);
    assert(w < m) by (nonlinear_arith)
        requires
            4 * w * w < m,
            1 <= w,
    ;
    assert(w * h <= m * h - h) by (nonlinear_arith)
        requires
            w <= m - 1,
            1 <= h,
    ;
    assert((w * h + m - 1) / m <= h) by (nonlinear_arith)
        requires
            w * h + m - 1 <= m * h + m - 1 - h,
            1 <= h,
            1 <= m,
    ;
    assert(w * h >= 1) by (nonlinear_arith)
        requires
            1 <= w,
            1 <= h,
    ;
    assert((w * h + m - 1) / m >= 1) by (nonlinear_arith)
        requires
            w * h >= 1,
            1 <= m,
    ;
}

/// Every `n / sqrt(m)` with a positive `m` has a rounded value: the least `j <= k` with
/// `4 * n * n < (2 * j + 1)^2 * m`, given one such `k`.
proof fn lemma_rounds_exists_from(n: int, m: int, k: int)
    requires
        0 <= k,
        4 * n * n < (2 * k + 1) * (2 * k + 1) * m,
    ensures
        rounds_root_ratio(root_ratio_rounded(n, m), n, m),
    decreases k,
{
    if k == 0 {
        assert(rounds_root_ratio(0, n, m));
    } else if 4 * n * n < (2 * (k - 1) + 1) * (2 * (k - 1) + 1) * m {
        lemma_rounds_exists_from(n, m, k - 1);
    } else {
        assert(rounds_root_ratio(k, n, m));
    }
}

/// Facts about the rounded value `c` of `n / sqrt(m)`: it is at most `n`, and `c + 1`
/// is above `n / sqrt(m)`.
proof fn lemma_rounded_facts(n: int, m: int)
    requires
        0 <= n,
        1 <= m,
    ensures
        rounds_root_ratio(root_ratio_rounded(n, m), n, m),
        root_ratio_rounded(n, m) <= n,
        n * n < (root_ratio_rounded(n, m) + 1) * (root_ratio_rounded(n, m) + 1) * m,
{
    assert(4 * n * n < (2 * n + 1) * (2 * n + 1) * m) by (nonlinear_arith)
        requires
            0 <= n,
            1 <= m,
    ;
    lemma_rounds_exists_from(n, m, n);
    let c = root_ratio_rounded(n, m);
    assert(4 * n * n < (2 * c + 2) * (2 * c + 2) * m) by (nonlinear_arith)
        requires
            4 * n * n < (2 * c + 1) * (2 * c + 1) * m,
            0 <= c,
            1 <= m,
    ;
    assert(n * n < (c + 1) * (c + 1) * m) by (nonlinear_arith)
        requires
            4 * n * n < (2 * c + 2) * (2 * c + 2) * m,
    ;
    if c >= 1 {
        assert((2 * c - 1) * (2 * c - 1) <= 4 * n * n) by (nonlinear_arith)
            requires
                (2 * c - 1) * (2 * c - 1) * m <= 4 * n * n,
                1 <= m,
        ;
        if c > n {
            lemma_square_mono(2 * n + 1, 2 * c - 1, 1);
            assert(4 * n * n < (2 * n + 1) * (2 * n + 1) * 1) by (nonlinear_arith)
                requires
                    n >= 0,
            ;
        }
    }
}

/// Sides whose squares reach `w * w / m` and `h * h / m` make a chunk that reaches the
/// average chunk `w * h / m`.
proof fn lemma_sides_cover(a: int, b: int, w: int, h: int, m: int)
    requires
        0 <= a,
        0 <= b,
        0 <= w,
        0 <= h,
        1 <= m,
        a * a * m >= w * w,
        b * b * m >= h * h,
    ensures
        !falls_short(a, b, w, h, m),
{
    assert((a * b * m) * (a * b * m) == (a * a * m) * (b * b * m)) by (nonlinear_arith);
    assert((a * a * m) * (b * b * m) >= (w * w) * (h * h)) by (nonlinear_arith)
        requires
            a * a * m >= w * w,
            b * b * m >= h * h,
            w * w >= 0,
            h * h >= 0,
    ;
    assert((w * h) * (w * h) == (w * w) * (h * h)) by (nonlinear_arith);
    assert(a * b * m >= 0 && w * h >= 0) by (nonlinear_arith)
        requires
            0 <= a,
            0 <= b,
            0 <= w,
            0 <= h,
            1 <= m,
    ;
    if a * b * m < w * h {
        let x = a * b * m;
        let y = w * h;
        assert(x * x < y * y) by (nonlinear_arith)
            requires
                0 <= x < y,
        ;
    }
}

/// The rounded chunk shape exists exactly when the sides and the chunk count are
/// positive; it then fits in the grid, has positive sides, and is at least the average
/// chunk.
proof fn lemma_rounded_chunk_shape(w: int, h: int, m: int)
    requires
        0 <= w <= usize::MAX,
        0 <= h <= usize::MAX,
        0 <= m <= usize::MAX,
    ensures
        rounded_chunk_shape(w, h, m) is Some <==> (w > 0 && h > 0 && m > 0),
        rounded_chunk_shape(w, h, m) matches Some(r) ==> {
            &&& 1 <= r.width() <= w
            &&& 1 <= r.height() <= h
            &&& r.width() * r.height() * m >= w * h
        },
{
    if w == 0 || h == 0 || m == 0 {
        return;
    }
    if w * h <= m {
        let r = Rect::spec_new(1, 1);
        assert(r.width() * r.height() * m == m) by (nonlinear_arith)
            requires
                r.width() == 1,
                r.height() == 1,
        ;
        return;
    }
    lemma_rounded_facts(w, m);
    lemma_rounded_facts(h, m);
    let cw = root_ratio_rounded(w, m);
    let ch = root_ratio_rounded(h, m);
    if cw == 0 && ch == 0 {
        assert((2 * 0 + 1) * (2 * 0 + 1) * m == m) by (nonlinear_arith);
        assert(w * h < m) by (nonlinear_arith)
            requires
                4 * w * w < m,
                4 * h * h < m,
                1 <= w,
                1 <= h,
                1 <= m,
        ;
        assert(false);
    } else if cw == 0 {
        lemma_short_side_ceil(w, h, m);
        lemma_ceil_div_covers(w * h, m);
        let r = Rect::spec_new(1, ceil_div(w * h, m) as usize);
        assert(r.width() * r.height() * m >= w * h) by (nonlinear_arith)
            requires
                r.width() == 1,
                r.height() == ceil_div(w * h, m),
                1 * ceil_div(w * h, m) * m >= w * h,
        ;
    } else if ch == 0 {
        lemma_short_side_ceil(h, w, m);
        assert(w * h == h * w) by (nonlinear_arith);
        lemma_ceil_div_covers(w * h, m);
        let r = Rect::spec_new(ceil_div(w * h, m) as usize, 1);
        assert(r.width() * r.height() * m >= w * h) by (nonlinear_arith)
            requires
                r.height() == 1,
                r.width() == ceil_div(w * h, m),
                1 * ceil_div(w * h, m) * m >= w * h,
        ;
    } else {
        lemma_adjusted_sides(w, h, m, cw, ch);
        let (aw, ah) = adjusted_sides(w, h, m, cw, ch);
        let r = Rect::spec_new(aw as usize, ah as usize);
        assert(r.width() == aw && r.height() == ah);
    }
}

/// `ceil_div(a, m) * m >= a`.
proof fn lemma_ceil_div_covers(a: int, m: int)
    requires
        0 <= a,
        1 <= m,
    ensures
        1 * ceil_div(a, m) * m >= a,
{
    assert(((a + m - 1) / m) * m >= a) by (nonlinear_arith)
        requires
            0 <= a,
            1 <= m,
    ;
}

proof fn lemma_adjusted_sides(w: int, h: int, m: int, cw: int, ch: int)
    requires
        1 <= w,
        1 <= h,
        1 <= m,
        1 <= cw <= w,
        1 <= ch <= h,
        rounds_root_ratio(cw, w, m),
        rounds_root_ratio(ch, h, m),
        w * w < (cw + 1) * (cw + 1) * m,
        h * h < (ch + 1) * (ch + 1) * m,
    ensures
        ({
            let (aw, ah) = adjusted_sides(w, h, m, cw, ch);
            &&& 1 <= aw <= w
            &&& 1 <= ah <= h
            &&& aw * ah * m >= w * h
        }),
{
    if below_root_ratio(cw, w, m) {
        lemma_below_lt(cw, w, m);
    }
    if below_root_ratio(ch, h, m) {
        lemma_below_lt(ch, h, m);
    }
    if w == h {
        lemma_rounds_unique(cw, ch, w, m);
        if falls_short(cw, ch, w, h, m) {
            assert(below_root_ratio(cw, w, m));
            lemma_sides_cover(cw + 1, ch + 1, w, h, m);
        }
    } else if w > h {
        let cw1 = if falls_short(cw, ch, w, h, m) && below_root_ratio(cw, w, m) {
            cw + 1
        } else {
            cw
        };
        if falls_short(cw1, ch, w, h, m) {
            if !below_root_ratio(cw1, w, m) && !below_root_ratio(ch, h, m) {
                lemma_sides_cover(cw1, ch, w, h, m);
            }
            if below_root_ratio(ch, h, m) {
                if cw1 == cw + 1 {
                    lemma_sides_cover(cw1, ch + 1, w, h, m);
                } else {
                    assert(!below_root_ratio(cw, w, m));
                    lemma_sides_cover(cw, ch + 1, w, h, m);
                }
            }
        }
    } else {
        let ch1 = if falls_short(cw, ch, w, h, m) && below_root_ratio(ch, h, m) {
            ch + 1
        } else {
            ch
        };
        if falls_short(cw, ch1, w, h, m) {
            if !below_root_ratio(cw, w, m) && !below_root_ratio(ch1, h, m) {
                lemma_sides_cover(cw, ch1, w, h, m);
            }
            if below_root_ratio(cw, w, m) {
                if ch1 == ch + 1 {
                    lemma_sides_cover(cw + 1, ch1, w, h, m);
                } else {
                    assert(!below_root_ratio(ch, h, m));
                    lemma_sides_cover(cw + 1, ch, w, h, m);
                }
            }
        }
    }
}

/// The number of `cw` by `ch` chunks it takes to cover a `w` by `h` grid.
pub open spec fn chunk_count(w: int, h: int, cw: int, ch: int) -> int {
    ceil_div(w, cw) * ceil_div(h, ch)
}

/// `c = ceil_div(a, b)` for positive `a` and `b` is positive, at most `a`, and `c` by
/// `b` covers `a`, so that `a` is covered by at most `b` pieces of side `c`.
pub proof fn lemma_ceil_div_step(a: int, b: int)
    requires
        1 <= a,
        1 <= b,
    ensures
        1 <= ceil_div(a, b) <= a,
        ceil_div(a, b) * b >= a,
        ceil_div(a, ceil_div(a, b)) <= b,
{
    let c = (a + b - 1) / b;
    assert(1 <= c <= a && c * b >= a) by (nonlinear_arith)
        requires
            1 <= a,
            1 <= b,
            c == (a + b - 1) / b,
    ;
    assert((a + c - 1) / c <= b) by (nonlinear_arith)
        requires
            1 <= c,
            c * b >= a,
            1 <= a,
    ;
}

/// Grows the chunk sides `(cw, ch)` of a `w` by `h` grid until at most `m` chunks cover
/// the grid: while too many are needed, the side with more chunks along it (on a tie the
/// side along the longer grid side, and both sides on a square grid) grows to the least
/// length that needs one chunk fewer along it.
pub open spec fn grow_sides(w: int, h: int, m: int, cw: int, ch: int) -> (int, int)
    decreases ceil_div(w, cw) + ceil_div(h, ch),
{
    if w < 1 || h < 1 || cw < 1 || ch < 1 {
        (cw, ch)
    } else {
        let qw = ceil_div(w, cw);
        let qh = ceil_div(h, ch);
        proof {
            lemma_ceil_div_step(w, cw);
            lemma_ceil_div_step(h, ch);
        }
        if qw * qh <= m || (qw <= 1 && qh <= 1) {
            (cw, ch)
        } else {
            let gw = grows_first(qw, qh, w, h);
            let gh = grows_first(qh, qw, h, w);
            proof {
                if gw {
                    lemma_ceil_div_step(w, qw - 1);
                }
                if gh {
                    lemma_ceil_div_step(h, qh - 1);
                }
            }
            grow_sides(
                w,
                h,
                m,
                if gw {
                    ceil_div(w, qw - 1)
                } else {
                    cw
                },
                if gh {
                    ceil_div(h, qh - 1)
                } else {
                    ch
                },
            )
        }
    }
}

/// Whether the side with `q` chunks along it (of a grid side `a`, the other side having
/// `q2` chunks along a grid side `b`) is one that grows: the side with more chunks, and
/// on a tie the side along the longer grid side, or both sides on a square grid.
pub open spec fn grows_first(q: int, q2: int, a: int, b: int) -> bool {
    q > q2 || (q == q2 && a >= b)
}

/// Grown sides stay within the grid, and at most `m` chunks of them cover it.
proof fn lemma_grow_sides(w: int, h: int, m: int, cw: int, ch: int)
    requires
        1 <= m,
        1 <= cw <= w,
        1 <= ch <= h,
    ensures
        ({
            let (a, b) = grow_sides(w, h, m, cw, ch);
            &&& 1 <= a <= w
            &&& 1 <= b <= h
            &&& chunk_count(w, h, a, b) <= m
        }),
    decreases ceil_div(w, cw) + ceil_div(h, ch),
{
    let qw = ceil_div(w, cw);
    let qh = ceil_div(h, ch);
    lemma_ceil_div_step(w, cw);
    lemma_ceil_div_step(h, ch);
    if qw * qh <= m {
    } else if qw <= 1 && qh <= 1 {
        assert(qw * qh == 1) by (nonlinear_arith)
            requires
                qw == 1,
                qh == 1,
        ;
    } else {
        let gw = grows_first(qw, qh, w, h);
        let gh = grows_first(qh, qw, h, w);
        if gw {
            lemma_ceil_div_step(w, qw - 1);
        }
        if gh {
            lemma_ceil_div_step(h, qh - 1);
        }
        lemma_grow_sides(
            w,
            h,
            m,
            if gw {
                ceil_div(w, qw - 1)
            } else {
                cw
            },
            if gh {
                ceil_div(h, qh - 1)
            } else {
                ch
            },
        );
    }
}

/// Growing the sides of the transposed grid gives the transposed sides.
proof fn lemma_grow_sides_transpose(w: int, h: int, m: int, cw: int, ch: int)
    requires
        1 <= cw <= w,
        1 <= ch <= h,
    ensures
        ({
            let (a, b) = grow_sides(w, h, m, cw, ch);
            grow_sides(h, w, m, ch, cw) == (b, a)
        }),
    decreases ceil_div(w, cw) + ceil_div(h, ch),
{
    let qw = ceil_div(w, cw);
    let qh = ceil_div(h, ch);
    lemma_ceil_div_step(w, cw);
    lemma_ceil_div_step(h, ch);
    assert(qw * qh == qh * qw) by (nonlinear_arith);
    if qw * qh <= m || (qw <= 1 && qh <= 1) {
    } else {
        let gw = grows_first(qw, qh, w, h);
        let gh = grows_first(qh, qw, h, w);
        if gw {
            lemma_ceil_div_step(w, qw - 1);
        }
        if gh {
            lemma_ceil_div_step(h, qh - 1);
        }
        lemma_grow_sides_transpose(
            w,
            h,
            m,
            if gw {
                ceil_div(w, qw - 1)
            } else {
                cw
            },
            if gh {
                ceil_div(h, qh - 1)
            } else {
                ch
            },
        );
    }
}

/// The chunk shape used to split a `w` by `h` grid into at most `m` chunks: the rounded
/// shape, about the average chunk, grown until at most `m` chunks cover the grid.
pub open spec fn chunk_shape(w: int, h: int, m: int) -> Option<Rect> {
    match rounded_chunk_shape(w, h, m) {
        Some(r) => {
            let (a, b) = grow_sides(w, h, m, r.width() as int, r.height() as int);
            Some(Rect::spec_new(a as usize, b as usize))
        },
        None => None,
    }
}

/// `ceil_div(a, b)` computed exactly, for `1 <= b`.
fn ceil_div_exec(a: usize, b: usize) -> (r: u128)
    requires
        1 <= a,
        1 <= b,
    ensures
        r == ceil_div(a as int, b as int),
        1 <= r <= a,
{
    proof {
        lemma_ceil_div_step(a as int, b as int);
    }
    ((a as u128) + (b as u128) - 1) / (b as u128)
}

/// Grows `(cw, ch)` as `grow_sides` does.
fn grow_to_fit(width: usize, height: usize, max: usize, cw: usize, ch: usize) -> (r: (usize, usize))
    requires
        1 <= max,
        1 <= cw <= width,
        1 <= ch <= height,
    ensures
        (r.0 as int, r.1 as int) == grow_sides(width as int, height as int, max as int, cw as int, ch as int),
{
    let ghost w = width as int;
    let ghost h = height as int;
    let ghost m = max as int;
    let mut a = cw;
    let mut b = ch;
    loop
        invariant
            1 <= m,
            1 <= a <= width,
            1 <= b <= height,
            w == width,
            h == height,
            m == max,
            grow_sides(w, h, m, a as int, b as int) == grow_sides(w, h, m, cw as int, ch as int),
        decreases ceil_div(w, a as int) + ceil_div(h, b as int),
    {
        let qw = ceil_div_exec(width, a);
        let qh = ceil_div_exec(height, b);
        proof {
            lemma_wide_product(qw as int, qh as int);
        }
        if qw * qh <= max as u128 || (qw <= 1 && qh <= 1) {
            return (a, b);
        }
        let gw = qw > qh || (qw == qh && width >= height);
        let gh = qh > qw || (qw == qh && height >= width);
        if gw {
            proof {
                lemma_ceil_div_step(w, qw - 1);
            }
            a = ceil_div_exec(width, (qw - 1) as usize) as usize;
        }
        if gh {
            proof {
                lemma_ceil_div_step(h, qh - 1);
            }
            b = ceil_div_exec(height, (qh - 1) as usize) as usize;
        }
    }
}

/// The chunk shape used to split a `width` by `height` grid into at most `max` chunks;
/// `None` when a side or `max` is zero. At most `max` chunks of the shape cover the grid.
/// The shape starts from about the average chunk and grows only while too many chunks
/// are needed, so it is small, though not always of the least area: transposing the grid
/// transposes the chunk, so a square grid always gets a square chunk.
pub fn chunking(width: usize, height: usize, max: usize) -> (r: Option<Rect>)
    ensures
        r == chunk_shape(width as int, height as int, max as int),
        r is Some <==> (width > 0 && height > 0 && max > 0),
        r matches Some(x) ==> {
            &&& 1 <= x.width() <= width
            &&& 1 <= x.height() <= height
            &&& chunk_count(width as int, height as int, x.width() as int, x.height() as int) <= max
        },
{
    proof {
        lemma_chunk_shape(width as int, height as int, max as int);
    }
    match rounded_chunk(width, height, max) {
        None => None,
        Some(base) => {
            proof {
                lemma_rounded_chunk_shape(width as int, height as int, max as int);
            }
            let (a, b) = grow_to_fit(width, height, max, base.get_width(), base.get_height());
            Some(Rect::new(a, b))
        },
    }
}

/// The chunk shape exists exactly when the sides and the chunk count are positive; it
/// then fits in the grid, has positive sides, and at most `m` chunks of it cover the
/// grid, so that it is also at least the average chunk: `width * height * m >= w * h`.
pub proof fn lemma_chunk_shape(w: int, h: int, m: int)
    requires
        0 <= w <= usize::MAX,
        0 <= h <= usize::MAX,
        0 <= m <= usize::MAX,
    ensures
        chunk_shape(w, h, m) is Some <==> (w > 0 && h > 0 && m > 0),
        chunk_shape(w, h, m) matches Some(r) ==> {
            &&& 1 <= r.width() <= w
            &&& 1 <= r.height() <= h
            &&& chunk_count(w, h, r.width() as int, r.height() as int) <= m
            &&& r.width() * r.height() * m >= w * h
        },
{
    lemma_rounded_chunk_shape(w, h, m);
    if let Some(r) = rounded_chunk_shape(w, h, m) {
        lemma_grow_sides(w, h, m, r.width() as int, r.height() as int);
        let (a, b) = grow_sides(w, h, m, r.width() as int, r.height() as int);
        let x = Rect::spec_new(a as usize, b as usize);
        assert(x.width() == a && x.height() == b);
        let qw = ceil_div(w, a);
        let qh = ceil_div(h, b);
        lemma_ceil_div_step(w, a);
        lemma_ceil_div_step(h, b);
        assert(a * b * m >= w * h) by (nonlinear_arith)
            requires
                qw * a >= w,
                qh * b >= h,
                qw * qh <= m,
                1 <= w,
                1 <= h,
                1 <= a,
                1 <= b,
        ;
    }
}

/// `falls_short` does not depend on the order of the sides.
proof fn lemma_falls_short_swap(a: int, b: int, w: int, h: int, m: int)
    ensures
        falls_short(a, b, w, h, m) == falls_short(b, a, h, w, m),
{
    assert(a * b * m == b * a * m && w * h == h * w) by (nonlinear_arith);
}

/// The rounded chunk shape of the transposed grid is the transposed shape.
proof fn lemma_rounded_chunk_transpose(w: int, h: int, m: int)
    requires
        0 <= w <= usize::MAX,
        0 <= h <= usize::MAX,
        0 <= m <= usize::MAX,
    ensures
        rounded_chunk_shape(h, w, m) == (match rounded_chunk_shape(w, h, m) {
            Some(r) => Some(Rect::spec_new(r.height(), r.width())),
            None => None,
        }),
{
    assert(w * h == h * w) by (nonlinear_arith);
    if w == 0 || h == 0 || m == 0 || w * h <= m {
        return;
    }
    let cw = root_ratio_rounded(w, m);
    let ch = root_ratio_rounded(h, m);
    if cw == 0 || ch == 0 {
        return;
    }
    lemma_falls_short_swap(cw, ch, w, h, m);
    lemma_falls_short_swap(cw + 1, ch, w, h, m);
    lemma_falls_short_swap(cw, ch + 1, w, h, m);
    lemma_falls_short_swap(cw + 1, ch + 1, w, h, m);
    if w == h {
        lemma_rounded_facts(w, m);
        lemma_rounds_unique(cw, ch, w, m);
    }
    let (aw, ah) = adjusted_sides(w, h, m, cw, ch);
    assert(adjusted_sides(h, w, m, ch, cw) == (ah, aw));
}

/// Transposing the grid transposes the chunk shape: a `h` by `w` grid gets the chunk of
/// the `w` by `h` grid turned on its side.
pub proof fn lemma_chunk_shape_transpose(w: int, h: int, m: int)
    requires
        0 <= w <= usize::MAX,
        0 <= h <= usize::MAX,
        0 <= m <= usize::MAX,
    ensures
        chunk_shape(h, w, m) == (match chunk_shape(w, h, m) {
            Some(r) => Some(Rect::spec_new(r.height(), r.width())),
            None => None,
        }),
{
    broadcast use Rect::lemma_spec_new;

    lemma_rounded_chunk_transpose(w, h, m);
    lemma_rounded_chunk_shape(w, h, m);
    if let Some(r) = rounded_chunk_shape(w, h, m) {
        lemma_grow_sides_transpose(w, h, m, r.width() as int, r.height() as int);
        lemma_grow_sides(w, h, m, r.width() as int, r.height() as int);
    }
}

/// With its width fixed at one cell over a grid no wider than `sqrt(m)`, growing to fit
/// only ever grows the height: one column of chunks needs `w * qh` chunks, which is over
/// `m` only while the height count exceeds `w`.
proof fn lemma_grow_keeps_thin(w: int, h: int, m: int, ch: int)
    requires
        1 <= w,
        w * w <= m,
        1 <= ch <= h,
    ensures
        grow_sides(w, h, m, 1, ch).0 == 1,
    decreases ceil_div(w, 1) + ceil_div(h, ch),
{
    let qw = ceil_div(w, 1);
    let qh = ceil_div(h, ch);
    lemma_ceil_div_step(w, 1);
    lemma_ceil_div_step(h, ch);
    assert(qw == w) by (nonlinear_arith)
        requires
            qw == (w + 1 - 1) / 1,
    ;
    if qw * qh <= m || (qw <= 1 && qh <= 1) {
    } else {
        if qh <= qw {
            assert(qw * qh <= w * w) by (nonlinear_arith)
                requires
                    qw == w,
                    1 <= qh <= w,
            ;
        }
        assert(!grows_first(qw, qh, w, h));
        lemma_ceil_div_step(h, qh - 1);
        lemma_grow_keeps_thin(w, h, m, ceil_div(h, qh - 1));
    }
}

/// A grid side shorter than half of `sqrt(m)` gets chunks one cell thick along it: the
/// chunk of a `w` by `h` grid with `4 * w * w < m` is one cell wide, and with
/// `4 * h * h < m` it is one cell tall.
pub proof fn lemma_chunk_thin_side(w: int, h: int, m: int)
    requires
        0 <= w <= usize::MAX,
        0 <= h <= usize::MAX,
        0 <= m <= usize::MAX,
    ensures
        4 * w * w < m ==> (chunk_shape(w, h, m) matches Some(r) ==> r.width() == 1),
        4 * h * h < m ==> (chunk_shape(w, h, m) matches Some(r) ==> r.height() == 1),
{
    broadcast use Rect::lemma_spec_new;

    lemma_thin_width(w, h, m);
    lemma_thin_width(h, w, m);
    lemma_chunk_shape_transpose(h, w, m);
}

/// The width part of `lemma_chunk_thin_side`.
proof fn lemma_thin_width(w: int, h: int, m: int)
    requires
        0 <= w <= usize::MAX,
        0 <= h <= usize::MAX,
        0 <= m <= usize::MAX,
    ensures
        4 * w * w < m ==> (chunk_shape(w, h, m) matches Some(r) ==> r.width() == 1),
{
    broadcast use Rect::lemma_spec_new;

    if 4 * w * w < m && w >= 1 && h >= 1 {
        lemma_rounded_chunk_shape(w, h, m);
        assert(w * w <= m) by (nonlinear_arith)
            requires
                4 * w * w < m,
        ;
        if w * h <= m {
            let qw = ceil_div(w, 1);
            let qh = ceil_div(h, 1);
            assert(qw == w && qh == h) by (nonlinear_arith)
                requires
                    qw == (w + 1 - 1) / 1,
                    qh == (h + 1 - 1) / 1,
            ;
        } else {
            assert(rounds_root_ratio(0, w, m)) by {
                assert((2 * 0 + 1) * (2 * 0 + 1) * m == m) by (nonlinear_arith);
            }
            lemma_rounded_is_chosen(0, w, m);
            if root_ratio_rounded(h, m) != 0 {
                lemma_short_side_ceil(w, h, m);
                lemma_grow_keeps_thin(w, h, m, ceil_div(w * h, m));
            }
        }
    }
}

/// Something bounded by a rectangle of cells.
pub trait RectBounded {
    /// The bounding rectangle.
    spec fn bounds(&self) -> Rect;

    fn boundary(&self) -> (r: &Rect)
        ensures
            *r == self.bounds(),
    ;

    /// Whether `pos` is inside the bounding rectangle.
    fn inside(&self, pos: &Position) -> (r: bool)
        ensures
            r == self.bounds().holds(*pos),
    {
        self.boundary().contains_pos(pos)
    }
}

} // verus!
