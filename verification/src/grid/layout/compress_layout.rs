//! A compressed layout: only the cells that hold an item take room, and the map from
//! cells to stored items uses small integer indices.
use vstd::prelude::*;
use core::ops::RangeInclusive;
use vstd::set_lib::{lemma_int_range, lemma_map_size, lemma_subset_equality, set_int_range};
use crate::axis::Offset;
use crate::axis::zone::Rect;
use crate::grid::layout::{AccessError, CreateError};

verus! {

/// Where a cell of a compressed layout stands.
pub enum DataSlot {
    /// The cell is outside the layout, or no room is left for it.
    Invalid,
    /// The cell is empty; its index in the cell map is given.
    Free(Offset, usize),
    /// The cell holds an item; its index in the item store is given.
    Occurred(Offset, usize),
}

impl DataSlot {
    /// The item-store index of an occupied cell.
    pub fn get_data_index(&self) -> (r: Option<usize>)
        ensures
            r == (match *self {
                DataSlot::Occurred(_, d) => Some(d),
                _ => None,
            }),
    {
        match self {
            DataSlot::Occurred(_, data_index) => Some(*data_index),
            _ => None,
        }
    }

    /// The item of an occupied cell in `data_container`, if it has one there.
    pub fn get_data_from<'vec, T>(&self, data_container: &'vec Vec<T>) -> (r: Option<&'vec T>)
        ensures
            r == (match *self {
                DataSlot::Occurred(_, d) => if d < data_container@.len() {
                    Some(&data_container@[d as int])
                } else {
                    None
                },
                _ => None,
            }),
    {
        match self.get_data_index() {
            Some(d) => if d < data_container.len() {
                Some(&data_container[d])
            } else {
                None
            },
            None => None,
        }
    }

    /// The item of an occupied cell in `data_container`, to be changed in place.
    pub fn get_mut_data_from<'vec, T>(&self, data_container: &'vec mut Vec<T>) -> (r: Option<&'vec mut T>)
        ensures
            match *self {
                DataSlot::Occurred(_, d) if d < old(data_container)@.len() => {
                    &&& r is Some
                    &&& *r.unwrap() == old(data_container)@[d as int]
                    &&& final(data_container)@ == old(data_container)@.update(d as int, *final(r.unwrap()))
                },
                _ => r is None && final(data_container)@ == old(data_container)@,
            },
    {
        match self.get_data_index() {
            Some(d) => if d < data_container.len() {
                Some(&mut data_container[d])
            } else {
                None
            },
            None => None,
        }
    }
}

/// An index type with a reserved value, its largest one, marking an unused entry.
pub trait Guarded: Sized {
    spec fn guardian_spec() -> Self;

    fn guardian() -> (r: Self)
        ensures
            r == Self::guardian_spec(),
    ;
}

impl Guarded for u8 {
    open spec fn guardian_spec() -> u8 {
        u8::MAX
    }

    fn guardian() -> (r: u8) {
        u8::MAX
    }
}

impl Guarded for u16 {
    open spec fn guardian_spec() -> u16 {
        u16::MAX
    }

    fn guardian() -> (r: u16) {
        u16::MAX
    }
}

impl Guarded for u32 {
    open spec fn guardian_spec() -> u32 {
        u32::MAX
    }

    fn guardian() -> (r: u32) {
        u32::MAX
    }
}

impl Guarded for u64 {
    open spec fn guardian_spec() -> u64 {
        u64::MAX
    }

    fn guardian() -> (r: u64) {
        u64::MAX
    }
}

impl Guarded for u128 {
    open spec fn guardian_spec() -> u128 {
        u128::MAX
    }

    fn guardian() -> (r: u128) {
        u128::MAX
    }
}

impl Guarded for usize {
    open spec fn guardian_spec() -> usize {
        usize::MAX
    }

    fn guardian() -> (r: usize) {
        usize::MAX
    }
}

impl Guarded for i8 {
    open spec fn guardian_spec() -> i8 {
        i8::MAX
    }

    fn guardian() -> (r: i8) {
        i8::MAX
    }
}

impl Guarded for i16 {
    open spec fn guardian_spec() -> i16 {
        i16::MAX
    }

    fn guardian() -> (r: i16) {
        i16::MAX
    }
}

impl Guarded for i32 {
    open spec fn guardian_spec() -> i32 {
        i32::MAX
    }

    fn guardian() -> (r: i32) {
        i32::MAX
    }
}

impl Guarded for i64 {
    open spec fn guardian_spec() -> i64 {
        i64::MAX
    }

    fn guardian() -> (r: i64) {
        i64::MAX
    }
}

impl Guarded for i128 {
    open spec fn guardian_spec() -> i128 {
        i128::MAX
    }

    fn guardian() -> (r: i128) {
        i128::MAX
    }
}

impl Guarded for isize {
    open spec fn guardian_spec() -> isize {
        isize::MAX
    }

    fn guardian() -> (r: isize) {
        isize::MAX
    }
}

/// A value that may be stored in the narrower type `Target`.
pub trait Compressible<Target>: Sized {
    /// The value that a stored `target` stands for.
    spec fn decompressed(target: Target) -> Self;

    /// Whether `value` can be stored in a `Target`.
    spec fn compressible(value: Self) -> bool;

    fn decompress(target: Target) -> (r: Self)
        ensures
            r == Self::decompressed(target),
    ;

    /// The stored form of this value, or `None` when it does not fit.
    fn compress(self) -> (r: Option<Target>)
        ensures
            (r is Some) == Self::compressible(self),
            r matches Some(t) ==> Self::decompressed(t) == self,
    ;

    fn is_compressible(&self) -> (r: bool)
        ensures
            r == Self::compressible(*self),
    ;
}

/// A compressible type whose compressible values form one range.
pub trait RangeCompressible<Target>: Compressible<Target> {
    /// The least compressible value.
    spec fn range_start() -> Self;

    /// The greatest compressible value.
    spec fn range_end() -> Self;

    /// The range of compressible values, from `range_start` to `range_end`; both of its
    /// ends are compressible.
    fn get_range() -> (r: RangeInclusive<Self>)
        ensures
            r@.start == Self::range_start(),
            r@.end == Self::range_end(),
            Self::compressible(r@.start),
            Self::compressible(r@.end),
            !r@.exhausted,
    ;
}

impl Compressible<u8> for usize {
    open spec fn decompressed(target: u8) -> usize {
        target as usize
    }

    open spec fn compressible(value: usize) -> bool {
        value <= u8::MAX
    }

    fn decompress(target: u8) -> (r: usize) {
        target as usize
    }

    fn compress(self) -> (r: Option<u8>) {
        if <usize as Compressible<u8>>::is_compressible(&self) {
            Some(self as u8)
        } else {
            None
        }
    }

    fn is_compressible(&self) -> (r: bool) {
        *self <= (u8::MAX as usize)
    }
}

impl RangeCompressible<u8> for usize {
    open spec fn range_start() -> usize {
        0
    }

    open spec fn range_end() -> usize {
        u8::MAX as usize
    }

    fn get_range() -> RangeInclusive<usize> {
        RangeInclusive::new(0, u8::MAX as usize)
    }
}

impl Compressible<u16> for usize {
    open spec fn decompressed(target: u16) -> usize {
        target as usize
    }

    open spec fn compressible(value: usize) -> bool {
        value <= u16::MAX
    }

    fn decompress(target: u16) -> (r: usize) {
        target as usize
    }

    fn compress(self) -> (r: Option<u16>) {
        if <usize as Compressible<u16>>::is_compressible(&self) {
            Some(self as u16)
        } else {
            None
        }
    }

    fn is_compressible(&self) -> (r: bool) {
        *self <= (u16::MAX as usize)
    }
}

impl RangeCompressible<u16> for usize {
    open spec fn range_start() -> usize {
        0
    }

    open spec fn range_end() -> usize {
        u16::MAX as usize
    }

    fn get_range() -> RangeInclusive<usize> {
        RangeInclusive::new(0, u16::MAX as usize)
    }
}

impl Compressible<u32> for usize {
    open spec fn decompressed(target: u32) -> usize {
        target as usize
    }

    open spec fn compressible(value: usize) -> bool {
        value <= u32::MAX
    }

    fn decompress(target: u32) -> (r: usize) {
        target as usize
    }

    fn compress(self) -> (r: Option<u32>) {
        if <usize as Compressible<u32>>::is_compressible(&self) {
            Some(self as u32)
        } else {
            None
        }
    }

    fn is_compressible(&self) -> (r: bool) {
        *self <= (u32::MAX as usize)
    }
}

impl RangeCompressible<u32> for usize {
    open spec fn range_start() -> usize {
        0
    }

    open spec fn range_end() -> usize {
        u32::MAX as usize
    }

    fn get_range() -> RangeInclusive<usize> {
        RangeInclusive::new(0, u32::MAX as usize)
    }
}

/// The item-store index that the stored index `i` stands for.
pub open spec fn dec<I>(i: I) -> int
    where
        usize: Compressible<I>,
{
    <usize as Compressible<I>>::decompressed(i) as int
}

/// Whether the index type `I` suits a compressed layout: its compressible indices are
/// all indices up to some bound, and its guardian stands for an index no smaller than
/// any compressible one.
pub open spec fn index_type_lawful<I>() -> bool
    where
        usize: Compressible<I>,
        I: Guarded,
{
    &&& forall|a: usize, b: usize|
        #![trigger <usize as Compressible<I>>::compressible(a), <usize as Compressible<I>>::compressible(b)]
        b <= a && <usize as Compressible<I>>::compressible(a) ==> <usize as Compressible<I>>::compressible(b)
    &&& forall|a: usize|
        #[trigger] <usize as Compressible<I>>::compressible(a) ==> a <= dec(I::guardian_spec())
}

/// The bookkeeping of a compressed layout with `size` cells: the entries `s` of the item
/// store each know the cell-map index of their cell, the cell map `m` gives each occupied
/// cell the store index of its entry, and each empty cell holds the guardian.
pub open spec fn store_consistent<T, I>(s: Seq<(I, T)>, m: Seq<I>, size: int) -> bool
    where
        usize: Compressible<I>,
        I: Guarded,
{
    &&& m.len() == size
    &&& s.len() <= size
    &&& forall|d: int| 0 <= d < s.len() ==> 0 <= #[trigger] dec(s[d].0) < size && dec(m[dec(s[d].0)]) == d
    &&& forall|k: int| 0 <= k < size ==> if dec(#[trigger] m[k]) < s.len() {
        dec(s[dec(m[k])].0) == k
    } else {
        m[k] == I::guardian_spec()
    }
}

/// Whether every entry of the item store names a cell whose offset fits in an `Offset`.
pub open spec fn entries_addressable<T, I>(rect: Rect, s: Seq<(I, T)>) -> bool
    where
        usize: Compressible<I>,
{
    forall|d: int| 0 <= d < s.len() ==> (#[trigger] rect.spec_fold_x_first(dec(s[d].0))) is Some
}

/// The items of a compressed layout over `rect`, by cell offset.
pub open spec fn stored_contents<T, I>(rect: Rect, s: Seq<(I, T)>, m: Seq<I>) -> Map<Offset, T>
    where
        usize: Compressible<I>,
{
    Map::new(
        |o: Offset| rect.holds(o) && dec(m[rect.spec_flatten_x_first(o)]) < s.len(),
        |o: Offset| s[dec(m[rect.spec_flatten_x_first(o)])].1,
    )
}

/// The entries of a consistent, addressable store list the cells of its contents, each
/// once, with their items; so the contents have exactly as many items as the store has
/// entries.
proof fn lemma_store_lists_contents<T, I>(rect: Rect, s: Seq<(I, T)>, m: Seq<I>)
    where
        usize: Compressible<I>,
        I: Guarded,
    requires
        rect.has_usize_area(),
        store_consistent(s, m, rect.area()),
        entries_addressable(rect, s),
    ensures
        stored_contents(rect, s, m).dom().finite(),
        stored_contents(rect, s, m).dom().len() == s.len(),
        forall|d: int| 0 <= d < s.len() ==> {
            let o = #[trigger] rect.spec_fold_x_first(dec(s[d].0)).unwrap();
            &&& stored_contents(rect, s, m).contains_key(o)
            &&& stored_contents(rect, s, m)[o] == s[d].1
        },
        forall|d1: int, d2: int| 0 <= d1 < s.len() && 0 <= d2 < s.len() && d1 != d2
            ==> #[trigger] rect.spec_fold_x_first(dec(s[d1].0)) != #[trigger] rect.spec_fold_x_first(dec(s[d2].0)),
        forall|o: Offset| #[trigger] stored_contents(rect, s, m).contains_key(o) ==> {
            let d = dec(m[rect.spec_flatten_x_first(o)]);
            &&& 0 <= d < s.len()
            &&& rect.spec_fold_x_first(dec(s[d].0)) == Some(o)
        },
{
    let n = s.len() as int;
    let c = stored_contents(rect, s, m);
    let g = |d: int| rect.spec_fold_x_first(dec(s[d].0)).unwrap();
    assert forall|d: int| 0 <= d < n implies ({
        let o = #[trigger] rect.spec_fold_x_first(dec(s[d].0)).unwrap();
        &&& c.contains_key(o)
        &&& c[o] == s[d].1
        &&& rect.spec_flatten_x_first(o) == dec(s[d].0)
    }) by {
        rect.lemma_fold_flatten_x_first(dec(s[d].0));
        assert(dec(m[dec(s[d].0)]) == d);
    }
    assert forall|d: int| 0 <= d < n implies #[trigger] c.contains_key(g(d)) && c[g(d)] == s[d].1 by {
        assert(g(d) == rect.spec_fold_x_first(dec(s[d].0)).unwrap());
    }
    assert forall|d1: int, d2: int| 0 <= d1 < n && 0 <= d2 < n && d1 != d2
        implies #[trigger] rect.spec_fold_x_first(dec(s[d1].0)) != #[trigger] rect.spec_fold_x_first(dec(s[d2].0)) by {
        assert(c.contains_key(g(d1)));
        assert(c.contains_key(g(d2)));
        assert(dec(m[dec(s[d1].0)]) == d1);
        assert(dec(m[dec(s[d2].0)]) == d2);
    }
    assert forall|o: Offset| #[trigger] c.contains_key(o) implies ({
        let d = dec(m[rect.spec_flatten_x_first(o)]);
        &&& 0 <= d < n
        &&& rect.spec_fold_x_first(dec(s[d].0)) == Some(o)
    }) by {
        rect.lemma_flatten_fold_x_first(o);
        let k = rect.spec_flatten_x_first(o);
        assert(dec(s[dec(m[k])].0) == k);
    }
    let a = set_int_range(0, n);
    lemma_int_range(0, n);
    assert(vstd::relations::injective_on(g, a)) by {
        assert forall|d1: int, d2: int| a.contains(d1) && a.contains(d2) && #[trigger] g(d1) == #[trigger] g(d2) implies d1 == d2 by {
            assert(c.contains_key(g(d1)));
            assert(c.contains_key(g(d2)));
            assert(dec(m[dec(s[d1].0)]) == d1);
            assert(dec(m[dec(s[d2].0)]) == d2);
        }
    }
    let b = a.map(g);
    lemma_map_size(a, b, g);
    assert forall|o: Offset| b.contains(o) <==> c.dom().contains(o) by {
        if b.contains(o) {
            let d = choose|d: int| a.contains(d) && o == g(d);
            assert(c.contains_key(g(d)));
        }
        if c.dom().contains(o) {
            rect.lemma_flatten_fold_x_first(o);
            let d = dec(m[rect.spec_flatten_x_first(o)]);
            assert(rect.spec_fold_x_first(dec(s[d].0)) == Some(o));
            assert(a.contains(d));
            assert(g(d) == o);
        }
    }
    assert(b =~= c.dom());
}

/// Counting argument: the store entries name distinct cells, so a full store occupies
/// every cell, and a store one short of full with a known empty cell `k0` occupies every
/// other cell.
proof fn lemma_occupied_cells<T, I>(s: Seq<(I, T)>, m: Seq<I>, size: int, k0: int)
    where
        usize: Compressible<I>,
        I: Guarded,
    requires
        store_consistent(s, m, size),
    ensures
        s.len() == size ==> forall|k: int| 0 <= k < size ==> dec(#[trigger] m[k]) < s.len(),
        (s.len() == size - 1 && 0 <= k0 < size && dec(m[k0]) >= s.len()) ==> forall|k: int|
            0 <= k < size && k != k0 ==> dec(#[trigger] m[k]) < s.len(),
{
    let n = s.len() as int;
    let f = |d: int| dec(s[d].0);
    let a = set_int_range(0, n);
    lemma_int_range(0, n);
    assert(vstd::relations::injective_on(f, a)) by {
        assert forall|d1: int, d2: int| a.contains(d1) && a.contains(d2) && #[trigger] f(d1) == #[trigger] f(d2) implies d1 == d2 by {
            assert(dec(m[dec(s[d1].0)]) == d1);
            assert(dec(m[dec(s[d2].0)]) == d2);
        }
    }
    let b = a.map(f);
    lemma_map_size(a, b, f);
    lemma_int_range(0, size);
    let all = set_int_range(0, size);
    assert(b.subset_of(all)) by {
        assert forall|k: int| b.contains(k) implies all.contains(k) by {
            let d = choose|d: int| a.contains(d) && k == f(d);
            assert(0 <= dec(s[d].0) < size);
        }
    }
    if n == size {
        lemma_subset_equality(b, all);
        assert forall|k: int| 0 <= k < size implies dec(#[trigger] m[k]) < s.len() by {
            assert(all.contains(k));
            assert(b.contains(k));
            let d = choose|d: int| a.contains(d) && k == f(d);
            assert(dec(m[dec(s[d].0)]) == d);
        }
    }
    if n == size - 1 && 0 <= k0 < size && dec(m[k0]) >= n {
        let rest = all.remove(k0);
        assert(b.subset_of(rest)) by {
            assert forall|k: int| b.contains(k) implies rest.contains(k) by {
                let d = choose|d: int| a.contains(d) && k == f(d);
                assert(dec(m[dec(s[d].0)]) == d);
            }
        }
        lemma_subset_equality(b, rest);
        assert forall|k: int| 0 <= k < size && k != k0 implies dec(#[trigger] m[k]) < s.len() by {
            assert(rest.contains(k));
            assert(b.contains(k));
            let d = choose|d: int| a.contains(d) && k == f(d);
            assert(dec(m[dec(s[d].0)]) == d);
        }
    }
}

/// A layout that stores only the items present, with a cell map of small indices of type
/// `I` into the item store.
pub struct CompressLayout<T, I> {
    data_store: Vec<(I, T)>,
    index_map: Vec<I>,
    rect: Rect,
}

impl<T, I> CompressLayout<T, I> {
    /// The rectangle of cells.
    pub closed spec fn shape(&self) -> Rect {
        self.rect
    }

    /// The number of items held.
    pub closed spec fn count(&self) -> nat {
        self.data_store@.len()
    }

    /// Whether every cell holds an item: the store has as many entries as there are cells.
    pub fn is_full(&self) -> (r: bool)
        requires
            self.shape().has_usize_area(),
        ensures
            r == (self.shape().area() <= self.count()),
    {
        self.rect.size() <= self.data_store.len()
    }

    pub fn is_empty(&self) -> (r: bool)
        ensures
            r == (self.count() == 0),
    {
        self.data_store.len() == 0
    }
}

impl<T, I: Guarded + Copy> CompressLayout<T, I> where usize: Compressible<I> {
    /// The layout's invariant.
    pub closed spec fn wf(&self) -> bool {
        let size = self.rect.area();
        &&& self.rect.has_usize_area()
        &&& size >= 1
        &&& forall|v: usize| v < size ==> #[trigger] <usize as Compressible<I>>::compressible(v)
        &&& size - 1 <= dec(I::guardian_spec())
        &&& store_consistent(self.data_store@, self.index_map@, size)
        &&& entries_addressable(self.rect, self.data_store@)
    }

    /// The items held, by cell offset.
    pub closed spec fn contents(&self) -> Map<Offset, T> {
        stored_contents(self.rect, self.data_store@, self.index_map@)
    }

    /// What reading the cell at `o` gives.
    pub open spec fn lookup(&self, o: Offset) -> Result<T, AccessError<Offset>> {
        if !self.shape().holds(o) {
            Err(AccessError::CannotAccess(o))
        } else if self.contents().contains_key(o) {
            Ok(self.contents()[o])
        } else {
            Err(AccessError::NoValue(o))
        }
    }

    /// What writing or removing at `o` answers.
    pub open spec fn replaced(&self, o: Offset) -> Result<Option<T>, AccessError<Offset>> {
        if !self.shape().holds(o) {
            Err(AccessError::CannotAccess(o))
        } else if self.contents().contains_key(o) {
            Ok(Some(self.contents()[o]))
        } else {
            Ok(None)
        }
    }

    /// A layout over `rect` with every cell empty.
    fn new_unchecked(rect: Rect) -> (r: Self)
        requires
            rect.has_usize_area(),
            rect.area() >= 1,
            forall|v: usize| v < rect.area() ==> #[trigger] <usize as Compressible<I>>::compressible(v),
            rect.area() - 1 <= dec(I::guardian_spec()),
        ensures
            r.wf(),
            r.shape() == rect,
            r.count() == 0,
            r.contents() == Map::<Offset, T>::empty(),
    {
        let size = rect.size();
        let mut index_map: Vec<I> = Vec::with_capacity(size);
        let mut i: usize = 0;
        while i < size
            invariant
                i <= size,
                index_map@.len() == i,
                forall|k: int| 0 <= k < i ==> #[trigger] index_map@[k] == I::guardian_spec(),
            decreases size - i,
        {
            index_map.push(I::guardian());
            i = i + 1;
        }
        let r = Self { data_store: Vec::new(), index_map, rect };
        assert(r.contents() =~= Map::<Offset, T>::empty());
        r
    }

    /// An empty layout over `rect`. It is refused with `InvalidSize(0)` when a side is
    /// zero, with `InvalidShape` when the number of cells does not fit in a `usize`, and
    /// with `InvalidSize` of that number when the last cell index cannot be compressed
    /// into an `I`.
    pub fn new(rect: Rect) -> (r: Result<Self, CreateError>)
        requires
            index_type_lawful::<I>(),
        ensures
            r matches Ok(l) ==> l.wf() && l.shape() == rect && l.count() == 0 && l.contents()
                == Map::<Offset, T>::empty(),
            r matches Err(e) ==> e == (if rect.width() == 0 || rect.height() == 0 {
                CreateError::InvalidSize(0)
            } else if !rect.has_usize_area() {
                CreateError::InvalidShape(rect)
            } else {
                CreateError::InvalidSize(rect.area() as usize)
            }),
            r is Ok <==> (rect.width() > 0 && rect.height() > 0 && rect.has_usize_area()
                && <usize as Compressible<I>>::compressible((rect.area() - 1) as usize)),
    {
        let width = rect.get_width();
        let height = rect.get_height();
        if width == 0 || height == 0 {
            return Err(CreateError::InvalidSize(0));
        }
        match width.checked_mul(height) {
            None => Err(CreateError::InvalidShape(rect)),
            Some(size) => {
                proof {
                    assert(width * height >= 1) by (nonlinear_arith)
                        requires
                            width >= 1,
                            height >= 1,
                    ;
                }
                let last = size - 1;
                if <usize as Compressible<I>>::is_compressible(&last) {
                    Ok(Self::new_unchecked(rect))
                } else {
                    Err(CreateError::InvalidSize(size))
                }
            },
        }
    }

    /// Where the cell at `offset` stands.
    fn get_slot(&self, offset: &Offset) -> (r: DataSlot)
        requires
            self.wf(),
        ensures
            match r {
                DataSlot::Invalid => !self.shape().holds(*offset),
                DataSlot::Free(o, k) => {
                    &&& o == *offset
                    &&& self.shape().holds(*offset)
                    &&& k == self.shape().spec_flatten_x_first(*offset)
                    &&& !self.contents().contains_key(*offset)
                    &&& self.count() < self.shape().area()
                },
                DataSlot::Occurred(o, d) => {
                    &&& o == *offset
                    &&& self.shape().holds(*offset)
                    &&& self.contents().contains_key(*offset)
                    &&& d == dec(self.index_map@[self.shape().spec_flatten_x_first(*offset)])
                    &&& d < self.count()
                },
            },
    {
        if self.rect.contains_offset(offset) {
            proof {
                self.rect.lemma_flatten_fold_x_first(*offset);
            }
        }
        let map_index = match self.rect.flatten_x_first(offset) {
            Some(index) => index,
            None => {
                return DataSlot::Invalid;
            },
        };
        let index = <usize as Compressible<I>>::decompress(self.index_map[map_index]);
        if index < self.data_store.len() {
            DataSlot::Occurred(*offset, index)
        } else if !self.is_full() {
            DataSlot::Free(*offset, map_index)
        } else {
            proof {
                lemma_occupied_cells(self.data_store@, self.index_map@, self.rect.area(), 0);
                assert(dec(self.index_map@[map_index as int]) < self.data_store@.len());
            }
            DataSlot::Invalid
        }
    }

    /// The item at `offset`: `CannotAccess` outside the rectangle, `NoValue` for an empty
    /// cell.
    pub fn get(&self, offset: &Offset) -> (r: Result<&T, AccessError<Offset>>)
        requires
            self.wf(),
        ensures
            match r {
                Ok(item) => self.lookup(*offset) == Ok::<T, AccessError<Offset>>(*item),
                Err(e) => self.lookup(*offset) == Err::<T, AccessError<Offset>>(e),
            },
    {
        match self.get_slot(offset) {
            DataSlot::Invalid => Err(AccessError::CannotAccess(*offset)),
            DataSlot::Free(o, _) => Err(AccessError::NoValue(o)),
            DataSlot::Occurred(o, data_index) => {
                if data_index < self.data_store.len() {
                    Ok(&self.data_store[data_index].1)
                } else {
                    Err(AccessError::NoValue(o))
                }
            },
        }
    }

    /// The item at `offset`, to be changed in place.
    pub fn get_mut(&mut self, offset: &Offset) -> (r: Result<&mut T, AccessError<Offset>>)
        requires
            old(self).wf(),
        ensures
            final(self).wf(),
            final(self).shape() == old(self).shape(),
            final(self).count() == old(self).count(),
            match r {
                Ok(item) => {
                    &&& old(self).lookup(*offset) == Ok::<T, AccessError<Offset>>(*item)
                    &&& final(self).contents() == old(self).contents().insert(*offset, *final(item))
                },
                Err(e) => {
                    &&& old(self).lookup(*offset) == Err::<T, AccessError<Offset>>(e)
                    &&& final(self).contents() == old(self).contents()
                },
            },
    {
        match self.get_slot(offset) {
            DataSlot::Invalid => Err(AccessError::CannotAccess(*offset)),
            DataSlot::Free(o, _) => Err(AccessError::NoValue(o)),
            DataSlot::Occurred(o, data_index) => {
                let ghost s = self.data_store@;
                let ghost m = self.index_map@;
                let ghost rect = self.rect;
                proof {
                    assert forall|x: T| #[trigger] stored_contents(rect, s.update(data_index as int, (s[data_index as int].0, x)), m)
                        == stored_contents(rect, s, m).insert(*offset, x) by {
                        lemma_store_write(rect, s, m, *offset, data_index as int, x);
                    }
                    assert(s.update(data_index as int, (s[data_index as int].0, s[data_index as int].1)) =~= s);
                }
                let entry = &mut self.data_store[data_index];
                Ok(&mut entry.1)
            },
        }
    }

    /// Stores `item` at `offset` and answers the item it replaced; a cell outside the
    /// rectangle is refused with `CannotAccess`.
    pub fn set(&mut self, offset: &Offset, item: T) -> (r: Result<Option<T>, AccessError<Offset>>)
        requires
            old(self).wf(),
        ensures
            final(self).wf(),
            final(self).shape() == old(self).shape(),
            r == old(self).replaced(*offset),
            final(self).count() == old(self).count() + (if old(self).replaced(*offset) == Ok::<Option<T>, AccessError<Offset>>(None) {
                1int
            } else {
                0int
            }),
            final(self).contents() == (if old(self).shape().holds(*offset) {
                old(self).contents().insert(*offset, item)
            } else {
                old(self).contents()
            }),
    {
        match self.get_slot(offset) {
            DataSlot::Invalid => Err(AccessError::CannotAccess(*offset)),
            DataSlot::Occurred(_, data_index) => {
                proof {
                    lemma_store_write(self.rect, self.data_store@, self.index_map@, *offset, data_index as int, item);
                }
                let mut stored = item;
                core::mem::swap(&mut self.data_store[data_index].1, &mut stored);
                Ok(Some(stored))
            },
            DataSlot::Free(_, map_index) => {
                proof {
                    self.rect.lemma_flatten_fold_x_first(*offset);
                }
                let data_index = self.data_store.len();
                let compressed_data = <usize as Compressible<I>>::compress(data_index).unwrap();
                let compressed_map = <usize as Compressible<I>>::compress(map_index).unwrap();
                proof {
                    lemma_occupied_cells(self.data_store@, self.index_map@, self.rect.area(), map_index as int);
                    lemma_store_insert(self.rect, self.data_store@, self.index_map@, *offset, compressed_map, compressed_data, item);
                }
                self.data_store.push((compressed_map, item));
                self.index_map.set(map_index, compressed_data);
                Ok(None)
            },
        }
    }

    /// Removes the item at `offset` and answers it; a cell outside the rectangle is
    /// refused with `CannotAccess`.
    pub fn rmv(&mut self, offset: &Offset) -> (r: Result<Option<T>, AccessError<Offset>>)
        requires
            old(self).wf(),
        ensures
            final(self).wf(),
            final(self).shape() == old(self).shape(),
            r == old(self).replaced(*offset),
            final(self).count() == old(self).count() - (if old(self).contents().contains_key(*offset) {
                1int
            } else {
                0int
            }),
            final(self).contents() == old(self).contents().remove(*offset),
    {
        match self.get_slot(offset) {
            DataSlot::Invalid => {
                proof {
                    assert(self.contents().remove(*offset) =~= self.contents());
                }
                Err(AccessError::CannotAccess(*offset))
            },
            DataSlot::Free(..) => {
                proof {
                    assert(self.contents().remove(*offset) =~= self.contents());
                }
                Ok(None)
            },
            DataSlot::Occurred(_, data_index) => {
                let ghost s = self.data_store@;
                let ghost m = self.index_map@;
                let ghost size = self.rect.area();
                proof {
                    assert(0 <= dec(s[data_index as int].0) < size);
                    assert(0 <= dec(s[s.len() - 1].0) < size);
                }
                let (compressed_index, removed_data) = self.data_store.swap_remove(data_index);
                let map_index = <usize as Compressible<I>>::decompress(compressed_index);
                self.index_map.set(map_index, I::guardian());
                if data_index < self.data_store.len() {
                    let moved_map = <usize as Compressible<I>>::decompress(self.data_store[data_index].0);
                    let compressed_data = <usize as Compressible<I>>::compress(data_index).unwrap();
                    self.index_map.set(moved_map, compressed_data);
                    proof {
                        lemma_store_remove(self.rect, s, m, *offset, Some(compressed_data), self.index_map@);
                    }
                } else {
                    proof {
                        lemma_store_remove(self.rect, s, m, *offset, None, self.index_map@);
                    }
                }
                Ok(Some(removed_data))
            },
        }
    }

    /// A consuming walk over the held items with their cell offsets, in store order.
    pub fn into_iter(self) -> (r: IntoIter<T, I>)
        requires
            self.wf(),
        ensures
            r.pending() == self.entries(),
            r.shape() == self.shape(),
    {
        let mut store = self.data_store;
        let ghost all = store@;
        let mut reversed: Vec<(I, T)> = Vec::new();
        while store.len() > 0
            invariant
                store@ == all.subrange(0, store@.len() as int),
                reversed@.len() + store@.len() == all.len(),
                forall|j: int| 0 <= j < reversed@.len() ==> #[trigger] reversed@[j] == all[all.len() - 1 - j],
            decreases store@.len(),
        {
            let e = store.pop().unwrap();
            reversed.push(e);
        }
        IntoIter { remaining: reversed, rect: self.rect }
    }

    /// A full layout has an item in every cell.
    pub proof fn lemma_full_layout_has_every_cell(&self)
        requires
            self.wf(),
            self.count() == self.shape().area(),
        ensures
            forall|o: Offset| #[trigger] self.shape().holds(o) ==> self.contents().contains_key(o),
    {
        lemma_occupied_cells(self.data_store@, self.index_map@, self.rect.area(), 0);
        assert forall|o: Offset| #[trigger] self.shape().holds(o) implies self.contents().contains_key(o) by {
            self.rect.lemma_flatten_fold_x_first(o);
        }
    }

    /// The count of items is the number of cells that hold one, and the store entries
    /// list those cells, each once, with their items. The rectangle of a well-formed
    /// layout has at least one cell and a number of cells that fits in a `usize`.
    pub proof fn lemma_count_matches_contents(&self)
        requires
            self.wf(),
        ensures
            self.shape().has_usize_area(),
            self.shape().area() >= 1,
            self.contents().dom().finite(),
            self.count() == self.contents().dom().len(),
            (self.count() == 0) <==> self.contents() == Map::<Offset, T>::empty(),
            self.entries().len() == self.count(),
            forall|j: int| 0 <= j < self.entries().len() ==> {
                let e = #[trigger] self.entries()[j];
                &&& e.0 is Some
                &&& self.contents().contains_key(e.0.unwrap())
                &&& self.contents()[e.0.unwrap()] == e.1
            },
            forall|i: int, j: int| 0 <= i < self.entries().len() && 0 <= j < self.entries().len() && i != j
                ==> (#[trigger] self.entries()[i]).0 != (#[trigger] self.entries()[j]).0,
            forall|o: Offset| #[trigger] self.contents().contains_key(o) ==> exists|j: int|
                0 <= j < self.entries().len() && (#[trigger] self.entries()[j]).0 == Some(o),
    {
        let s = self.data_store@;
        lemma_store_lists_contents(self.rect, s, self.index_map@);
        if self.count() == 0 {
            assert(self.contents() =~= Map::<Offset, T>::empty());
        }
        let es = self.entries();
        assert forall|j: int| 0 <= j < es.len() implies #[trigger] es[j] == (self.rect.spec_fold_x_first(dec(s[j].0)), s[j].1) by {}
        assert forall|j: int| 0 <= j < es.len() implies ({
            let e = #[trigger] es[j];
            &&& e.0 is Some
            &&& self.contents().contains_key(e.0.unwrap())
            &&& self.contents()[e.0.unwrap()] == e.1
        }) by {
            assert(es[j] == (self.rect.spec_fold_x_first(dec(s[j].0)), s[j].1));
        }
        assert forall|i: int, j: int| 0 <= i < es.len() && 0 <= j < es.len() && i != j
            implies (#[trigger] es[i]).0 != (#[trigger] es[j]).0 by {
            assert(es[i] == (self.rect.spec_fold_x_first(dec(s[i].0)), s[i].1));
            assert(es[j] == (self.rect.spec_fold_x_first(dec(s[j].0)), s[j].1));
        }
        assert forall|o: Offset| #[trigger] self.contents().contains_key(o) implies exists|j: int|
            0 <= j < es.len() && (#[trigger] es[j]).0 == Some(o) by {
            let d = dec(self.index_map@[self.rect.spec_flatten_x_first(o)]);
            assert(es[d] == (self.rect.spec_fold_x_first(dec(s[d].0)), s[d].1));
        }
    }

    /// A layout in which every cell has an offset and holds an item is full: it holds as
    /// many items as there are cells.
    pub proof fn lemma_every_cell_held_is_full(&self)
        requires
            self.wf(),
            forall|k: int| 0 <= k < self.shape().area() ==> (#[trigger] self.shape().spec_fold_x_first(k)) is Some,
            forall|o: Offset| #[trigger] self.shape().holds(o) ==> self.contents().contains_key(o),
        ensures
            self.count() == self.shape().area(),
    {
        self.lemma_count_matches_contents();
        let rect = self.rect;
        let n = rect.area();
        let g = |k: int| rect.spec_fold_x_first(k).unwrap();
        let a = set_int_range(0, n);
        lemma_int_range(0, n);
        assert(vstd::relations::injective_on(g, a)) by {
            assert forall|k1: int, k2: int| a.contains(k1) && a.contains(k2) && #[trigger] g(k1) == #[trigger] g(k2) implies k1 == k2 by {
                assert(rect.spec_fold_x_first(k1) is Some);
                assert(rect.spec_fold_x_first(k2) is Some);
                rect.lemma_fold_flatten_x_first(k1);
                rect.lemma_fold_flatten_x_first(k2);
            }
        }
        let b = a.map(g);
        lemma_map_size(a, b, g);
        assert(b.subset_of(self.contents().dom())) by {
            assert forall|o: Offset| b.contains(o) implies self.contents().dom().contains(o) by {
                let k = choose|k: int| a.contains(k) && o == g(k);
                assert(rect.spec_fold_x_first(k) is Some);
                rect.lemma_fold_flatten_x_first(k);
                assert(rect.holds(o));
            }
        }
        vstd::set_lib::lemma_len_subset(b, self.contents().dom());
    }

    /// In a rectangle whose sides fit in an `isize`, the layout is full exactly when
    /// every cell holds an item.
    pub proof fn lemma_full_iff_every_cell_held(&self)
        requires
            self.wf(),
            self.shape().width() <= isize::MAX,
            self.shape().height() <= isize::MAX,
        ensures
            (self.count() == self.shape().area()) <==> (forall|o: Offset| #[trigger] self.shape().holds(o)
                ==> self.contents().contains_key(o)),
    {
        if self.count() == self.shape().area() {
            self.lemma_full_layout_has_every_cell();
        }
        if forall|o: Offset| #[trigger] self.shape().holds(o) ==> self.contents().contains_key(o) {
            let rect = self.shape();
            assert forall|k: int| 0 <= k < rect.area() implies (#[trigger] rect.spec_fold_x_first(k)) is Some by {
                crate::axis::rect::lemma_index_split(k, rect.width() as int, rect.height() as int);
            }
            self.lemma_every_cell_held_is_full();
        }
    }

    /// The layout holds items only in cells of its rectangle, and holds as many as its
    /// store has entries.
    pub proof fn lemma_contents_within_cells(&self)
        requires
            self.wf(),
        ensures
            forall|o: Offset| #[trigger] self.contents().contains_key(o) ==> self.shape().holds(o),
            self.count() <= self.shape().area(),
    {
    }

    /// Reading a cell after storing an item in it gives that item, and after removing it
    /// gives `NoValue`.
    pub proof fn lemma_read_after_write(before: &Self, after: &Self, o: Offset, item: T)
        requires
            before.shape().holds(o),
            after.shape() == before.shape(),
        ensures
            after.contents() == before.contents().insert(o, item) ==> after.lookup(o) == Ok::<T, AccessError<Offset>>(item),
            after.contents() == before.contents().remove(o) ==> after.lookup(o) == Err::<T, AccessError<Offset>>(AccessError::NoValue(o)),
    {
    }

    /// The store entries as cell offsets with items, in store order.
    pub closed spec fn entries(&self) -> Seq<(Option<Offset>, T)> {
        self.data_store@.map_values(|e: (I, T)| (self.rect.spec_fold_x_first(dec(e.0)), e.1))
    }
}

/// Rewriting the item of an occupied cell changes that cell's item only.
proof fn lemma_store_write<T, I>(rect: Rect, s: Seq<(I, T)>, m: Seq<I>, o: Offset, d: int, x: T)
    where
        usize: Compressible<I>,
        I: Guarded,
    requires
        rect.has_usize_area(),
        store_consistent(s, m, rect.area()),
        rect.holds(o),
        d == dec(m[rect.spec_flatten_x_first(o)]),
        d < s.len(),
    ensures
        store_consistent(s.update(d, (s[d].0, x)), m, rect.area()),
        stored_contents(rect, s.update(d, (s[d].0, x)), m) == stored_contents(rect, s, m).insert(o, x),
{
    let s2 = s.update(d, (s[d].0, x));
    let k0 = rect.spec_flatten_x_first(o);
    rect.lemma_flatten_fold_x_first(o);
    assert forall|j: int| 0 <= j < s.len() implies (#[trigger] s2[j]).0 == s[j].0 by {}
    assert(store_consistent(s2, m, rect.area()));
    assert forall|q: Offset| rect.holds(q) && q != o implies dec(m[rect.spec_flatten_x_first(q)]) != d by {
        rect.lemma_flatten_fold_x_first(q);
        if dec(m[rect.spec_flatten_x_first(q)]) == d {
            assert(dec(s[d].0) == rect.spec_flatten_x_first(q));
            assert(dec(s[d].0) == k0);
        }
    }
    assert(stored_contents(rect, s2, m) =~= stored_contents(rect, s, m).insert(o, x));
}

/// Filling an empty cell `o`: its entry goes to the end of the store, and its map slot
/// gets the entry's index.
proof fn lemma_store_insert<T, I>(rect: Rect, s: Seq<(I, T)>, m: Seq<I>, o: Offset, cm: I, cd: I, x: T)
    where
        usize: Compressible<I>,
        I: Guarded,
    requires
        rect.has_usize_area(),
        store_consistent(s, m, rect.area()),
        rect.area() - 1 <= dec(I::guardian_spec()),
        rect.holds(o),
        dec(m[rect.spec_flatten_x_first(o)]) >= s.len(),
        s.len() < rect.area(),
        s.len() == rect.area() - 1 ==> forall|k: int|
            0 <= k < rect.area() && k != rect.spec_flatten_x_first(o) ==> dec(#[trigger] m[k]) < s.len(),
        dec(cm) == rect.spec_flatten_x_first(o),
        dec(cd) == s.len(),
    ensures
        store_consistent(s.push((cm, x)), m.update(rect.spec_flatten_x_first(o), cd), rect.area()),
        stored_contents(rect, s.push((cm, x)), m.update(rect.spec_flatten_x_first(o), cd))
            == stored_contents(rect, s, m).insert(o, x),
{
    let size = rect.area();
    let n = s.len() as int;
    let k0 = rect.spec_flatten_x_first(o);
    let s2 = s.push((cm, x));
    let m2 = m.update(k0, cd);
    rect.lemma_flatten_fold_x_first(o);
    assert forall|d: int| 0 <= d < s2.len() implies 0 <= #[trigger] dec(s2[d].0) < size && dec(
        m2[dec(s2[d].0)],
    ) == d by {
        if d < n {
            assert(s2[d] == s[d]);
            assert(dec(m[dec(s[d].0)]) == d);
            assert(dec(s[d].0) != k0);
        }
    }
    assert forall|k: int| 0 <= k < size implies if dec(#[trigger] m2[k]) < s2.len() {
        dec(s2[dec(m2[k])].0) == k
    } else {
        m2[k] == I::guardian_spec()
    } by {
        if k != k0 {
            assert(m2[k] == m[k]);
            if dec(m[k]) < n {
                assert(s2[dec(m[k])] == s[dec(m[k])]);
            } else {
                assert(m[k] == I::guardian_spec());
                if n == size - 1 {
                    assert(dec(m[k]) < n);
                }
            }
        }
    }
    assert(store_consistent(s2, m2, size));
    assert forall|q: Offset| rect.holds(q) && q != o implies m2[rect.spec_flatten_x_first(q)] == m[rect.spec_flatten_x_first(q)]
        && (dec(m[rect.spec_flatten_x_first(q)]) < n <==> dec(m[rect.spec_flatten_x_first(q)]) < n + 1) by {
        rect.lemma_flatten_fold_x_first(q);
        let k = rect.spec_flatten_x_first(q);
        if dec(m[k]) == n {
            assert(m[k] == I::guardian_spec());
            if n == size - 1 {
                assert(dec(m[k]) < n);
            }
        }
    }
    assert forall|q: Offset| rect.holds(q) && q != o && dec(m[rect.spec_flatten_x_first(q)]) < n implies
        s2[dec(m[rect.spec_flatten_x_first(q)])] == s[dec(m[rect.spec_flatten_x_first(q)])] by {}
    assert(stored_contents(rect, s2, m2) =~= stored_contents(rect, s, m).insert(o, x));
}

/// Emptying the occupied cell `o` whose entry sits at store index `d`: the last entry
/// moves into place `d`, the cell's map slot gets the guardian, and the moved entry's
/// map slot gets `d` (stored as `c`) when an entry moved.
proof fn lemma_store_remove<T, I>(rect: Rect, s: Seq<(I, T)>, m: Seq<I>, o: Offset, c: Option<I>, m2: Seq<I>)
    where
        usize: Compressible<I>,
        I: Guarded,
    requires
        rect.has_usize_area(),
        store_consistent(s, m, rect.area()),
        rect.area() - 1 <= dec(I::guardian_spec()),
        rect.holds(o),
        dec(m[rect.spec_flatten_x_first(o)]) < s.len(),
        c is Some <==> dec(m[rect.spec_flatten_x_first(o)]) < s.len() - 1,
        c matches Some(ci) ==> dec(ci) == dec(m[rect.spec_flatten_x_first(o)]),
        m2 == (match c {
            Some(ci) => m.update(dec(s[dec(m[rect.spec_flatten_x_first(o)])].0), I::guardian_spec()).update(
                dec(s.last().0),
                ci,
            ),
            None => m.update(dec(s[dec(m[rect.spec_flatten_x_first(o)])].0), I::guardian_spec()),
        }),
    ensures
        store_consistent(s.update(dec(m[rect.spec_flatten_x_first(o)]), s.last()).drop_last(), m2, rect.area()),
        stored_contents(rect, s.update(dec(m[rect.spec_flatten_x_first(o)]), s.last()).drop_last(), m2)
            == stored_contents(rect, s, m).remove(o),
{
    let size = rect.area();
    let n = s.len() as int;
    let k0 = rect.spec_flatten_x_first(o);
    let d = dec(m[k0]);
    let s2 = s.update(d, s.last()).drop_last();
    let k1 = dec(s[n - 1].0);
    rect.lemma_flatten_fold_x_first(o);
    assert(dec(s[d].0) == k0);
    assert(dec(m[k1]) == n - 1);
    assert forall|j: int| 0 <= j < n - 1 implies #[trigger] s2[j] == (if j == d {
        s[n - 1]
    } else {
        s[j]
    }) by {}
    // Entries name their slots.
    assert forall|j: int| 0 <= j < s2.len() implies 0 <= #[trigger] dec(s2[j].0) < size && dec(
        m2[dec(s2[j].0)],
    ) == j by {
        if j == d {
            assert(s2[j] == s[n - 1]);
            assert(k1 != k0);
        } else {
            assert(s2[j] == s[j]);
            let kj = dec(s[j].0);
            assert(dec(m[kj]) == j);
            assert(kj != k0);
            assert(kj != k1);
        }
    }
    // Slots name their entries, or hold the guardian.
    assert forall|k: int| 0 <= k < size implies if dec(#[trigger] m2[k]) < s2.len() {
        dec(s2[dec(m2[k])].0) == k
    } else {
        m2[k] == I::guardian_spec()
    } by {
        if k == k0 {
            assert(k0 != k1 || c is None);
            assert(m2[k] == I::guardian_spec());
        } else if k == k1 && c is Some {
            assert(dec(m2[k]) == d);
            assert(s2[d] == s[n - 1]);
        } else {
            assert(m2[k] == m[k]);
            if dec(m[k]) < n {
                let e = dec(m[k]);
                assert(dec(s[e].0) == k);
                assert(e != d);
                if e == n - 1 {
                    assert(k == k1);
                    assert(c is None);
                    assert(d == n - 1);
                }
                assert(s2[e] == s[e]);
            }
        }
    }
    assert(store_consistent(s2, m2, size));
    assert forall|q: Offset| rect.holds(q) && q != o implies #[trigger] stored_contents(rect, s2, m2).contains_key(q)
        == stored_contents(rect, s, m).contains_key(q) && (stored_contents(rect, s, m).contains_key(q)
        ==> stored_contents(rect, s2, m2)[q] == stored_contents(rect, s, m)[q]) by {
        rect.lemma_flatten_fold_x_first(q);
        let k = rect.spec_flatten_x_first(q);
        assert(k != k0);
        if k == k1 && c is Some {
            assert(dec(m2[k]) == d);
            assert(s2[d] == s[n - 1]);
        } else {
            assert(m2[k] == m[k]);
            if dec(m[k]) < n {
                let e = dec(m[k]);
                assert(dec(s[e].0) == k);
                if e == n - 1 {
                    assert(k == k1);
                }
                assert(e != d);
                assert(s2[e] == s[e]);
            }
        }
    }
    assert(stored_contents(rect, s2, m2) =~= stored_contents(rect, s, m).remove(o));
}

/// The items of a consumed `CompressLayout`, with their cell offsets, in store order.
pub struct IntoIter<T, I> {
    remaining: Vec<(I, T)>,
    rect: Rect,
}

impl<T, I> IntoIter<T, I> {
    /// The rectangle whose cells the items belong to.
    pub closed spec fn shape(&self) -> Rect {
        self.rect
    }
}

impl<T, I> IntoIter<T, I> where usize: Compressible<I> {
    /// The entries not yet produced, in order, each with the offset of its cell (`None`
    /// where the cell's offset does not fit in an `isize`).
    pub closed spec fn pending(&self) -> Seq<(Option<Offset>, T)> {
        Seq::new(
            self.remaining@.len(),
            |j: int|
                {
                    let e = self.remaining@[self.remaining@.len() - 1 - j];
                    (self.rect.spec_fold_x_first(dec(e.0)), e.1)
                },
        )
    }

    /// The next item with its cell offset; `None` once all have been produced, or at an
    /// entry whose offset does not fit in an `isize`.
    pub fn next(&mut self) -> (r: Option<(Offset, T)>)
        requires
            old(self).shape().has_usize_area(),
        ensures
            final(self).shape() == old(self).shape(),
            old(self).pending().len() == 0 ==> r is None && final(self).pending().len() == 0,
            old(self).pending().len() > 0 ==> final(self).pending() == old(self).pending().drop_first() && r
                == (match old(self).pending()[0] {
                (Some(o), item) => Some((o, item)),
                (None, _) => None,
            }),
    {
        let ghost before = self.pending();
        match self.remaining.pop() {
            Some(entry) => {
                let (compressed_index, item) = entry;
                proof {
                    assert(self.pending() =~= before.drop_first());
                }
                match self.rect.fold_x_first(<usize as Compressible<I>>::decompress(compressed_index)) {
                    Some(offset) => Some((offset, item)),
                    None => None,
                }
            },
            None => None,
        }
    }
}

pub proof fn lemma_u8_index_lawful()
    ensures
        index_type_lawful::<u8>(),
{
}

pub proof fn lemma_u16_index_lawful()
    ensures
        index_type_lawful::<u16>(),
{
}

pub proof fn lemma_u32_index_lawful()
    ensures
        index_type_lawful::<u32>(),
{
}

/// A cell index can be stored as a `u8` exactly when it fits in one, every `u8` stands
/// for itself, and the compressible range runs from zero to `u8::MAX`.
pub proof fn lemma_u8_holds_exactly_its_values()
    ensures
        forall|v: usize| #[trigger] <usize as Compressible<u8>>::compressible(v) <==> v <= u8::MAX,
        forall|t: u8| #[trigger] <usize as Compressible<u8>>::decompressed(t) == t as usize,
        <usize as RangeCompressible<u8>>::range_start() == 0,
        <usize as RangeCompressible<u8>>::range_end() == u8::MAX as usize,
{
}

/// A cell index can be stored as a `u16` exactly when it fits in one, every `u16` stands
/// for itself, and the compressible range runs from zero to `u16::MAX`.
pub proof fn lemma_u16_holds_exactly_its_values()
    ensures
        forall|v: usize| #[trigger] <usize as Compressible<u16>>::compressible(v) <==> v <= u16::MAX,
        forall|t: u16| #[trigger] <usize as Compressible<u16>>::decompressed(t) == t as usize,
        <usize as RangeCompressible<u16>>::range_start() == 0,
        <usize as RangeCompressible<u16>>::range_end() == u16::MAX as usize,
{
}

/// A cell index can be stored as a `u32` exactly when it fits in one, every `u32` stands
/// for itself, and the compressible range runs from zero to `u32::MAX`.
pub proof fn lemma_u32_holds_exactly_its_values()
    ensures
        forall|v: usize| #[trigger] <usize as Compressible<u32>>::compressible(v) <==> v <= u32::MAX,
        forall|t: u32| #[trigger] <usize as Compressible<u32>>::decompressed(t) == t as usize,
        <usize as RangeCompressible<u32>>::range_start() == 0,
        <usize as RangeCompressible<u32>>::range_end() == u32::MAX as usize,
{
}

} // verus!
