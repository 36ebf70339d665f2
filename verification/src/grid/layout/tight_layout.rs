//! A dense layout: one slot per cell of a rectangle, in row-major order.
use vstd::prelude::*;
use crate::axis::Position;
use crate::axis::rect::{Rect, RectBounded};
use vstd::std_specs::convert::FromSpecImpl;
use crate::grid::layout::{AccessError, AccessResult, Layout};

verus! {

/// The first `n` slots of `data`, padded with empty slots when `data` is shorter.
pub open spec fn fitted<T>(data: Seq<Option<T>>, n: nat) -> Seq<Option<T>> {
    Seq::new(n, |i: int| if i < data.len() { data[i] } else { None })
}

/// The items held by the row-major `slots` of `rect`, by cell.
pub open spec fn contents_of<T>(rect: Rect, slots: Seq<Option<T>>) -> Map<Position, T> {
    Map::new(
        |p: Position| rect.holds(p) && slots[rect.spec_flatten_x_first(p)] is Some,
        |p: Position| slots[rect.spec_flatten_x_first(p)]->Some_0,
    )
}

/// Writing the slot of `pos` changes the contents at `pos` only.
proof fn lemma_contents_after_write<T>(rect: Rect, slots: Seq<Option<T>>, pos: Position, v: Option<T>)
    requires
        rect.has_usize_area(),
        slots.len() == rect.area(),
        rect.holds(pos),
    ensures
        contents_of(rect, slots.update(rect.spec_flatten_x_first(pos), v)) == (match v {
            Some(x) => contents_of(rect, slots).insert(pos, x),
            None => contents_of(rect, slots).remove(pos),
        }),
{
    let j = rect.spec_flatten_x_first(pos);
    let s2 = slots.update(j, v);
    rect.lemma_flatten_fold_x_first(pos);
    assert forall|q: Position| rect.holds(q) && q != pos implies s2[rect.spec_flatten_x_first(q)]
        == slots[rect.spec_flatten_x_first(q)] by {
        rect.lemma_flatten_fold_x_first(q);
        if rect.spec_flatten_x_first(q) == j {
            lemma_flatten_injective(rect, q, pos);
        }
    }
    match v {
        Some(x) => {
            assert(contents_of(rect, s2) =~= contents_of(rect, slots).insert(pos, x));
        },
        None => {
            assert(contents_of(rect, s2) =~= contents_of(rect, slots).remove(pos));
        },
    }
}

/// The items of `slots` from index `from` on, each with the cell it belongs to in `rect`,
/// in row-major order.
pub open spec fn present_items<T>(rect: Rect, slots: Seq<Option<T>>, from: int) -> Seq<(Position, T)>
    decreases slots.len() - from,
{
    if from < 0 || from >= slots.len() {
        Seq::empty()
    } else {
        let rest = present_items(rect, slots, from + 1);
        match slots[from] {
            Some(v) => seq![(rect.spec_fold_x_first(from), v)] + rest,
            None => rest,
        }
    }
}

/// The items of `slots` from index `from` on are exactly the items of `contents_of` whose
/// cells have row-major index `from` or more, each once and in row-major order.
proof fn lemma_present_items_exact<T>(rect: Rect, slots: Seq<Option<T>>, from: int)
    requires
        rect.has_usize_area(),
        slots.len() == rect.area(),
        0 <= from <= slots.len(),
    ensures
        forall|j: int| 0 <= j < present_items(rect, slots, from).len() ==> {
            let e = #[trigger] present_items(rect, slots, from)[j];
            &&& rect.holds(e.0)
            &&& from <= rect.spec_flatten_x_first(e.0)
            &&& contents_of(rect, slots).contains_key(e.0)
            &&& contents_of(rect, slots)[e.0] == e.1
        },
        forall|i: int, j: int| 0 <= i < j < present_items(rect, slots, from).len()
            ==> rect.spec_flatten_x_first((#[trigger] present_items(rect, slots, from)[i]).0)
            < rect.spec_flatten_x_first((#[trigger] present_items(rect, slots, from)[j]).0),
        forall|p: Position| #[trigger] contents_of(rect, slots).contains_key(p) && from <= rect.spec_flatten_x_first(p)
            ==> exists|j: int| 0 <= j < present_items(rect, slots, from).len() && (#[trigger] present_items(rect, slots, from)[j]).0 == p,
    decreases slots.len() - from,
{
    let items = present_items(rect, slots, from);
    if from == slots.len() {
        assert forall|p: Position| #[trigger] contents_of(rect, slots).contains_key(p) && from <= rect.spec_flatten_x_first(p)
            implies exists|j: int| 0 <= j < items.len() && (#[trigger] items[j]).0 == p by {
            rect.lemma_flatten_fold_x_first(p);
        }
    } else {
        lemma_present_items_exact(rect, slots, from + 1);
        let rest = present_items(rect, slots, from + 1);
        rect.lemma_fold_flatten_x_first(from);
        let q = rect.spec_fold_x_first(from);
        match slots[from] {
            Some(v) => {
                assert(items == seq![(q, v)] + rest);
                assert forall|j: int| 0 <= j < items.len() implies ({
                    let e = #[trigger] items[j];
                    &&& rect.holds(e.0)
                    &&& from <= rect.spec_flatten_x_first(e.0)
                    &&& contents_of(rect, slots).contains_key(e.0)
                    &&& contents_of(rect, slots)[e.0] == e.1
                }) by {
                    if j > 0 {
                        assert(items[j] == rest[j - 1]);
                    }
                }
                assert forall|i: int, j: int| 0 <= i < j < items.len()
                    implies rect.spec_flatten_x_first((#[trigger] items[i]).0) < rect.spec_flatten_x_first((#[trigger] items[j]).0) by {
                    assert(items[j] == rest[j - 1]);
                    if i > 0 {
                        assert(items[i] == rest[i - 1]);
                    }
                }
                assert forall|p: Position| #[trigger] contents_of(rect, slots).contains_key(p) && from <= rect.spec_flatten_x_first(p)
                    implies exists|j: int| 0 <= j < items.len() && (#[trigger] items[j]).0 == p by {
                    rect.lemma_flatten_fold_x_first(p);
                    if rect.spec_flatten_x_first(p) == from {
                        assert(items[0].0 == p);
                    } else {
                        let k = choose|k: int| 0 <= k < rest.len() && (#[trigger] rest[k]).0 == p;
                        assert(items[k + 1] == rest[k]);
                    }
                }
            },
            None => {
                assert(items == rest);
                assert forall|p: Position| #[trigger] contents_of(rect, slots).contains_key(p) && from <= rect.spec_flatten_x_first(p)
                    implies exists|j: int| 0 <= j < items.len() && (#[trigger] items[j]).0 == p by {
                    rect.lemma_flatten_fold_x_first(p);
                    assert(rect.spec_flatten_x_first(p) != from);
                }
            },
        }
    }
}

/// Changing a slot before `from` does not change the items from `from` on.
proof fn lemma_present_items_update<T>(rect: Rect, slots: Seq<Option<T>>, from: int, j: int, x: Option<T>)
    requires
        0 <= j < from,
        j < slots.len(),
    ensures
        present_items(rect, slots.update(j, x), from) == present_items(rect, slots, from),
    decreases slots.len() - from,
{
    if from < slots.len() {
        lemma_present_items_update(rect, slots, from + 1, j, x);
    }
}

/// A grid layout that keeps one slot for every cell of its rectangle.
pub struct TightLayout<T> {
    data: Vec<Option<T>>,
    rect: Rect,
}

impl<T> TightLayout<T> {
    /// The rectangle of cells.
    pub closed spec fn shape(&self) -> Rect {
        self.rect
    }

    /// The slots, one per cell in row-major order.
    pub closed spec fn slots(&self) -> Seq<Option<T>> {
        self.data@
    }

    /// The rectangle's area fits in a `usize` and there is exactly one slot per cell.
    pub open spec fn layout_wf(&self) -> bool {
        &&& self.shape().has_usize_area()
        &&& self.slots().len() == self.shape().area()
    }

    /// The items held, by cell.
    pub open spec fn slot_contents(&self) -> Map<Position, T> {
        contents_of(self.shape(), self.slots())
    }

    /// Builds a layout over `rect` from `data`: slots past the last cell are dropped, and
    /// missing slots are empty.
    pub fn with_rect_and_data(rect: Rect, data: Vec<Option<T>>) -> (r: Self)
        requires
            rect.has_usize_area(),
        ensures
            r.shape() == rect,
            r.slots() == fitted(data@, rect.area() as nat),
            r.layout_wf(),
    {
        let mut data = data;
        let rect_size = rect.size();
        let data_len = data.len();
        if rect_size < data_len {
            data.truncate(rect_size);
        } else if rect_size > data_len {
            let ghost start = data@;
            let mut i: usize = data_len;
            while i < rect_size
                invariant
                    data_len <= i <= rect_size,
                    data@.len() == i,
                    start.len() == data_len,
                    forall|k: int| 0 <= k < data_len ==> data@[k] == start[k],
                    forall|k: int| data_len <= k < i ==> data@[k] is None,
                decreases rect_size - i,
            {
                data.push(None);
                i = i + 1;
            }
        }
        let r = Self { data, rect };
        assert(r.slots() =~= fitted(data@, rect.area() as nat));
        r
    }

    /// Builds a layout over `rect` whose slots, in row-major order, are the values of
    /// successive calls of `src`.
    pub fn with_rect_and_src(rect: Rect, src: impl FnMut() -> Option<T>) -> (r: Self)
        requires
            rect.has_usize_area(),
            call_requires(src, ()),
        ensures
            r.shape() == rect,
            r.layout_wf(),
            forall|i: int| 0 <= i < r.slots().len() ==> call_ensures(src, (), #[trigger] r.slots()[i]),
    {
        let ghost src0 = src;
        let mut src = src;
        let size = rect.size();
        let mut data: Vec<Option<T>> = Vec::with_capacity(size);
        let mut i: usize = 0;
        while i < size
            invariant
                i <= size,
                data@.len() == i,
                src == src0,
                call_requires(src, ()),
                forall|k: int| 0 <= k < i ==> call_ensures(src, (), #[trigger] data@[k]),
            decreases size - i,
        {
            let v = src();
            data.push(v);
            i = i + 1;
        }
        let r = Self::with_rect_and_data(rect, data);
        assert(r.slots() =~= data@);
        r
    }

    /// A `width` by `height` layout whose every cell holds a default item.
    pub fn with_default(width: usize, height: usize) -> (r: Self)
        where
            T: Default,
        requires
            width * height <= usize::MAX,
        ensures
            r.shape() == Rect::spec_new(width, height),
            r.layout_wf(),
            forall|i: int|
                0 <= i < r.slots().len() ==> (#[trigger] r.slots()[i] matches Some(v) && call_ensures(T::default, (), v)),
    {
        let make_default = || -> (r: Option<T>)
            ensures
                r matches Some(v) && call_ensures(T::default, (), v),
            { Some(T::default()) };
        Self::with_rect_and_src(Rect::new(width, height), make_default)
    }

    /// A `width` by `height` layout whose every cell holds a clone of `elem`.
    pub fn with_elem(width: usize, height: usize, elem: T) -> (r: Self)
        where
            T: Clone,
        requires
            width * height <= usize::MAX,
        ensures
            r.shape() == Rect::spec_new(width, height),
            r.layout_wf(),
            forall|i: int|
                0 <= i < r.slots().len() ==> (#[trigger] r.slots()[i] matches Some(v) && cloned(elem, v)),
    {
        let e = &elem;
        let make_clone = || -> (r: Option<T>)
            ensures
                r matches Some(v) && cloned(*e, v),
            { Some(e.clone()) };
        Self::with_rect_and_src(Rect::new(width, height), make_clone)
    }

    /// Fills every cell with the value of `f` at that cell, in row-major order.
    pub fn fill_with(&mut self, f: impl FnMut(Position) -> T)
        requires
            old(self).layout_wf(),
            forall|p: Position| call_requires(f, (p,)),
        ensures
            final(self).layout_wf(),
            final(self).shape() == old(self).shape(),
            forall|i: int|
                0 <= i < final(self).slots().len() ==> (#[trigger] final(self).slots()[i] matches Some(v)
                    && call_ensures(f, (old(self).shape().spec_fold_x_first(i),), v)),
    {
        let ghost f0 = f;
        let mut f = f;
        let n = self.data.len();
        let mut index: usize = 0;
        while index < n
            invariant
                self.layout_wf(),
                self.shape() == old(self).shape(),
                n == self.slots().len(),
                index <= n,
                f == f0,
                forall|p: Position| call_requires(f, (p,)),
                forall|i: int|
                    0 <= i < index ==> (#[trigger] self.slots()[i] matches Some(v) && call_ensures(
                        f,
                        (old(self).shape().spec_fold_x_first(i),),
                        v,
                    )),
            decreases n - index,
        {
            match self.rect.fold_x_first(index) {
                Some(pos) => {
                    let fill_elem = f(pos);
                    self.data.set(index, Some(fill_elem));
                },
                None => {},
            }
            index = index + 1;
        }
    }

    /// Fills every cell with a clone of `elem`.
    pub fn fill(&mut self, elem: T)
        where
            T: Clone,
        requires
            old(self).layout_wf(),
        ensures
            final(self).layout_wf(),
            final(self).shape() == old(self).shape(),
            forall|i: int|
                0 <= i < final(self).slots().len() ==> (#[trigger] final(self).slots()[i] matches Some(v)
                    && cloned(elem, v)),
    {
        let e = &elem;
        let clone_elem = |p: Position| -> (r: T)
            ensures
                cloned(*e, r),
            { e.clone() };
        self.fill_with(clone_elem)
    }

    /// An empty `width` by `height` layout.
    pub fn new(width: usize, height: usize) -> (r: Self)
        requires
            width * height <= usize::MAX,
        ensures
            r.shape() == Rect::spec_new(width, height),
            r.layout_wf(),
            forall|i: int| 0 <= i < r.slots().len() ==> #[trigger] r.slots()[i] is None,
    {
        Self::with_rect(Rect::new(width, height))
    }

    /// An empty layout over `rect`.
    pub fn with_rect(rect: Rect) -> (r: Self)
        requires
            rect.has_usize_area(),
        ensures
            r.shape() == rect,
            r.layout_wf(),
            forall|i: int| 0 <= i < r.slots().len() ==> #[trigger] r.slots()[i] is None,
    {
        let empty = || -> (r: Option<T>)
            ensures
                r is None,
            { None };
        Self::with_rect_and_src(rect, empty)
    }

    pub fn get_rect(&self) -> (r: &Rect)
        ensures
            *r == self.shape(),
    {
        &self.rect
    }

    /// The slot index of `pos`, or `CannotAccess` for a position outside the rectangle.
    fn map_data_index(&self, pos: &Position) -> (r: AccessResult<usize>)
        requires
            self.layout_wf(),
        ensures
            match r {
                Ok(i) => self.shape().holds(*pos) && i == self.shape().spec_flatten_x_first(*pos)
                    && i < self.slots().len(),
                Err(e) => !self.shape().holds(*pos) && e == AccessError::CannotAccess(*pos),
            },
    {
        if self.rect.contains_pos(pos) {
            proof {
                self.rect.lemma_flatten_fold_x_first(*pos);
            }
        }
        match self.rect.flatten_x_first(pos) {
            Some(i) => Ok(i),
            None => Err(AccessError::CannotAccess(*pos)),
        }
    }

    /// A consuming walk over the held items with their cells, in row-major order.
    /// What iterating the layout yields is exactly its items: each pair is a cell with
    /// the item it holds, no cell comes twice (cells come in row-major order), and every
    /// held item comes.
    pub proof fn lemma_iteration_yields_contents(&self)
        requires
            self.layout_wf(),
        ensures
            forall|j: int| 0 <= j < present_items(self.shape(), self.slots(), 0).len() ==> {
                let e = #[trigger] present_items(self.shape(), self.slots(), 0)[j];
                &&& self.slot_contents().contains_key(e.0)
                &&& self.slot_contents()[e.0] == e.1
            },
            forall|i: int, j: int| 0 <= i < j < present_items(self.shape(), self.slots(), 0).len()
                ==> (#[trigger] present_items(self.shape(), self.slots(), 0)[i]).0
                != (#[trigger] present_items(self.shape(), self.slots(), 0)[j]).0,
            forall|p: Position| #[trigger] self.slot_contents().contains_key(p) ==> exists|j: int|
                0 <= j < present_items(self.shape(), self.slots(), 0).len()
                && (#[trigger] present_items(self.shape(), self.slots(), 0)[j]).0 == p,
    {
        let rect = self.shape();
        let slots = self.slots();
        lemma_present_items_exact(rect, slots, 0);
        let items = present_items(rect, slots, 0);
        assert forall|i: int, j: int| 0 <= i < j < items.len() implies (#[trigger] items[i]).0 != (#[trigger] items[j]).0 by {
            assert(rect.spec_flatten_x_first(items[i].0) < rect.spec_flatten_x_first(items[j].0));
        }
        assert forall|p: Position| #[trigger] self.slot_contents().contains_key(p) implies exists|j: int|
            0 <= j < items.len() && (#[trigger] items[j]).0 == p by {
            assert(contents_of(rect, slots).contains_key(p));
            assert(0 <= rect.spec_flatten_x_first(p));
        }
    }

    pub fn into_iter(self) -> (r: IntoIter<T>)
        requires
            self.layout_wf(),
        ensures
            r.pending() == present_items(self.shape(), self.slots(), 0),
    {
        IntoIter { remaining: self.data, index: 0, rect: self.rect }
    }
}

/// Distinct cells of a rectangle have distinct row-major indices.
proof fn lemma_flatten_injective(rect: Rect, p: Position, q: Position)
    requires
        rect.holds(p),
        rect.holds(q),
        rect.spec_flatten_x_first(p) == rect.spec_flatten_x_first(q),
    ensures
        p == q,
{
    rect.lemma_flatten_fold_x_first(p);
    rect.lemma_flatten_fold_x_first(q);
}

impl<T> Layout for TightLayout<T> {
    type Item = T;

    open spec fn wf(&self) -> bool {
        self.layout_wf()
    }

    open spec fn cells(&self) -> Set<Position> {
        Set::new(|p: Position| self.shape().holds(p))
    }

    open spec fn contents(&self) -> Map<Position, T> {
        self.slot_contents()
    }

    proof fn lemma_contents_within_cells(&self) {
    }

    fn get(&self, pos: &Position) -> (r: AccessResult<&T>) {
        let index = match self.map_data_index(pos) {
            Ok(i) => i,
            Err(e) => {
                return Err(e);
            },
        };
        match self.data[index].as_ref() {
            Some(item) => Ok(item),
            None => Err(AccessError::NoValue(*pos)),
        }
    }

    fn get_mut(&mut self, pos: &Position) -> (r: AccessResult<&mut T>)
        ensures
            final(self).shape() == old(self).shape(),
    {
        let index = match self.map_data_index(pos) {
            Ok(i) => i,
            Err(e) => {
                return Err(e);
            },
        };
        let ghost rect = self.rect;
        let ghost slots = self.data@;
        proof {
            assert forall|x: T| #[trigger] contents_of(rect, slots.update(index as int, Some(x)))
                == contents_of(rect, slots).insert(*pos, x) by {
                lemma_contents_after_write(rect, slots, *pos, Some(x));
            }
            assert(slots.update(index as int, slots[index as int]) =~= slots);
        }
        match self.data[index].as_mut() {
            Some(item) => {
                Ok(item)
            },
            None => Err(AccessError::NoValue(*pos)),
        }
    }

    fn set(&mut self, pos: &Position, item: T) -> (r: AccessResult<Option<T>>)
        ensures
            final(self).shape() == old(self).shape(),
    {
        let index = match self.map_data_index(pos) {
            Ok(i) => i,
            Err(e) => {
                return Err(e);
            },
        };
        proof {
            lemma_contents_after_write(self.rect, self.data@, *pos, Some(item));
        }
        let mut slot = Some(item);
        core::mem::swap(&mut self.data[index], &mut slot);
        Ok(slot)
    }

    fn rmv(&mut self, pos: &Position) -> (r: AccessResult<Option<T>>)
        ensures
            final(self).shape() == old(self).shape(),
    {
        let index = match self.map_data_index(pos) {
            Ok(i) => i,
            Err(e) => {
                proof {
                    assert(self.slot_contents().remove(*pos) =~= self.slot_contents());
                }
                return Err(e);
            },
        };
        proof {
            lemma_contents_after_write(self.rect, self.data@, *pos, None);
        }
        let taken = self.data[index].take();
        Ok(taken)
    }
}

impl<T> From<Rect> for TightLayout<T> {
    /// An empty layout over `value`; a rectangle whose number of cells does not fit in a
    /// `usize` gives a layout without cells.
    fn from(value: Rect) -> (r: Self)
        ensures
            r.layout_wf(),
            value.has_usize_area() ==> r.shape() == value,
            !value.has_usize_area() ==> r.shape() == Rect::spec_new(0, 0),
            forall|i: int| 0 <= i < r.slots().len() ==> #[trigger] r.slots()[i] is None,
    {
        match value.checked_size() {
            Some(_) => Self::with_rect(value),
            None => Self::with_rect(Rect::new(0, 0)),
        }
    }
}

impl<T> FromSpecImpl<Rect> for TightLayout<T> {
    /// The slots are not written out as a value, so no value is claimed.
    open spec fn obeys_from_spec() -> bool {
        false
    }

    open spec fn from_spec(v: Rect) -> TightLayout<T> {
        arbitrary()
    }
}

impl<T> RectBounded for TightLayout<T> {
    open spec fn bounds(&self) -> Rect {
        self.shape()
    }

    fn boundary(&self) -> (r: &Rect) {
        &self.rect
    }
}

/// The items of a consumed `TightLayout`, with their cells, in row-major order.
pub struct IntoIter<T> {
    remaining: Vec<Option<T>>,
    index: usize,
    rect: Rect,
}

impl<T> IntoIter<T> {
    #[verifier::type_invariant]
    spec fn inv(self) -> bool {
        &&& self.rect.has_usize_area()
        &&& self.remaining@.len() == self.rect.area()
        &&& self.index <= self.remaining@.len()
    }

    /// The items not yet produced, in order.
    pub closed spec fn pending(&self) -> Seq<(Position, T)> {
        present_items(self.rect, self.remaining@, self.index as int)
    }

    /// The next held item with its cell, or `None` once all have been produced.
    pub fn next(&mut self) -> (r: Option<(Position, T)>)
        ensures
            old(self).pending().len() == 0 ==> r is None && final(self).pending().len() == 0,
            old(self).pending().len() > 0 ==> r == Some(old(self).pending()[0])
                && final(self).pending() == old(self).pending().drop_first(),
    {
        proof {
            use_type_invariant(&*self);
        }
        let n = self.remaining.len();
        while self.index < n
            invariant
                self.rect.has_usize_area(),
                self.remaining@.len() == self.rect.area(),
                n == self.remaining@.len(),
                self.index <= n,
                self.pending() == old(self).pending(),
            decreases n - self.index,
        {
            let i = self.index;
            let ghost before = self.remaining@;
            let taken = self.remaining[i].take();
            self.index = i + 1;
            proof {
                lemma_present_items_update(self.rect, before, i + 1, i as int, None);
            }
            match taken {
                Some(value) => {
                    let pos = self.rect.fold_x_first(i);
                    assert(pos is Some);
                    return Some((pos.unwrap(), value));
                },
                None => {},
            }
        }
        None
    }
}

} // verus!
