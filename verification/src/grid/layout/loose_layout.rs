//! A sparse layout: only the cells that hold an item take room.
use vstd::prelude::*;
use std::collections::HashMap;
use std::collections::hash_map::Entry;
use vstd::std_specs::hash::spec_keys_iter;
use crate::axis::Position;
use crate::axis::rect::{Rect, RectBounded};
use vstd::std_specs::convert::FromSpecImpl;
use crate::grid::layout::{AccessError, AccessResult, Layout};

verus! {

/// Whether `s` holds an entry for `p`.
pub open spec fn has_key<T>(s: Seq<(Position, T)>, p: Position) -> bool {
    exists|i: int| 0 <= i < s.len() && (#[trigger] s[i]).0 == p
}

/// The index of an entry for `p` in `s`.
pub open spec fn key_index<T>(s: Seq<(Position, T)>, p: Position) -> int {
    choose|i: int| 0 <= i < s.len() && (#[trigger] s[i]).0 == p
}

/// No two entries of `s` are for the same cell.
pub open spec fn distinct_keys<T>(s: Seq<(Position, T)>) -> bool {
    forall|i: int, j: int| 0 <= i < s.len() && 0 <= j < s.len() && i != j ==> (#[trigger] s[i]).0 != (#[trigger] s[j]).0
}

/// The items of the entries `s`, by cell.
pub open spec fn entries_map<T>(s: Seq<(Position, T)>) -> Map<Position, T> {
    Map::new(|p: Position| has_key(s, p), |p: Position| s[key_index(s, p)].1)
}

/// With distinct keys, the entry at index `i` is the one found for its cell.
proof fn lemma_key_index<T>(s: Seq<(Position, T)>, i: int)
    requires
        distinct_keys(s),
        0 <= i < s.len(),
    ensures
        has_key(s, s[i].0),
        key_index(s, s[i].0) == i,
        entries_map(s).contains_key(s[i].0),
        entries_map(s)[s[i].0] == s[i].1,
{
    assert(has_key(s, s[i].0));
    let k = key_index(s, s[i].0);
    assert(0 <= k < s.len() && s[k].0 == s[i].0);
}

/// The items of a map from row-major cell indices of `rect`, by cell.
pub open spec fn indexed_contents<T>(rect: Rect, m: Map<usize, T>) -> Map<Position, T> {
    Map::new(
        |p: Position| rect.holds(p) && m.contains_key(rect.spec_flatten_x_first(p) as usize),
        |p: Position| m[rect.spec_flatten_x_first(p) as usize],
    )
}

/// Storing at the index of a cell `p` stores at `p`.
proof fn lemma_indexed_insert<T>(rect: Rect, m: Map<usize, T>, p: Position, v: T)
    requires
        rect.has_usize_area(),
        rect.holds(p),
    ensures
        indexed_contents(rect, m.insert(rect.spec_flatten_x_first(p) as usize, v)) == indexed_contents(rect, m).insert(p, v),
{
    rect.lemma_flatten_fold_x_first(p);
    assert forall|q: Position| rect.holds(q) implies (rect.spec_flatten_x_first(q) as usize
        == rect.spec_flatten_x_first(p) as usize <==> q == p) by {
        rect.lemma_flatten_fold_x_first(q);
    }
    assert(indexed_contents(rect, m.insert(rect.spec_flatten_x_first(p) as usize, v)) =~= indexed_contents(rect, m).insert(p, v));
}

/// Removing the index of a cell `p` removes `p`.
proof fn lemma_indexed_remove<T>(rect: Rect, m: Map<usize, T>, p: Position)
    requires
        rect.has_usize_area(),
        rect.holds(p),
    ensures
        indexed_contents(rect, m.remove(rect.spec_flatten_x_first(p) as usize)) == indexed_contents(rect, m).remove(p),
{
    rect.lemma_flatten_fold_x_first(p);
    assert forall|q: Position| rect.holds(q) implies (rect.spec_flatten_x_first(q) as usize
        == rect.spec_flatten_x_first(p) as usize <==> q == p) by {
        rect.lemma_flatten_fold_x_first(q);
    }
    assert(indexed_contents(rect, m.remove(rect.spec_flatten_x_first(p) as usize)) =~= indexed_contents(rect, m).remove(p));
}

/// The first `n` entries of `keys`, as a set.
pub open spec fn prefix_set(keys: Seq<usize>, n: int) -> Set<usize> {
    Set::new(|x: usize| exists|j: int| 0 <= j < n && keys[j] == x)
}

/// The keys of `m`, each once.
fn map_keys<T>(m: &HashMap<usize, T>) -> (r: Vec<usize>)
    ensures
        r@.to_set() == m@.dom(),
        r@.no_duplicates(),
        r@.len() == m@.dom().len(),
{
    broadcast use vstd::std_specs::hash::group_hash_axioms;

    let ghost all = vstd::std_specs::iter::IteratorSpec::remaining(&spec_keys_iter(m)).unref();
    let mut v: Vec<usize> = Vec::new();
    for k in it: m.keys()
        invariant
            it.seq().unref() == all,
            v@ == all.take(it.index() as int),
    {
        v.push(*k);
        proof {
            assert(all.take(it.index() as int + 1) =~= all.take(it.index() as int).push(*k));
        }
    }
    assert(v@ =~= all);
    v
}

/// A hash map from cells to items is a layout without bounds: every cell can be
/// addressed. Its invariant is that `Position` behaves as a hash-map key should (as its
/// derived `Hash` and `Eq` do), which is what the map's own contracts rest on.
impl<T> Layout for HashMap<Position, T> {
    type Item = T;

    open spec fn wf(&self) -> bool {
        vstd::std_specs::hash::obeys_key_model::<Position>()
    }

    open spec fn cells(&self) -> Set<Position> {
        Set::full()
    }

    open spec fn contents(&self) -> Map<Position, T> {
        self@
    }

    proof fn lemma_contents_within_cells(&self) {
    }

    fn get(&self, pos: &Position) -> (r: AccessResult<&T>) {
        broadcast use vstd::std_specs::hash::group_hash_axioms;

        match HashMap::get(self, pos) {
            Some(item) => Ok(item),
            None => Err(AccessError::NoValue(*pos)),
        }
    }

    fn get_mut(&mut self, pos: &Position) -> (r: AccessResult<&mut T>) {
        broadcast use vstd::std_specs::hash::group_hash_axioms;

        if !self.contains_key(pos) {
            return Err(AccessError::NoValue(*pos));
        }
        match self.entry(*pos) {
            Entry::Occupied(o) => Ok(o.into_mut()),
            Entry::Vacant(_) => {
                assert(false);
                Err(AccessError::NoValue(*pos))
            },
        }
    }

    fn set(&mut self, pos: &Position, item: T) -> (r: AccessResult<Option<T>>) {
        broadcast use vstd::std_specs::hash::group_hash_axioms;

        Ok(self.insert(*pos, item))
    }

    fn rmv(&mut self, pos: &Position) -> (r: AccessResult<Option<T>>) {
        broadcast use vstd::std_specs::hash::group_hash_axioms;

        Ok(self.remove(pos))
    }
}

/// A sparse grid layout over a rectangle: only the cells that hold an item take room,
/// in a hash map keyed by the cells' row-major indices.
pub struct LooseLayout<T> {
    data_map: HashMap<usize, T>,
    rect: Rect,
}

impl<T> LooseLayout<T> {
    /// The rectangle of accessible cells.
    pub closed spec fn shape(&self) -> Rect {
        self.rect
    }

    /// The items held, by row-major cell index.
    pub closed spec fn indexed(&self) -> Map<usize, T> {
        self.data_map@
    }

    /// The number of cells fits in a `usize`, and items are held only at indices of cells.
    pub open spec fn layout_wf(&self) -> bool {
        &&& self.shape().has_usize_area()
        &&& forall|k: usize| #[trigger] self.indexed().contains_key(k) ==> k < self.shape().area()
    }

    /// An empty `width` by `height` layout.
    pub fn new(width: usize, height: usize) -> (r: Self)
        requires
            width * height <= usize::MAX,
        ensures
            r.shape() == Rect::spec_new(width, height),
            r.layout_wf(),
            r.indexed() == Map::<usize, T>::empty(),
    {
        Self::with_rect(Rect::new(width, height))
    }

    /// An empty layout over `rect`.
    pub fn with_rect(rect: Rect) -> (r: Self)
        requires
            rect.has_usize_area(),
        ensures
            r.shape() == rect,
            r.layout_wf(),
            r.indexed() == Map::<usize, T>::empty(),
    {
        let half = rect.size() / 2;
        let capacity = if half >= 10 {
            half
        } else {
            10
        };
        Self { data_map: HashMap::with_capacity(capacity), rect }
    }

    /// Empties the layout into a list of its items with their cells, each cell once.
    fn drain_entries(self) -> (r: Vec<(Position, T)>)
        requires
            self.layout_wf(),
        ensures
            distinct_keys(r@),
            entries_map(r@) == indexed_contents(self.shape(), self.indexed()),
            forall|i: int| 0 <= i < r@.len() ==> self.shape().holds((#[trigger] r@[i]).0),
    {
        broadcast use vstd::std_specs::hash::group_hash_axioms;

        let rect = self.rect;
        let ghost orig = self.data_map@;
        assert forall|k: usize| #[trigger] orig.contains_key(k) implies k < rect.area() by {
            assert(self.indexed().contains_key(k));
        }
        let mut map = self.data_map;
        let keys = map_keys(&map);
        let mut out: Vec<(Position, T)> = Vec::new();
        let mut i: usize = 0;
        proof {
            assert(orig.restrict(prefix_set(keys@, 0)) =~= Map::<usize, T>::empty());
            assert(indexed_contents(rect, Map::<usize, T>::empty()) =~= Map::<Position, T>::empty());
            assert(entries_map(out@) =~= Map::<Position, T>::empty());
            assert(orig.remove_keys(prefix_set(keys@, 0)) =~= orig);
        }
        while i < keys.len()
            invariant
                rect.has_usize_area(),
                forall|k: usize| #[trigger] orig.contains_key(k) ==> k < rect.area(),
                keys@.to_set() == orig.dom(),
                keys@.no_duplicates(),
                i <= keys@.len(),
                map@ == orig.remove_keys(prefix_set(keys@, i as int)),
                distinct_keys(out@),
                entries_map(out@) == indexed_contents(rect, orig.restrict(prefix_set(keys@, i as int))),
                forall|j: int| 0 <= j < out@.len() ==> rect.holds((#[trigger] out@[j]).0),
            decreases keys@.len() - i,
        {
            let k = keys[i];
            let ghost done = prefix_set(keys@, i as int);
            proof {
                assert(keys@.contains(k));
                assert(keys@.to_set().contains(k));
                assert(!done.contains(k)) by {
                    if done.contains(k) {
                        let j = choose|j: int| 0 <= j < i && keys@[j] == k;
                        assert(keys@[j] == keys@[i as int]);
                    }
                }
                assert(prefix_set(keys@, i + 1) =~= done.insert(k)) by {
                    assert forall|x: usize| prefix_set(keys@, i + 1).contains(x) implies done.insert(k).contains(x) by {
                        let j = choose|j: int| 0 <= j < i + 1 && keys@[j] == x;
                        if j < i {
                            assert(done.contains(x));
                        }
                    }
                    assert forall|x: usize| done.insert(k).contains(x) implies prefix_set(keys@, i + 1).contains(x) by {
                        if x == k {
                            assert(keys@[i as int] == x);
                        } else {
                            let j = choose|j: int| 0 <= j < i && keys@[j] == x;
                            assert(0 <= j < i + 1 && keys@[j] == x);
                        }
                    }
                }
            }
            let v = map.remove(&k).unwrap();
            let pos = rect.fold_x_first(k).unwrap();
            proof {
                rect.lemma_fold_flatten_x_first(k as int);
                lemma_indexed_insert(rect, orig.restrict(done), pos, v);
                assert(orig.restrict(done.insert(k)) =~= orig.restrict(done).insert(k, v));
                assert(!has_key(out@, pos)) by {
                    assert(!indexed_contents(rect, orig.restrict(done)).contains_key(pos));
                }
                lemma_entries_push(out@, pos, v);
                assert(orig.remove_keys(done.insert(k)) =~= orig.remove_keys(done).remove(k));
            }
            out.push((pos, v));
            i = i + 1;
        }
        proof {
            assert(prefix_set(keys@, keys@.len() as int) =~= orig.dom()) by {
                assert forall|x: usize| prefix_set(keys@, keys@.len() as int).contains(x) implies orig.dom().contains(x) by {
                    let j = choose|j: int| 0 <= j < keys@.len() && keys@[j] == x;
                    assert(keys@.contains(x));
                    assert(keys@.to_set().contains(x));
                }
                assert forall|x: usize| orig.dom().contains(x) implies prefix_set(keys@, keys@.len() as int).contains(x) by {
                    assert(keys@.to_set().contains(x));
                    assert(keys@.contains(x));
                    let j = choose|j: int| 0 <= j < keys@.len() && keys@[j] == x;
                }
            }
            assert(orig.restrict(orig.dom()) =~= orig);
        }
        out
    }

    /// The items as a hash map from cell to item, dropping the bounds. The map holds
    /// exactly the layout's items wherever `Position`'s hashing and equality behave as a
    /// key should (as derived ones do).
    pub fn unbound(self) -> (r: HashMap<Position, T>)
        requires
            self.layout_wf(),
        ensures
            vstd::std_specs::hash::obeys_key_model::<Position>() ==> r@ == indexed_contents(self.shape(), self.indexed()),
            self.indexed() == Map::<usize, T>::empty() ==> r@ == Map::<Position, T>::empty(),
    {
        broadcast use vstd::std_specs::hash::group_hash_axioms;

        let ghost was_empty = self.indexed() == Map::<usize, T>::empty();
        let ghost rect = self.shape();
        let drained = self.drain_entries();
        let ghost all = drained@;
        proof {
            if was_empty && all.len() > 0 {
                assert(indexed_contents(rect, Map::<usize, T>::empty()) =~= Map::<Position, T>::empty());
                assert(has_key(all, all[0].0));
                assert(entries_map(all).contains_key(all[0].0));
            }
        }
        let mut entries = drained;
        let mut map: HashMap<Position, T> = HashMap::new();
        while entries.len() > 0
            invariant
                was_empty ==> all.len() == 0,
                all.len() == 0 ==> map@ == Map::<Position, T>::empty(),
                distinct_keys(all),
                entries@.len() <= all.len(),
                entries@ == all.subrange(0, entries@.len() as int),
                vstd::std_specs::hash::obeys_key_model::<Position>() ==> map@ == entries_map(
                    all.subrange(entries@.len() as int, all.len() as int),
                ),
            decreases entries@.len(),
        {
            let ghost n = entries@.len() as int;
            let (pos, item) = entries.pop().unwrap();
            proof {
                let tail = all.subrange(n - 1, all.len() as int);
                let rest = all.subrange(n, all.len() as int);
                assert(tail[0] == all[n - 1]);
                assert forall|p: Position| #[trigger] has_key(tail, p) == (p == pos || has_key(rest, p)) by {
                    if has_key(rest, p) {
                        let k = key_index(rest, p);
                        assert(tail[k + 1] == rest[k]);
                    }
                    if has_key(tail, p) && p != pos {
                        let k = key_index(tail, p);
                        assert(k != 0);
                        assert(rest[k - 1] == tail[k]);
                    }
                }
                assert forall|i: int| 0 <= i < tail.len() implies #[trigger] entries_map(tail)[tail[i].0] == tail[i].1 by {
                    assert(distinct_keys(tail));
                    lemma_key_index(tail, i);
                }
                assert forall|i: int| 0 <= i < rest.len() implies #[trigger] entries_map(rest)[rest[i].0] == rest[i].1 by {
                    assert(distinct_keys(rest));
                    lemma_key_index(rest, i);
                }
                if vstd::std_specs::hash::obeys_key_model::<Position>() {
                    assert forall|p: Position| has_key(rest, p) implies entries_map(tail)[p] == entries_map(rest)[p] by {
                        let k = key_index(rest, p);
                        assert(tail[k + 1] == rest[k]);
                    }
                    assert(entries_map(tail) =~= entries_map(rest).insert(pos, item));
                }
            }
            map.insert(pos, item);
        }
        proof {
            assert(all.subrange(0, all.len() as int) =~= all);
        }
        map
    }

    /// `Ok` when `pos` lies inside the rectangle, `CannotAccess` otherwise.
    fn contains_check(&self, pos: &Position) -> (r: AccessResult<()>)
        ensures
            r == (if self.shape().holds(*pos) {
                Ok::<(), AccessError>(())
            } else {
                Err::<(), AccessError>(AccessError::CannotAccess(*pos))
            }),
    {
        if self.rect.contains_pos(pos) {
            Ok(())
        } else {
            Err(AccessError::CannotAccess(*pos))
        }
    }

    /// The row-major index of `pos`, or `CannotAccess` when it is outside the rectangle.
    fn index_of(&self, pos: &Position) -> (r: AccessResult<usize>)
        requires
            self.layout_wf(),
        ensures
            match r {
                Ok(k) => self.shape().holds(*pos) && k == self.shape().spec_flatten_x_first(*pos),
                Err(e) => !self.shape().holds(*pos) && e == AccessError::CannotAccess(*pos),
            },
    {
        match self.contains_check(pos) {
            Ok(_) => {},
            Err(e) => {
                return Err(e);
            },
        }
        proof {
            self.rect.lemma_flatten_fold_x_first(*pos);
        }
        Ok(self.rect.flatten_x_first(pos).unwrap())
    }

    /// A consuming walk over the held items with their cells.
    pub fn into_iter(self) -> (r: IntoIter<T>)
        requires
            self.layout_wf(),
        ensures
            distinct_keys(r.pending()),
            entries_map(r.pending()) == indexed_contents(self.shape(), self.indexed()),
    {
        IntoIter { remaining: self.drain_entries() }
    }
}

impl<T> Layout for LooseLayout<T> {
    type Item = T;

    open spec fn wf(&self) -> bool {
        self.layout_wf()
    }

    open spec fn cells(&self) -> Set<Position> {
        Set::new(|p: Position| self.shape().holds(p))
    }

    open spec fn contents(&self) -> Map<Position, T> {
        indexed_contents(self.shape(), self.indexed())
    }

    proof fn lemma_contents_within_cells(&self) {
    }

    fn get(&self, pos: &Position) -> (r: AccessResult<&T>) {
        broadcast use vstd::std_specs::hash::group_hash_axioms;

        let k = match self.index_of(pos) {
            Ok(k) => k,
            Err(e) => {
                return Err(e);
            },
        };
        match self.data_map.get(&k) {
            Some(item) => Ok(item),
            None => Err(AccessError::NoValue(*pos)),
        }
    }

    fn get_mut(&mut self, pos: &Position) -> (r: AccessResult<&mut T>)
        ensures
            final(self).shape() == old(self).shape(),
    {
        broadcast use vstd::std_specs::hash::group_hash_axioms;

        let k = match self.index_of(pos) {
            Ok(k) => k,
            Err(e) => {
                return Err(e);
            },
        };
        if !self.data_map.contains_key(&k) {
            return Err(AccessError::NoValue(*pos));
        }
        let ghost rect = self.rect;
        let ghost before = self.data_map@;
        proof {
            assert forall|x: T| #[trigger] indexed_contents(rect, before.insert(k, x))
                == indexed_contents(rect, before).insert(*pos, x) by {
                lemma_indexed_insert(rect, before, *pos, x);
            }
        }
        match self.data_map.entry(k) {
            Entry::Occupied(o) => Ok(o.into_mut()),
            Entry::Vacant(_) => {
                assert(false);
                Err(AccessError::NoValue(*pos))
            },
        }
    }

    fn set(&mut self, pos: &Position, item: T) -> (r: AccessResult<Option<T>>)
        ensures
            final(self).shape() == old(self).shape(),
    {
        broadcast use vstd::std_specs::hash::group_hash_axioms;

        let k = match self.index_of(pos) {
            Ok(k) => k,
            Err(e) => {
                return Err(e);
            },
        };
        proof {
            self.rect.lemma_flatten_fold_x_first(*pos);
            lemma_indexed_insert(self.rect, self.data_map@, *pos, item);
        }
        Ok(self.data_map.insert(k, item))
    }

    fn rmv(&mut self, pos: &Position) -> (r: AccessResult<Option<T>>)
        ensures
            final(self).shape() == old(self).shape(),
    {
        broadcast use vstd::std_specs::hash::group_hash_axioms;

        let k = match self.index_of(pos) {
            Ok(k) => k,
            Err(e) => {
                proof {
                    assert(indexed_contents(self.rect, self.data_map@).remove(*pos) =~= indexed_contents(self.rect, self.data_map@));
                }
                return Err(e);
            },
        };
        proof {
            lemma_indexed_remove(self.rect, self.data_map@, *pos);
        }
        Ok(self.data_map.remove(&k))
    }
}

/// Appending an entry for a new cell adds that cell's item.
proof fn lemma_entries_push<T>(s: Seq<(Position, T)>, p: Position, x: T)
    requires
        distinct_keys(s),
        !has_key(s, p),
    ensures
        distinct_keys(s.push((p, x))),
        entries_map(s.push((p, x))) == entries_map(s).insert(p, x),
{
    let s2 = s.push((p, x));
    assert forall|i: int, j: int|
        0 <= i < s2.len() && 0 <= j < s2.len() && i != j implies (#[trigger] s2[i]).0 != (#[trigger] s2[j]).0 by {
        if i < s.len() && j < s.len() {
        } else if i == s.len() {
            assert(s2[j] == s[j]);
        } else {
            assert(s2[i] == s[i]);
        }
    }
    assert forall|q: Position| #[trigger] has_key(s2, q) == (q == p || has_key(s, q)) by {
        if has_key(s, q) {
            let k = key_index(s, q);
            assert(s2[k] == s[k]);
        }
        if q == p {
            assert(s2[s.len() as int].0 == p);
        }
        if has_key(s2, q) && q != p {
            let k = key_index(s2, q);
            assert(s[k] == s2[k]);
        }
    }
    assert forall|q: Position| has_key(s2, q) implies entries_map(s2)[q] == (if q == p {
        x
    } else {
        entries_map(s)[q]
    }) by {
        let k = key_index(s2, q);
        lemma_key_index(s2, k);
        if q != p {
            assert(s2[k] == s[k]);
            lemma_key_index(s, k);
        }
    }
    assert(entries_map(s2) =~= entries_map(s).insert(p, x));
}

impl<T> From<Rect> for LooseLayout<T> {
    /// An empty layout over `value`; a rectangle whose number of cells does not fit in a
    /// `usize` gives a layout without cells.
    fn from(value: Rect) -> (r: Self)
        ensures
            r.layout_wf(),
            value.has_usize_area() ==> r.shape() == value,
            !value.has_usize_area() ==> r.shape() == Rect::spec_new(0, 0),
            r.indexed() == Map::<usize, T>::empty(),
    {
        match value.checked_size() {
            Some(_) => Self::with_rect(value),
            None => Self::with_rect(Rect::new(0, 0)),
        }
    }
}

impl<T> FromSpecImpl<Rect> for LooseLayout<T> {
    /// The entries are not written out as a value, so no value is claimed.
    open spec fn obeys_from_spec() -> bool {
        false
    }

    open spec fn from_spec(v: Rect) -> LooseLayout<T> {
        arbitrary()
    }
}

impl<T> RectBounded for LooseLayout<T> {
    open spec fn bounds(&self) -> Rect {
        self.shape()
    }

    fn boundary(&self) -> (r: &Rect) {
        &self.rect
    }
}

/// The items of a consumed `LooseLayout`, with their cells.
pub struct IntoIter<T> {
    remaining: Vec<(Position, T)>,
}

impl<T> IntoIter<T> {
    /// The entries not yet produced; they are produced from the last one backwards.
    pub closed spec fn pending(&self) -> Seq<(Position, T)> {
        self.remaining@
    }

    /// The next item with its cell, or `None` once all have been produced.
    pub fn next(&mut self) -> (r: Option<(Position, T)>)
        ensures
            old(self).pending().len() == 0 ==> r is None && final(self).pending().len() == 0,
            old(self).pending().len() > 0 ==> r == Some(old(self).pending().last())
                && final(self).pending() == old(self).pending().drop_last(),
    {
        self.remaining.pop()
    }
}

} // verus!
