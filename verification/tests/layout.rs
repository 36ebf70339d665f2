use grid_layout::grid::layout::compress_layout::{CompressLayout, Compressible, DataSlot, Guarded, RangeCompressible};
use grid_layout::grid::layout::CreateError;
use grid_layout::axis::zone::Rect as ZoneRect;
use grid_layout::{AccessError, Grid, Layout, LooseLayout, Offset, Position, Rect, RectBounded, RectWalker, TightLayout, Walker};

#[test]
fn tight_layout_reads_and_writes() {
    let mut t: TightLayout<i32> = TightLayout::new(3, 2);
    let p = Position::new(2, 1);
    assert!(matches!(t.get(&p), Err(AccessError::NoValue(q)) if q == p));
    assert!(matches!(t.get(&Position::new(3, 0)), Err(AccessError::CannotAccess(_))));
    assert_eq!(t.set(&p, 5).unwrap(), None);
    assert_eq!(*t.get(&p).unwrap(), 5);
    assert!(t.has(&p));
    assert_eq!(t.set(&p, 6).unwrap(), Some(5));
    *t.get_mut(&p).unwrap() += 1;
    assert_eq!(*t.get(&p).unwrap(), 7);
    assert_eq!(t.rmv(&p).unwrap(), Some(7));
    assert!(!t.has(&p));
    assert_eq!(t.rmv(&p).unwrap(), None);
    assert!(matches!(t.set(&Position::new(0, 2), 1), Err(AccessError::CannotAccess(_))));
    assert_eq!(*t.get_rect(), Rect::new(3, 2));
}

#[test]
fn tight_layout_constructors() {
    let d: TightLayout<u8> = TightLayout::with_default(2, 2);
    assert_eq!(*d.get(&Position::new(1, 1)).unwrap(), 0);
    let e = TightLayout::with_elem(2, 2, 'x');
    assert_eq!(*e.get(&Position::new(0, 1)).unwrap(), 'x');
    let data = TightLayout::with_rect_and_data(Rect::new(2, 2), vec![Some(1), None, Some(3), Some(4), Some(5)]);
    assert_eq!(*data.get(&Position::new(0, 0)).unwrap(), 1);
    assert!(!data.has(&Position::new(1, 0)));
    assert_eq!(*data.get(&Position::new(1, 1)).unwrap(), 4);
    let short = TightLayout::with_rect_and_data(Rect::new(2, 2), vec![Some(1)]);
    assert!(!short.has(&Position::new(1, 1)));
    let mut n = 0;
    let src = TightLayout::with_rect_and_src(Rect::new(2, 2), || {
        n += 1;
        Some(n)
    });
    assert_eq!(*src.get(&Position::new(1, 1)).unwrap(), 4);
    let from: TightLayout<u8> = TightLayout::from(Rect::new(2, 3));
    assert_eq!(*from.boundary(), Rect::new(2, 3));
}

#[test]
fn tight_layout_fill() {
    let mut t: TightLayout<usize> = TightLayout::with_rect(Rect::new(3, 2));
    t.fill_with(|p| p.pos_x() * 10 + p.pos_y());
    assert_eq!(*t.get(&Position::new(2, 1)).unwrap(), 21);
    t.fill(9);
    assert_eq!(*t.get(&Position::new(0, 1)).unwrap(), 9);
}

#[test]
fn tight_layout_into_iter() {
    let mut t: TightLayout<u8> = TightLayout::new(2, 2);
    t.set(&Position::new(1, 0), 10).unwrap();
    t.set(&Position::new(0, 1), 20).unwrap();
    let mut it = t.into_iter();
    assert_eq!(it.next(), Some((Position::new(1, 0), 10)));
    assert_eq!(it.next(), Some((Position::new(0, 1), 20)));
    assert_eq!(it.next(), None);
}

#[test]
fn loose_layout_reads_and_writes() {
    let mut l: LooseLayout<&str> = LooseLayout::new(4, 4);
    let p = Position::new(3, 3);
    assert!(matches!(l.get(&p), Err(AccessError::NoValue(_))));
    assert!(matches!(l.get(&Position::new(4, 0)), Err(AccessError::CannotAccess(_))));
    assert_eq!(l.set(&p, "a").unwrap(), None);
    assert_eq!(l.set(&Position::new(0, 0), "b").unwrap(), None);
    assert_eq!(l.set(&p, "c").unwrap(), Some("a"));
    assert_eq!(*l.get(&p).unwrap(), "c");
    *l.get_mut(&p).unwrap() = "d";
    assert_eq!(*l.get(&p).unwrap(), "d");
    assert!(l.has(&p));
    assert_eq!(l.rmv(&p).unwrap(), Some("d"));
    assert!(!l.has(&p));
    assert_eq!(*l.get(&Position::new(0, 0)).unwrap(), "b");
    assert!(matches!(l.rmv(&Position::new(9, 9)), Err(AccessError::CannotAccess(_))));
    let map = l.unbound();
    assert_eq!(map.len(), 1);
    assert_eq!(map.get(&Position::new(0, 0)), Some(&"b"));
}

#[test]
fn loose_layout_into_iter_and_from() {
    let mut l: LooseLayout<u8> = LooseLayout::with_rect(Rect::new(2, 2));
    l.set(&Position::new(1, 1), 1).unwrap();
    l.set(&Position::new(0, 1), 2).unwrap();
    let mut items = Vec::new();
    let mut it = l.into_iter();
    while let Some(e) = it.next() {
        items.push(e);
    }
    items.sort_by_key(|(p, _)| (p.pos_x(), p.pos_y()));
    assert_eq!(items, vec![(Position::new(0, 1), 2), (Position::new(1, 1), 1)]);
    let f: LooseLayout<u8> = LooseLayout::from(Rect::new(3, 3));
    assert_eq!(*f.boundary(), Rect::new(3, 3));
}

#[test]
fn compress_layout_reads_and_writes() {
    let mut c: CompressLayout<char, u8> = CompressLayout::new(ZoneRect::new(4, 4)).ok().unwrap();
    assert!(c.is_empty());
    assert!(!c.is_full());
    let a = Offset::new(1, 2);
    let b = Offset::new(3, 3);
    assert!(matches!(c.get(&a), Err(AccessError::NoValue(o)) if o == a));
    assert!(matches!(c.get(&Offset::new(-1, 0)), Err(AccessError::CannotAccess(_))));
    assert_eq!(c.set(&a, 'a').unwrap(), None);
    assert_eq!(c.set(&b, 'b').unwrap(), None);
    assert_eq!(c.set(&a, 'A').unwrap(), Some('a'));
    assert_eq!(*c.get(&a).unwrap(), 'A');
    *c.get_mut(&b).unwrap() = 'B';
    assert_eq!(*c.get(&b).unwrap(), 'B');
    assert_eq!(c.rmv(&a).unwrap(), Some('A'));
    assert!(matches!(c.get(&a), Err(AccessError::NoValue(_))));
    assert_eq!(*c.get(&b).unwrap(), 'B');
    assert_eq!(c.rmv(&a).unwrap(), None);
    assert!(matches!(c.rmv(&Offset::new(4, 0)), Err(AccessError::CannotAccess(_))));
    assert!(!c.is_empty());
}

#[test]
fn compress_layout_fills_up() {
    let mut c: CompressLayout<usize, u8> = CompressLayout::new(ZoneRect::new(2, 2)).ok().unwrap();
    for i in 0..4 {
        let o = ZoneRect::new(2, 2).fold_x_first(i).unwrap();
        assert_eq!(c.set(&o, i).unwrap(), None);
    }
    assert!(c.is_full());
    for i in 0..4 {
        let o = ZoneRect::new(2, 2).fold_x_first(i).unwrap();
        assert_eq!(*c.get(&o).unwrap(), i);
    }
    assert_eq!(c.rmv(&Offset::new(0, 0)).unwrap(), Some(0));
    assert_eq!(*c.get(&Offset::new(1, 1)).unwrap(), 3);
    assert_eq!(*c.get(&Offset::new(1, 0)).unwrap(), 1);
    let mut it = c.into_iter();
    let mut seen = Vec::new();
    while let Some(e) = it.next() {
        seen.push(e);
    }
    seen.sort_by_key(|(o, _)| (o.get_y(), o.get_x()));
    assert_eq!(seen, vec![(Offset::new(1, 0), 1), (Offset::new(0, 1), 2), (Offset::new(1, 1), 3)]);
}

#[test]
fn compress_layout_creation_errors() {
    assert!(matches!(CompressLayout::<u8, u8>::new(ZoneRect::new(0, 3)), Err(CreateError::InvalidSize(0))));
    assert!(matches!(CompressLayout::<u8, u8>::new(ZoneRect::new(usize::MAX, 2)), Err(CreateError::InvalidShape(_))));
    assert!(matches!(CompressLayout::<u8, u8>::new(ZoneRect::new(16, 17)), Err(CreateError::InvalidSize(272))));
    assert!(CompressLayout::<u8, u8>::new(ZoneRect::new(16, 16)).is_ok());
    assert!(CompressLayout::<u8, u16>::new(ZoneRect::new(16, 17)).is_ok());
}

#[test]
fn compress_index_types() {
    assert_eq!(<u8 as Guarded>::guardian(), u8::MAX);
    assert_eq!(<i32 as Guarded>::guardian(), i32::MAX);
    assert_eq!(<usize as Compressible<u8>>::compress(200), Some(200u8));
    assert_eq!(<usize as Compressible<u8>>::compress(256), None);
    assert!(<usize as Compressible<u16>>::is_compressible(&65535));
    assert_eq!(<usize as Compressible<u32>>::decompress(7u32), 7usize);
    assert_eq!(<usize as RangeCompressible<u8>>::get_range(), 0..=255);
    let slot = DataSlot::Occurred(Offset::zero(), 1);
    let data = vec![10, 20];
    assert_eq!(slot.get_data_index(), Some(1));
    assert_eq!(slot.get_data_from(&data), Some(&20));
    assert_eq!(DataSlot::Invalid.get_data_from(&data), None);
    let mut data = data;
    *slot.get_mut_data_from(&mut data).unwrap() = 30;
    assert_eq!(data, vec![10, 30]);
}

#[test]
fn grid_delegates_to_layout() {
    let mut g: Grid<TightLayout<u8>> = Grid::with_rect(Rect::new(2, 2));
    assert_eq!(*g.boundary(), Rect::new(2, 2));
    let p = Position::new(1, 1);
    assert_eq!(g.set(&p, 3).unwrap(), None);
    assert_eq!(g[&p], 3);
    assert!(g.has(&p));
    *g.get_mut(&p).unwrap() = 4;
    assert_eq!(*g.get(&p).unwrap(), 4);
    assert_eq!(g.rmv(&p).unwrap(), Some(4));
    let g2: Grid<LooseLayout<u8>> = Grid::from(Rect::new(3, 1));
    assert_eq!(*g2.boundary(), Rect::new(3, 1));
    let g3 = Grid::with_layout(TightLayout::<u8>::new(4, 5));
    assert_eq!(*g3.boundary(), Rect::new(4, 5));
    assert!(g3.inside(&Position::new(3, 4)));
}

#[test]
fn grid_scans() {
    let mut t: TightLayout<usize> = TightLayout::new(2, 2);
    t.fill_with(|p| p.pos_x() + 10 * p.pos_y());
    let mut g = Grid::with_layout(t);
    let mut seen = Vec::new();
    let mut walk = g.scan_through();
    while let Some(item) = walk.next() {
        seen.push(item.copied());
    }
    assert_eq!(seen, vec![Some(0), Some(1), Some(10), Some(11), None]);
    let mut walk = g.scan_with();
    while let Some(item) = walk.next() {
        if let Some(v) = item {
            *v += 100;
        }
    }
    assert_eq!(*g.get(&Position::new(1, 1)).unwrap(), 111);
    let mut along = g.walkthrough(grid_layout::axis::zone::OffsetWalker::new(1, 1));
    assert_eq!(along.next(), Some(Some(&100)));
    assert_eq!(along.next(), Some(Some(&100)));
    assert_eq!(along.next(), Some(Some(&111)));
}

#[test]
fn rect_walker_steps() {
    let mut w = RectWalker::new(Rect::new(3, 2));
    let steps: Vec<Option<Offset>> = (0..7).map(|_| w.next_step()).collect();
    assert_eq!(
        steps,
        vec![
            Some(Offset::new(1, 0)),
            Some(Offset::new(1, 0)),
            Some(Offset::new(-2, 1)),
            Some(Offset::new(1, 0)),
            Some(Offset::new(1, 0)),
            Some(Offset::new(-2, 1)),
            None
        ]
    );
    let mut empty = RectWalker::new(Rect::new(0, 4));
    assert_eq!(empty.next_step(), None);
}

#[test]
fn compress_layout_counts_follow_contents() {
    let mut l = CompressLayout::<char, u8>::new(ZoneRect::new(2, 1)).ok().unwrap();
    assert_eq!(l.set(&Offset::new(0, 0), 'a').unwrap(), None);
    assert_eq!(l.set(&Offset::new(1, 0), 'b').unwrap(), None);
    assert!(l.is_full());
    assert_eq!(l.rmv(&Offset::new(0, 0)).unwrap(), Some('a'));
    assert_eq!(*l.get(&Offset::new(1, 0)).unwrap(), 'b');
    assert!(matches!(l.get(&Offset::new(0, 0)), Err(AccessError::NoValue(o)) if o == Offset::new(0, 0)));
    assert!(!l.is_empty());
    assert!(!l.is_full());
    assert!(matches!(l.set(&Offset::new(2, 0), 'c'), Err(AccessError::CannotAccess(_))));
    assert_eq!(l.rmv(&Offset::new(1, 0)).unwrap(), Some('b'));
    assert!(l.is_empty());
}

#[test]
fn walk_stays_ended() {
    let t: TightLayout<u8> = TightLayout::new(1, 1);
    let g = Grid::with_layout(t);
    let mut walk = g.scan_through();
    assert_eq!(walk.next(), Some(None));
    assert_eq!(walk.next(), Some(None));
    assert_eq!(walk.next(), None);
    assert_eq!(walk.next(), None);
}

#[test]
fn hash_map_is_a_layout() {
    let mut m: std::collections::HashMap<Position, u8> = std::collections::HashMap::new();
    let p = Position::new(7, 9);
    assert!(matches!(Layout::get(&m, &p), Err(AccessError::NoValue(q)) if q == p));
    assert_eq!(Layout::set(&mut m, &p, 1).unwrap(), None);
    assert_eq!(Layout::set(&mut m, &p, 2).unwrap(), Some(1));
    *Layout::get_mut(&mut m, &p).unwrap() = 3;
    assert_eq!(*Layout::get(&m, &p).unwrap(), 3);
    assert!(Layout::has(&m, &p));
    assert_eq!(Layout::rmv(&mut m, &p).unwrap(), Some(3));
    assert_eq!(Layout::rmv(&mut m, &p).unwrap(), None);
}

#[test]
fn zone_rect_walker_leads_a_walk() {
    let mut t: TightLayout<usize> = TightLayout::new(4, 4);
    t.fill_with(|p| p.pos_x() + 10 * p.pos_y());
    let g = Grid::with_layout(t);
    let zone = grid_layout::axis::zone::RectZone::new(3, 1);
    let mut walk = g.walkthrough(zone.walk_through());
    // the steps are the offsets of the zone's cells: (0,0), (1,0), (2,0)
    assert_eq!(walk.next(), Some(Some(&0)));
    assert_eq!(walk.next(), Some(Some(&0)));
    assert_eq!(walk.next(), Some(Some(&1)));
    assert_eq!(walk.next(), Some(Some(&3)));
    assert_eq!(walk.next(), None);
}

#[test]
fn offset_walker_steps_by_its_delta() {
    let mut w = grid_layout::axis::zone::OffsetWalker::with_offset(2, -1, Offset::new(1, 5));
    for k in 0..4isize {
        assert_eq!(w.next_step(), Some(Offset::new(1 + 2 * k, 5 - k)));
    }
    let mut edge = grid_layout::axis::zone::OffsetWalker::with_offset(1, 0, Offset::new(isize::MAX, 0));
    assert_eq!(edge.next_step(), None);
    assert_eq!(edge.next_step(), None);
}

#[test]
fn dropped_write_walk_leaves_grid() {
    let mut t: TightLayout<u8> = TightLayout::new(2, 1);
    t.fill(5);
    let mut g = Grid::with_layout(t);
    {
        let mut walk = g.scan_with();
        if let Some(Some(v)) = walk.next() {
            *v = 9;
        }
    }
    assert_eq!(*g.get(&Position::new(0, 0)).unwrap(), 9);
    assert_eq!(*g.get(&Position::new(1, 0)).unwrap(), 5);
}

#[test]
fn fresh_loose_layout_unbinds_to_empty_map() {
    let l: LooseLayout<u8> = LooseLayout::new(3, 2);
    assert!(matches!(l.get(&Position::new(2, 1)), Err(AccessError::NoValue(_))));
    assert!(matches!(l.get(&Position::new(3, 0)), Err(AccessError::CannotAccess(_))));
    assert!(l.unbound().is_empty());
}

#[test]
fn grid_from_rect_builds_layout_from_it() {
    let g: Grid<TightLayout<u8>> = Grid::from(Rect::new(3, 2));
    assert_eq!(*g.boundary(), Rect::new(3, 2));
    assert!(matches!(g.get(&Position::new(2, 1)), Err(AccessError::NoValue(_))));
    assert!(matches!(g.get(&Position::new(3, 1)), Err(AccessError::CannotAccess(_))));
}

#[test]
fn row_walk_ends_below_last_row() {
    let mut w = RectWalker::new(Rect::new(3, 2));
    let mut p = Position::new(0, 0);
    let mut n = 0;
    while let Some(o) = w.next_step() {
        p = Position::new((p.pos_x() as isize + o.get_x()) as usize, (p.pos_y() as isize + o.get_y()) as usize);
        n += 1;
    }
    assert_eq!(n, 6);
    assert_eq!(p, Position::new(0, 2));
}
