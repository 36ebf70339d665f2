use grid_layout::axis::zone::{MajoredRect, OffsetWalker, Rect as ZoneRect, RectWalker as ZoneRectWalker, RectZone, Zone};
use grid_layout::{Offset, Position, Walker};

#[test]
fn zone_rect_fold_and_flatten() {
    let r = ZoneRect::new(3, 4);
    assert_eq!(r.size(), 12);
    assert_eq!(ZoneRect::new_sqr(2), ZoneRect::new(2, 2));
    assert_eq!(r.fold_x_first(7), Some(Offset::new(1, 2)));
    assert_eq!(r.fold_y_first(7), Some(Offset::new(1, 3)));
    assert_eq!(r.fold_x_first(12), None);
    assert_eq!(r.flatten_x_first(&Offset::new(1, 2)), Some(7));
    assert_eq!(r.flatten_y_first(&Offset::new(1, 3)), Some(7));
    assert_eq!(r.flatten_x_first(&Offset::new(-1, 2)), None);
    assert!(r.contains_offset(&Offset::new(2, 3)));
    assert!(!r.contains_offset(&Offset::new(2, -1)));
    assert!(!r.contains_offset(&Offset::new(3, 0)));
    assert_eq!(r.get_width(), 3);
    assert_eq!(r.get_height(), 4);
}

#[test]
fn rect_zone_accessors_and_containment() {
    let z = RectZone::with_pos(3, 2, Position::new(4, 5));
    assert_eq!(z.get_width(), 3);
    assert_eq!(z.get_height(), 2);
    assert_eq!(z.pos_x(), 4);
    assert_eq!(z.pos_y(), 5);
    assert_eq!(z.get_anchor(), Position::new(4, 5));
    assert!(z.contains_offset(&Offset::new(2, 1)));
    assert!(!z.contains_offset(&Offset::new(3, 1)));
    assert!(z.contains_position(&Position::new(6, 6)));
    assert!(!z.contains_position(&Position::new(3, 5)));
    assert!(!z.contains_position(&Position::new(7, 5)));
    assert_eq!(z.size_hint(), Some(6));
    let o = RectZone::new(2, 2);
    assert_eq!(o.get_anchor(), Position::new(0, 0));
}

#[test]
fn rect_zone_intersection() {
    let a = RectZone::with_pos(4, 4, Position::new(0, 0));
    let b = RectZone::with_pos(4, 4, Position::new(2, 3));
    let c = (&a & &b).unwrap();
    assert_eq!((c.pos_x(), c.pos_y(), c.get_width(), c.get_height()), (2, 3, 2, 1));
    let d = RectZone::with_pos(1, 1, Position::new(4, 0));
    assert!((&a & &d).is_none());
    for x in 0..8 {
        for y in 0..8 {
            let p = Position::new(x, y);
            assert_eq!(c.contains_position(&p), a.contains_position(&p) && b.contains_position(&p));
        }
    }
}

#[test]
fn zone_rect_walker() {
    let z = RectZone::new(2, 2);
    let mut w = z.walk_through();
    assert_eq!(w.size_hint(), (4, Some(4)));
    assert_eq!(w.next(), Some(Offset::new(0, 0)));
    assert_eq!(w.next(), Some(Offset::new(1, 0)));
    assert_eq!(w.next(), Some(Offset::new(0, 1)));
    assert_eq!(w.size_hint(), (1, Some(4)));
    assert_eq!(w.next(), Some(Offset::new(1, 1)));
    assert_eq!(w.next(), None);
    assert_eq!(w.size_hint(), (0, Some(4)));
    let mut w2 = ZoneRectWalker::new(ZoneRect::new(0, 3));
    assert_eq!(w2.next(), None);
}

#[test]
fn majored_rect() {
    let row = MajoredRect::new_row(3, 4);
    let col = MajoredRect::new_col(3, 4);
    assert_eq!(row.fold_majored(7), Some(Offset::new(1, 2)));
    assert_eq!(col.fold_majored(7), Some(Offset::new(1, 3)));
    assert_eq!(row.flat_majored(&Offset::new(1, 2)), Some(7));
    assert_eq!(col.flat_majored(&Offset::new(1, 3)), Some(7));
    assert_eq!(row.get_width(), 3);
    let mut m = MajoredRect::new_col(1, 1);
    *m = ZoneRect::new(5, 6);
    assert_eq!(m.get_height(), 6);
    assert_eq!(m.fold_majored(7), Some(Offset::new(1, 1)));
}

#[test]
fn offset_walker() {
    let mut w = OffsetWalker::new(2, -1);
    assert_eq!(w.next(), Some(Offset::new(0, 0)));
    assert_eq!(w.next(), Some(Offset::new(2, -1)));
    w.set_delta_x(0);
    w.set_delta_y(5);
    assert_eq!(w.next(), Some(Offset::new(4, -2)));
    assert_eq!(w.next_step(), Some(Offset::new(4, 3)));
    let mut edge = OffsetWalker::with_offset(1, 0, Offset::new(isize::MAX, 0));
    assert_eq!(edge.next(), None);
    assert_eq!(edge.next(), None);
}
