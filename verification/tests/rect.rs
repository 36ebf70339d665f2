use grid_layout::{Position, Rect, RectBounded, TightLayout};

#[test]
fn rect_sizes() {
    let r = Rect::new(3, 4);
    assert_eq!(r.get_width(), 3);
    assert_eq!(r.get_height(), 4);
    assert_eq!(r.size(), 12);
    assert_eq!(r.checked_size(), Some(12));
    assert_eq!(Rect::new(usize::MAX, 2).checked_size(), None);
    assert_eq!(Rect::new_sqr(5), Rect::new(5, 5));
}

#[test]
fn rect_fold_and_flatten() {
    let r = Rect::new(3, 4);
    assert_eq!(r.fold_x_first(7), Some(Position::new(1, 2)));
    assert_eq!(r.fold_y_first(7), Some(Position::new(1, 3)));
    assert_eq!(r.fold_x_first(12), None);
    assert_eq!(r.fold_y_first(12), None);
    assert_eq!(r.flatten_x_first(&Position::new(1, 2)), Some(7));
    assert_eq!(r.flatten_y_first(&Position::new(1, 3)), Some(7));
    assert_eq!(r.flatten_x_first(&Position::new(3, 0)), None);
    assert_eq!(r.flatten_y_first(&Position::new(0, 4)), None);
    for i in 0..12 {
        let p = r.fold_x_first(i).unwrap();
        assert_eq!(r.flatten_x_first(&p), Some(i));
        let q = r.fold_y_first(i).unwrap();
        assert_eq!(r.flatten_y_first(&q), Some(i));
    }
    assert!(r.contains_pos(&Position::new(2, 3)));
    assert!(!r.contains_pos(&Position::new(3, 3)));
    assert_eq!(Rect::new(0, 5).fold_x_first(0), None);
}

#[test]
fn rect_bounded_inside() {
    let layout: TightLayout<u8> = TightLayout::new(2, 3);
    assert_eq!(*layout.boundary(), Rect::new(2, 3));
    assert!(layout.inside(&Position::new(1, 2)));
    assert!(!layout.inside(&Position::new(2, 2)));
}
