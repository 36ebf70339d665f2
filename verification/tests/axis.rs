use grid_layout::axis::{in_range, overlapping};
use grid_layout::{Offset, Position, Rect};

#[test]
fn position_accessors_and_conversions() {
    let p = Position::new(3, 4);
    assert_eq!(p.pos_x(), 3);
    assert_eq!(p.pos_y(), 4);
    assert_eq!(Position::from((3, 4)), p);
    let t: (usize, usize) = p.into();
    assert_eq!(t, (3, 4));
    assert_eq!(Position::try_from((3isize, 4isize)), Ok(p));
    assert!(Position::try_from((-1isize, 4isize)).is_err());
    assert!(Position::try_from((1isize, -4isize)).is_err());
    assert_eq!(Position::try_from(Offset::new(3, 4)), Ok(p));
    assert!(Position::try_from(Offset::new(-3, 4)).is_err());
}

#[test]
fn position_offset_arithmetic() {
    let p = Position::new(5, 7);
    let o = Offset::new(-2, 3);
    let q = p + o;
    assert_eq!(q, Position::new(3, 10));
    assert_eq!(q - o, p);
    assert_eq!(q - p, o);
    assert_eq!(p - q, Offset::new(2, -3));
    assert_eq!(p + (q - p), q);
    let mut r = p;
    r.add_assign(o);
    assert_eq!(r, q);
    r.sub_assign(o);
    assert_eq!(r, p);
}

#[test]
fn offset_constructors() {
    assert_eq!(Offset::with_x(4), Offset::new(4, 0));
    assert_eq!(Offset::with_y(-4), Offset::new(0, -4));
    assert!(Offset::zero().is_zero());
    assert!(!Offset::new(0, 1).is_zero());
    assert_eq!(Offset::new(2, 3).get_x(), 2);
    assert_eq!(Offset::new(2, 3).get_y(), 3);
    assert_eq!(Offset::from((2isize, -3isize)), Offset::new(2, -3));
    assert_eq!(Offset::try_from((2usize, 3usize)), Ok(Offset::new(2, 3)));
    assert!(Offset::try_from((usize::MAX, 3usize)).is_err());
    assert_eq!(Offset::try_from(Position::new(2, 3)), Ok(Offset::new(2, 3)));
}

#[test]
fn offset_arithmetic() {
    let a = Offset::new(2, -3);
    let b = Offset::new(-5, 7);
    assert_eq!(a + b, Offset::new(-3, 4));
    assert_eq!(a - b, Offset::new(7, -10));
    assert_eq!((a + b) - b, a);
    assert_eq!(a + b, b + a);
    assert_eq!(-a, Offset::new(-2, 3));
    assert!((a + (-a)).is_zero());
    let mut c = a;
    c.add_assign(b);
    assert_eq!(c, a + b);
    c.sub_assign(b);
    assert_eq!(c, a);
    assert_eq!(a * Rect::new(3, 4), Offset::new(6, -12));
    assert_eq!(a * 5usize, Offset::new(10, -15));
}

#[test]
fn ranges() {
    assert!(in_range(3, 2, 2));
    assert!(!in_range(4, 2, 2));
    assert!(!in_range(1, 2, 2));
    assert!(!in_range(0, 0, 0));
    assert_eq!(overlapping(0..5, 3..8), Some(3..5));
    assert_eq!(overlapping(3..8, 0..5), Some(3..5));
    assert_eq!(overlapping(0..5, 5..8), None);
    assert_eq!(overlapping(2..2, 0..8), None);
    assert_eq!(overlapping(0..8, 2..4), Some(2..4));
}
