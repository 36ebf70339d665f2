use grid_layout::axis::rect::chunking;
use grid_layout::Rect;

#[test]
fn test_chunking() {
    let single = Rect::new(1, 1);
    assert_eq!(chunking(1, 1, 256), Some(single));
    assert_eq!(chunking(15, 15, 256), Some(single));
    assert_eq!(chunking(1, 256, 256), Some(single));
    assert_eq!(chunking(0, 0, 256), None);
    assert_eq!(chunking(16, 16, 16_usize.pow(2)), Some(single));
    assert_eq!(chunking(256, 256, 256_usize.pow(2)), Some(single));
    assert_eq!(chunking(65536, 65536, 65536_usize.pow(2)), Some(single));

    let rect_1x2 = Rect::new(1, 2);
    assert_eq!(chunking(16, 17, 256), Some(rect_1x2));
    assert_eq!(chunking(17, 18, 256), Some(rect_1x2));
    assert_eq!(chunking(16, 32, 256), Some(rect_1x2));
    assert_eq!(chunking(1, 257, 256), Some(rect_1x2));
    assert_eq!(chunking(1, 512, 256), Some(rect_1x2));

    let rect_2x1 = Rect::new(2, 1);
    assert_eq!(chunking(17, 16, 256), Some(rect_2x1));
    assert_eq!(chunking(18, 17, 256), Some(rect_2x1));
    assert_eq!(chunking(32, 16, 256), Some(rect_2x1));
    assert_eq!(chunking(257, 1, 256), Some(rect_2x1));
    assert_eq!(chunking(512, 1, 256), Some(rect_2x1));

    // some case
    assert_eq!(chunking(100, 100, 256), Some(Rect::new(7, 7)));
    assert_eq!(chunking(101, 99, 256), Some(Rect::new(7, 6)));
    assert_eq!(chunking(129, 30, 256), Some(Rect::new(8, 2)));
}

#[test]
fn chunking_refuses_zero_inputs() {
    assert_eq!(chunking(0, 5, 10), None);
    assert_eq!(chunking(5, 0, 10), None);
    assert_eq!(chunking(5, 5, 0), None);
}

#[test]
fn chunking_chunk_reaches_average_and_fits() {
    for &(w, h, m) in &[(100usize, 100usize, 256usize), (101, 99, 256), (129, 30, 256), (1000, 3, 7), (3, 1000, 7), (50, 50, 3), (7, 9, 2)] {
        let r = chunking(w, h, m).unwrap();
        assert!(r.get_width() >= 1 && r.get_width() <= w);
        assert!(r.get_height() >= 1 && r.get_height() <= h);
        assert!((r.get_width() as u128) * (r.get_height() as u128) * (m as u128) >= (w as u128) * (h as u128));
    }
}

#[test]
fn chunking_handles_huge_sides() {
    let r = chunking(usize::MAX, usize::MAX, 1).unwrap();
    assert_eq!(r, Rect::new(usize::MAX, usize::MAX));
    let r = chunking(usize::MAX, 2, 4).unwrap();
    assert!((r.get_width() as u128) * (r.get_height() as u128) * 4 >= (usize::MAX as u128) * 2);
}

#[test]
fn chunking_never_needs_more_than_max_chunks() {
    assert_eq!(chunking(10, 10, 8), Some(Rect::new(5, 5)));
    for &(w, h, m) in &[(10usize, 10usize, 8usize), (100, 100, 256), (101, 99, 256), (129, 30, 256), (1000, 3, 7), (3, 1000, 7), (50, 50, 3), (7, 9, 2), (97, 89, 13)] {
        let r = chunking(w, h, m).unwrap();
        let count = w.div_ceil(r.get_width()) * h.div_ceil(r.get_height());
        assert!(count <= m);
    }
}

#[test]
fn chunking_transposes_with_the_grid() {
    assert_eq!(chunking(10, 10, 3), Some(Rect::new(10, 10)));
    for &(w, h, m) in &[(10usize, 10usize, 3usize), (16, 17, 256), (129, 30, 256), (1000, 3, 7), (97, 89, 13), (7, 9, 2), (5, 1, 2)] {
        let a = chunking(w, h, m).unwrap();
        let b = chunking(h, w, m).unwrap();
        assert_eq!(b, Rect::new(a.get_height(), a.get_width()));
    }
}
