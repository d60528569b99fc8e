use rustymaze::{MazeError, Point, Region};

#[test]
fn point_arithmetic() {
    let a = Point { x: 3, y: 7 };
    let b = Point { x: 10, y: 20 };
    assert_eq!(a.add_point(b), Point { x: 13, y: 27 });
    assert_eq!(a.add_scalar(5), Point { x: 8, y: 12 });
    assert_eq!(b.sub_point(a), Ok(Point { x: 7, y: 13 }));
    assert_eq!(b.sub_scalar(10), Ok(Point { x: 0, y: 10 }));
}

#[test]
fn point_subtraction_underflows() {
    let a = Point { x: 3, y: 7 };
    let b = Point { x: 10, y: 20 };
    assert_eq!(a.sub_point(b), Err(MazeError::Underflow));
    assert_eq!(a.sub_scalar(4), Err(MazeError::Underflow));
    // one axis under is enough to fail
    assert_eq!(
        Point { x: 10, y: 1 }.sub_point(Point { x: 1, y: 10 }),
        Err(MazeError::Underflow)
    );
}

#[test]
fn strict_domination_is_partial() {
    let a = Point { x: 1, y: 1 };
    let b = Point { x: 2, y: 2 };
    let c = Point { x: 0, y: 5 };
    assert!(a.strictly_less(b));
    assert!(b.strictly_greater(a));
    // incomparable: axes disagree
    assert!(!a.strictly_less(c));
    assert!(!a.strictly_greater(c));
    assert!(!c.strictly_less(a));
    assert!(!c.strictly_greater(a));
    // equal points are not strictly related
    assert!(!a.strictly_less(a));
    assert!(!a.strictly_greater(a));
}

#[test]
fn region_bot_right() {
    let r = Region { topleft: Point { x: 2, y: 3 }, size: Point { x: 4, y: 5 } };
    assert_eq!(r.bot_right(), Point { x: 6, y: 8 });
}

#[test]
fn intersect_excludes_boundary() {
    let r = Region { topleft: Point { x: 2, y: 3 }, size: Point { x: 4, y: 5 } };
    // all four corners are outside
    assert!(!r.intersect(Point { x: 2, y: 3 }));
    assert!(!r.intersect(Point { x: 6, y: 3 }));
    assert!(!r.intersect(Point { x: 2, y: 8 }));
    assert!(!r.intersect(Point { x: 6, y: 8 }));
    // boundary pixels on each edge are outside
    assert!(!r.intersect(Point { x: 4, y: 3 }));
    assert!(!r.intersect(Point { x: 4, y: 8 }));
    assert!(!r.intersect(Point { x: 2, y: 5 }));
    assert!(!r.intersect(Point { x: 6, y: 5 }));
    // strictly interior pixels are inside
    assert!(r.intersect(Point { x: 3, y: 4 }));
    assert!(r.intersect(Point { x: 5, y: 7 }));
    // well outside
    assert!(!r.intersect(Point { x: 0, y: 0 }));
    assert!(!r.intersect(Point { x: 7, y: 9 }));
}

#[test]
fn shrink_insets_all_sides() {
    let r = Region { topleft: Point { x: 10, y: 10 }, size: Point { x: 20, y: 12 } };
    let s = r.shrink(Point { x: 2, y: 3 }).unwrap();
    assert_eq!(s, Region { topleft: Point { x: 12, y: 13 }, size: Point { x: 16, y: 6 } });
    let u = r.shrink_usize(4).unwrap();
    assert_eq!(u, Region { topleft: Point { x: 14, y: 14 }, size: Point { x: 12, y: 4 } });
}

#[test]
fn shrink_composes() {
    let r = Region { topleft: Point { x: 5, y: 5 }, size: Point { x: 40, y: 30 } };
    let a = Point { x: 3, y: 2 };
    let b = Point { x: 4, y: 6 };
    let twice = r.shrink(a).unwrap().shrink(b).unwrap();
    let once = r.shrink(a.add_point(b)).unwrap();
    assert_eq!(twice, once);
}

#[test]
fn shrink_underflows() {
    let r = Region { topleft: Point { x: 0, y: 0 }, size: Point { x: 10, y: 10 } };
    assert_eq!(r.shrink(Point { x: 6, y: 1 }), Err(MazeError::Underflow));
    assert_eq!(r.shrink_usize(6), Err(MazeError::Underflow));
    assert!(r.shrink_usize(5).is_ok());
}
