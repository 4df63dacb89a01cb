use sand_engine::geometry_helpers::{BoundRect, Point};

#[test]
fn test_empty_rect() {
    let empty = BoundRect::empty();
    assert!(empty.is_empty());
    assert!(!empty.contains(&Point::new(0, 0)));
    assert!(!empty.contains(&Point::new(i32::MAX, i32::MIN)));
}

#[test]
fn test_single_point_rect() {
    let rect = BoundRect::empty().union_point(&Point::new(3, -7));
    assert!(!rect.is_empty());
    assert!(rect.contains(&Point::new(3, -7)));
    assert!(!rect.contains(&Point::new(3, -6)));
    assert!(!rect.contains(&Point::new(2, -7)));
    assert_eq!(rect.min, Point::new(3, -7));
    assert_eq!(rect.max, Point::new(3, -7));
}

#[test]
fn test_union_point_extends() {
    let rect = BoundRect { min: Point::new(2, 2), max: Point::new(4, 5) };
    let grown = rect.union_point(&Point::new(0, 7));
    assert_eq!(grown.min, Point::new(0, 2));
    assert_eq!(grown.max, Point::new(4, 7));
    // Everything the old rectangle covered is still covered.
    assert!(grown.contains(&Point::new(2, 2)));
    assert!(grown.contains(&Point::new(4, 5)));
    assert!(grown.contains(&Point::new(0, 7)));
    // An interior point of the old rectangle stays interior.
    let same = rect.union_point(&Point::new(3, 3));
    assert_eq!(same.min, rect.min);
    assert_eq!(same.max, rect.max);
}

#[test]
fn test_union() {
    let a = BoundRect { min: Point::new(0, 0), max: Point::new(2, 2) };
    let b = BoundRect { min: Point::new(5, -1), max: Point::new(6, 1) };
    let u = a.union(&b);
    assert_eq!(u.min, Point::new(0, -1));
    assert_eq!(u.max, Point::new(6, 2));
    // Union with an empty rectangle returns the other side unchanged.
    let e = BoundRect::empty();
    assert_eq!(a.union(&e), a);
    assert_eq!(e.union(&b), b);
    assert!(e.union(&e).is_empty());
}

#[test]
fn test_from_points() {
    let points = vec![Point::new(4, 1), Point::new(-2, 3), Point::new(0, 0)];
    let rect = BoundRect::from_points(&points);
    assert_eq!(rect.min, Point::new(-2, 0));
    assert_eq!(rect.max, Point::new(4, 3));
    for p in &points {
        assert!(rect.contains(p));
    }
    let none: Vec<Point> = Vec::new();
    assert!(BoundRect::from_points(&none).is_empty());
}

#[test]
fn test_center_and_size() {
    let rect = BoundRect { min: Point::new(1, 2), max: Point::new(5, 8) };
    assert_eq!(rect.center(), Point::new(3, 5));
    assert_eq!(rect.size(), Point::new(4, 6));
    let single = BoundRect { min: Point::new(-3, -3), max: Point::new(-3, -3) };
    assert_eq!(single.center(), Point::new(-3, -3));
    assert_eq!(single.size(), Point::new(0, 0));
}
