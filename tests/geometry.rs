use rtree::geometry::{Point, Rectangle};

#[test]
fn test_point() {
    let p1 = Point::new(0, 0);
    let p2 = Point::new(1, 2);
    assert!(p1 < p2);
    assert!(p2 > p1);
    assert!(p2 != p1);
}

#[test]
fn test_rectangle() {
    let p1 = Point::new(0, 0);
    let p2 = Point::new(3, 3);
    let r = Rectangle::new(p1.clone(), p2.clone());

    let p3 = Point::new(1, 1);
    let p4 = Point::new(4, 4);
    let r2 = Rectangle::new(p3, p4.clone());

    assert!(r.contains(&p1));
    assert!(r.contains(&p2));
    assert!(r.intersects(&r2));

    let p5 = Point::new(0, 0);
    let p6 = Point::new(5, 5);
    let r3 = Rectangle::new(p5, p6);
    assert!(r3.contains_rect(&r));

    let mbr = r.mbr(&r2);
    assert_eq!(mbr.ll, p1);
    assert_eq!(mbr.ur, p4);
}

fn rect(x0: i32, y0: i32, x1: i32, y1: i32) -> Rectangle {
    Rectangle::new(Point::new(x0, y0), Point::new(x1, y1))
}

#[test]
fn point_order_breaks_ties_on_y() {
    assert!(Point::new(1, 1) < Point::new(1, 2));
    assert!(Point::new(2, 0) > Point::new(1, 9));
    assert!(Point::new(3, 3) <= Point::new(3, 3));
}

#[test]
fn mbr_is_coordinatewise() {
    // corners taken per axis, not by point order
    let a = rect(0, 5, 2, 6);
    let b = rect(1, 0, 3, 4);
    let m = a.mbr(&b);
    assert_eq!(m, rect(0, 0, 3, 6));
    assert!(m.contains_rect(&a));
    assert!(m.contains_rect(&b));
    assert_eq!(b.mbr(&a), m);
}

#[test]
fn intersects_is_symmetric_and_inclusive() {
    let a = rect(0, 0, 2, 2);
    let b = rect(2, 2, 3, 3);
    let c = rect(3, 0, 4, 1);
    assert!(a.intersects(&b));
    assert!(b.intersects(&a));
    assert!(!a.intersects(&c));
    assert!(!c.intersects(&a));
}

#[test]
fn contains_rect_is_transitive() {
    let a = rect(0, 0, 10, 10);
    let b = rect(1, 1, 9, 9);
    let c = rect(2, 2, 3, 3);
    assert!(a.contains_rect(&b));
    assert!(b.contains_rect(&c));
    assert!(a.contains_rect(&c));
    assert!(!c.contains_rect(&a));
}

#[test]
fn contains_point_bounds() {
    let r = rect(0, 0, 2, 3);
    assert!(r.contains(&Point::new(2, 3)));
    assert!(!r.contains(&Point::new(3, 0)));
    assert!(!r.contains(&Point::new(0, -1)));
}

#[test]
fn area_and_validity() {
    assert_eq!(rect(1, 2, 4, 7).area(), 15);
    assert_eq!(rect(1, 1, 1, 5).area(), 0);
    let big = rect(i32::MIN, i32::MIN, i32::MAX, i32::MAX);
    assert_eq!(big.area(), (u32::MAX as i128) * (u32::MAX as i128));
    assert!(rect(0, 0, 0, 0).is_valid());
    assert!(!rect(1, 0, 0, 0).is_valid());
    assert!(!rect(0, 1, 0, 0).is_valid());
}
