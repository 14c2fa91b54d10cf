use rectree::geom::{Point, Rect};

#[test]
fn union_encloses_both() {
    let a = Rect::new(0, 0, 10, 10);
    let b = Rect::new(90, 90, 100, 100);
    assert_eq!(a.union(b), Rect::new(0, 0, 100, 100));
}

#[test]
fn contains_is_half_open() {
    let r = Rect::new(0, 0, 10, 10);
    assert!(r.contains(Point::new(0, 0)));
    assert!(!r.contains(Point::new(10, 10)));
}

#[test]
fn overlaps_counts_touching_edges() {
    let a = Rect::new(0, 0, 10, 10);
    let b = Rect::new(10, 0, 20, 10);
    assert!(a.overlaps(b));
    assert!(!a.overlaps(Rect::new(11, 0, 20, 10)));
}

#[test]
fn midpoint_matches_center_on_ordered_rects() {
    let r = Rect::new(10, 10, 30, 31);
    let m = r.midpoint();
    assert_eq!(m, Point::new(20, 20));
    let c = r.center();
    assert_eq!(m, c);
}
