use rusty_flame::geometry::{Affine, Point, Rect, saturate, INF, LIMIT, ONE};

fn r(x0: i64, y0: i64, x1: i64, y1: i64) -> Rect {
    Rect { min: Point::new(x0, y0), max: Point::new(x1, y1) }
}

#[test]
fn union_and_containment() {
    let a = r(0, 0, 10, 10);
    let b = r(-5, 2, 3, 20);
    assert_eq!(Rect::union(&a, &b), r(-5, 0, 10, 20));
    assert!(Rect::union(&a, &b).contains(&a));
    assert!(!a.contains(&b));
    assert!(a.contains(&r(1, 1, 2, 2)));
    assert!(a.contains_point(Point::new(10, 0)));
    assert!(!a.contains_point(Point::new(11, 0)));
    assert_eq!(a.width(), 10);
    assert_eq!(b.height(), 18);
}

#[test]
fn corners_in_order() {
    let a = r(1, 2, 3, 4);
    assert_eq!(
        a.corners(),
        [Point::new(1, 2), Point::new(1, 4), Point::new(3, 4), Point::new(3, 2)]
    );
}

#[test]
fn grow_rounds_up() {
    // width 2_000_000, 100 millionths of half: 100 each side
    assert_eq!(r(0, 0, 2_000_000, 0).grow(100), r(-100, 0, 2_000_100, 0));
    // any positive extent grows by at least one
    assert_eq!(r(0, 0, 1, 1).grow(100), r(-1, -1, 2, 2));
    // a point stays a point
    assert_eq!(r(5, 5, 5, 5).grow(1000), r(5, 5, 5, 5));
    // a portion above one: 3 halves of the width on each side
    assert_eq!(r(0, 0, 10, 0).grow(3_000_000), r(-15, 0, 25, 0));
    // growth saturates at the infinities
    assert_eq!(r(-LIMIT, 0, LIMIT, 0).grow(1000000), r(-INF, 0, INF, 0));
}

#[test]
fn infinity_is_detected() {
    assert!(r(-INF, 0, 0, 0).is_infinite());
    assert!(r(0, 0, INF, 0).is_infinite());
    assert!(!r(-LIMIT, -LIMIT, LIMIT, LIMIT).is_infinite());
}

#[test]
fn affine_maps_round_half_to_even() {
    let half = Affine { a: ONE / 2, b: 0, c: 0, d: ONE / 2, tx: 0, ty: 0 };
    assert_eq!(half.transform_point(Point::new(3, 5)), Point::new(2, 2));
    assert_eq!(half.transform_point(Point::new(-3, 7)), Point::new(-2, 4));
    let t = Affine { a: ONE, b: 2 * ONE, c: -ONE, d: ONE, tx: 5, ty: -5 };
    assert_eq!(t.transform_point(Point::new(ONE, ONE)), Point::new(3 * ONE + 5, -5));
    // composition applies the right-hand map first
    let shift = Affine { a: ONE, b: 0, c: 0, d: ONE, tx: ONE, ty: 0 };
    let m = half.compose(&shift);
    assert_eq!(m.transform_point(Point::new(0, 0)), Point::new(ONE / 2, 0));
    let m2 = shift.compose(&half);
    assert_eq!(m2.transform_point(Point::new(0, 0)), Point::new(ONE, 0));
    assert_eq!(Affine::identity().compose(&t), t);
}

#[test]
fn image_of_a_rectangle() {
    let rot = Affine { a: 0, b: -ONE, c: ONE, d: 0, tx: 0, ty: 0 };
    assert_eq!(rot.transform_bounds(&r(0, 0, 2 * ONE, ONE)), r(-ONE, 0, 0, 2 * ONE));
}

#[test]
fn saturation() {
    assert_eq!(saturate(LIMIT as i128 + 1), INF);
    assert_eq!(saturate(-(LIMIT as i128) - 7), -INF);
    assert_eq!(saturate(42), 42);
    let big = Affine { a: LIMIT, b: 0, c: 0, d: LIMIT, tx: 0, ty: 0 };
    assert_eq!(big.transform_point(Point::new(LIMIT, -LIMIT)), Point::new(INF, -INF));
}
