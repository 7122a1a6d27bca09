use mole::geometry::{Point, Rect};

#[test]
fn center_is_midpoint() {
    let r = Rect::new(10, 20, 100, 40);
    assert_eq!(r.center(), Point::new(60, 40));
}

#[test]
fn disjoint_rects_do_not_intersect() {
    let a = Rect::new(0, 0, 10, 10);
    let b = Rect::new(20, 20, 10, 10);
    assert!(!a.intersects(&b));
    // ...but a generous gap makes them collide.
    assert!(a.intersects_with_gap(&b, 15));
}

#[test]
fn an_empty_rectangle_intersects_nothing() {
    let a = Rect::new(0, 0, 10, 10);
    for empty in [Rect::new(5, 5, 0, 0), Rect::new(5, 5, 3, 0), Rect::new(5, 5, -1, 3)] {
        assert!(!empty.intersects(&a));
        assert!(!a.intersects(&empty));
        assert!(!empty.intersects(&empty));
        assert_eq!(empty.clamp_to(a), None);
    }
    // Comparing edges alone, a point inside is near.
    assert!(a.intersects_with_gap(&Rect::new(5, 5, 0, 0), 0));
}

#[test]
fn touching_edges_do_not_intersect() {
    let a = Rect::new(0, 0, 10, 10);
    let b = Rect::new(10, 0, 10, 10);
    assert!(!a.intersects(&b));
}

#[test]
fn clamp_trims_to_screen() {
    let screen = Rect::new(0, 0, 100, 100);
    let r = Rect::new(80, 80, 40, 40);
    assert_eq!(r.clamp_to(screen), Some(Rect::new(80, 80, 20, 20)));

    let offscreen = Rect::new(200, 200, 10, 10);
    assert_eq!(offscreen.clamp_to(screen), None);
}

#[test]
fn union_covers_both_rects() {
    let a = Rect::new(10, 10, 20, 10); // x: 10..30, y: 10..20
    let b = Rect::new(40, 5, 10, 30); // x: 40..50, y: 5..35
    let u = a.union(&b);
    assert_eq!(u, Rect::new(10, 5, 40, 30));
    // Union is commutative and idempotent.
    assert_eq!(b.union(&a), u);
    assert_eq!(a.union(&a), a);
}

#[test]
fn contains_respects_half_open_bounds() {
    let r = Rect::new(0, 0, 10, 10);
    assert!(r.contains(Point::new(0, 0)));
    assert!(!r.contains(Point::new(10, 10)));
    assert!(r.contains(Point::new(9, 9)));
}

#[test]
fn halves_round_towards_zero() {
    assert_eq!(Rect::new(0, 0, 5, 7).center(), Point::new(2, 3));
    assert_eq!(Rect::new(0, 0, -5, -7).center(), Point::new(-2, -3));
}

#[test]
fn area_counts_negative_sides_as_zero() {
    assert_eq!(Rect::new(3, 4, 5, 6).area(), 30);
    assert_eq!(Rect::new(3, 4, -5, 6).area(), 0);
    assert_eq!(Rect::new(0, 0, i32::MAX, i32::MAX).area(), i32::MAX as i64 * i32::MAX as i64);
}

#[test]
fn edges_are_one_past_the_last_pixel() {
    let r = Rect::new(3, 4, 5, 6);
    assert_eq!((r.right(), r.bottom()), (8, 10));
    assert!(r.contains(Point::new(7, 9)));
    assert!(!r.contains(Point::new(8, 9)));
}

#[test]
fn predicates_are_exact_at_the_edge_of_the_range() {
    let far = Rect::new(i32::MAX - 1, 0, 100, 10);
    assert!(far.contains(Point::new(i32::MAX, 5)));
    assert!(far.intersects(&Rect::new(i32::MAX, 0, 1, 1)));
    assert_eq!(
        far.clamp_to(Rect::new(0, 0, i32::MAX, 100)),
        Some(Rect::new(i32::MAX - 1, 0, 1, 10))
    );
}

#[test]
fn clamping_twice_changes_nothing_more() {
    let screen = Rect::new(10, 10, 50, 50);
    let part = Rect::new(0, 0, 30, 100).clamp_to(screen).unwrap();
    assert_eq!(part, Rect::new(10, 10, 20, 50));
    assert_eq!(part.clamp_to(screen), Some(part));
}

#[test]
fn collision_is_symmetric_and_grows_with_the_gap() {
    let a = Rect::new(0, 0, 10, 10);
    let b = Rect::new(14, 0, 10, 10);
    for gap in 0..10 {
        assert_eq!(a.intersects_with_gap(&b, gap), gap > 4);
        assert_eq!(a.intersects_with_gap(&b, gap), b.intersects_with_gap(&a, gap));
    }
}
