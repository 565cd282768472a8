use mapgen::geometry::{usize_abs, Point, Rect};

#[test]
fn geometry_test_intersect() {
    let rect1 = Rect::new(10, 10, 40, 40);
    let rect2 = Rect::new(30, 30, 60, 60);
    assert!(rect1.intersect(&rect2));
}

#[test]
fn test_size() {
    let rect1 = Rect::new(10, 10, 40, 30);
    assert_eq!(rect1.width(), 40);
    assert_eq!(rect1.height(), 30);
}

#[test]
fn test_distance() {
    let p1 = Point::new(10, 10);
    let p2 = Point::new(14, 7);
    let distance = (p1.distance_squared(&p2) as f32).sqrt();
    assert_eq!(distance, 5.0);
}

#[test]
fn rect_apart_does_not_intersect() {
    let rect1 = Rect::new(0, 0, 5, 5);
    let rect2 = Rect::new(6, 0, 5, 5);
    assert!(!rect1.intersect(&rect2));
    // touching edges count as overlap
    let rect3 = Rect::new(5, 0, 5, 5);
    assert!(rect1.intersect(&rect3));
}

#[test]
fn rect_center_and_reversed_size() {
    let rect = Rect::new(2, 4, 6, 8);
    assert_eq!(rect.center(), Point::new(5, 8));
    let reversed = Rect { x1: 10, x2: 4, y1: 9, y2: 1 };
    assert_eq!(reversed.width(), 6);
    assert_eq!(reversed.height(), 8);
}

#[test]
fn point_from_signed_and_abs() {
    assert_eq!(Point::new_i32(3, 7), Point::new(3, 7));
    assert_eq!(usize_abs(3, 10), 7);
    assert_eq!(usize_abs(10, 3), 7);
}
