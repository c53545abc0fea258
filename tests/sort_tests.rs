use skytiles::geometry::Rectangle;
use skytiles::sort::{in_order, sort_rects};

#[test]
fn sort_by_centre_x_then_y() {
    let a = Rectangle::new(10, 0, 12, 2, Some(0));
    let b = Rectangle::new(0, 5, 4, 7, Some(1));
    let c = Rectangle::new(1, -3, 3, -1, Some(2));
    let d = Rectangle::new(-8, 0, -6, 0, Some(3));
    let mut v = vec![a, b, c, d];
    sort_rects(&mut v, true);
    assert_eq!(v, vec![d, c, b, a]);
}

#[test]
fn sort_by_centre_y() {
    let a = Rectangle::new(10, 0, 12, 2, Some(0));
    let b = Rectangle::new(0, 5, 4, 7, Some(1));
    let c = Rectangle::new(1, -3, 3, -1, Some(2));
    let mut v = vec![b, a, c, b];
    sort_rects(&mut v, false);
    assert_eq!(v, vec![c, a, b, b]);
}

#[test]
fn in_order_compares_centres() {
    let left = Rectangle::new(0, 10, 2, 12, None);
    let right = Rectangle::new(3, 0, 5, 2, None);
    assert!(in_order(&left, &right, true));
    assert!(!in_order(&right, &left, true));
    assert!(in_order(&right, &left, false));
    assert!(in_order(&left, &left, true));
    let wide = Rectangle::new(-10, 0, 10, 1, None);
    assert!(in_order(&wide, &left, true));
    assert!(!in_order(&left, &wide, true));
}
