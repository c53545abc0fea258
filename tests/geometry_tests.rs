use skytiles::geometry::{Point, Rectangle, Shape};

#[test]
fn new_orders_inverted_bounds() {
    let r = Rectangle::new(358, -84, 348, -88, Some(4));
    assert_eq!(r.bounds(), [348, -88, 358, -84]);
    assert_eq!(r.get_idx(), Some(4));
}

#[test]
fn new_keeps_ordered_bounds() {
    let r = Rectangle::new(-5, -6, 7, 8, None);
    assert_eq!(r.bounds(), [-5, -6, 7, 8]);
    let degenerate = Rectangle::new(3, 3, 3, 3, None);
    assert_eq!(degenerate.bounds(), [3, 3, 3, 3]);
}

#[test]
fn new_orders_every_input_order() {
    let values: [i64; 4] = [-7, 0, 2, 9];
    for &a in values.iter() {
        for &b in values.iter() {
            for &c in values.iter() {
                for &d in values.iter() {
                    let r = Rectangle::new(a, b, c, d, None);
                    assert!(r.x_min <= r.x_max);
                    assert!(r.y_min <= r.y_max);
                    assert_eq!(r.x_min, a.min(c));
                    assert_eq!(r.x_max, a.max(c));
                    assert_eq!(r.y_min, b.min(d));
                    assert_eq!(r.y_max, b.max(d));
                }
            }
        }
    }
}

#[test]
fn contains_itself() {
    let boxes = [
        Rectangle::new(0, 0, 10, 10, None),
        Rectangle::new(-3, 4, -3, 4, Some(1)),
        Rectangle::new(i64::MIN, i64::MIN, i64::MAX, i64::MAX, None),
    ];
    for b in boxes.iter() {
        assert!(b.contains(b));
    }
}

#[test]
fn contains_is_non_strict_on_every_bound() {
    let outer = Rectangle::new(0, 0, 10, 10, None);
    assert!(outer.contains(&Rectangle::new(0, 0, 10, 10, Some(2))));
    assert!(outer.contains(&Rectangle::new(2, 3, 4, 5, None)));
    assert!(!outer.contains(&Rectangle::new(-1, 0, 10, 10, None)));
    assert!(!outer.contains(&Rectangle::new(0, -1, 10, 10, None)));
    assert!(!outer.contains(&Rectangle::new(0, 0, 11, 10, None)));
    assert!(!outer.contains(&Rectangle::new(0, 0, 10, 11, None)));
    assert!(!Rectangle::new(2, 3, 4, 5, None).contains(&outer));
}

#[test]
fn overlaps_counts_touching_edges() {
    let a = Rectangle::new(0, 0, 10, 10, None);
    assert!(a.overlaps(&Rectangle::new(10, 10, 20, 20, None)));
    assert!(a.overlaps(&Rectangle::new(-5, 3, 0, 4, None)));
    assert!(a.overlaps(&Rectangle::new(2, 2, 3, 3, None)));
    assert!(!a.overlaps(&Rectangle::new(11, 0, 20, 10, None)));
    assert!(!a.overlaps(&Rectangle::new(0, 11, 10, 20, None)));
    assert!(!a.overlaps(&Rectangle::new(0, -20, 10, -1, None)));
}

#[test]
fn overlaps_is_symmetric() {
    let boxes = [
        Rectangle::new(0, 0, 10, 10, None),
        Rectangle::new(10, 10, 20, 20, None),
        Rectangle::new(11, 0, 20, 10, None),
        Rectangle::new(-5, -5, 5, 5, None),
        Rectangle::new(3, -40, 4, 40, None),
        Rectangle::new(-40, 3, 40, 4, None),
    ];
    for a in boxes.iter() {
        for b in boxes.iter() {
            assert_eq!(a.overlaps(b), b.overlaps(a));
        }
    }
}

#[test]
fn dbounds_gives_signed_differences() {
    let region = Rectangle::new(0, -90, 360, 90, None);
    let tile = Rectangle::new(353, 80, 358, 85, None);
    assert_eq!(region.dbounds(&tile), [-353, -170, 2, 5]);
    assert_eq!(tile.dbounds(&region), [353, 170, -2, -5]);
}

#[test]
fn point_box_has_half_width_one_arcsecond() {
    let p = Point { x: 10, y: -20, tag: Some(7) };
    let b = p.bounding_box();
    assert_eq!(b, Rectangle { x_min: 9, y_min: -21, x_max: 11, y_max: -19, tag: Some(7) });
    assert_eq!(p.get_idx(), Some(7));
}

#[test]
fn shape_box_and_tag() {
    let r = Rectangle::new(1, 2, 3, 4, Some(9));
    assert_eq!(Shape::Rect(r).bounding_box(), r);
    assert_eq!(Shape::Rect(r).get_idx(), Some(9));
    let p = Shape::Pt(Point { x: 0, y: 0, tag: None });
    assert_eq!(p.bounding_box(), Rectangle::new(-1, -1, 1, 1, None));
    assert_eq!(p.get_idx(), None);
}
