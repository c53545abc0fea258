use skytiles::geometry::Rectangle;
use skytiles::sky::{Sky, SkyError, DEGREE};

fn degree_sky() -> Sky {
    Sky::new(Rectangle::new(0, -90, 360, 90, None), 5)
}

#[test]
fn edge_reflection_near_x_max() {
    let mut sky = degree_sky();
    let added = sky.add_tile(Rectangle::new(353, 80, 358, 85, Some(1)));
    assert_eq!(added, Ok(2));
    assert_eq!(
        sky.tiles().clone(),
        vec![Rectangle::new(-7, 80, -2, 85, Some(1)), Rectangle::new(353, 80, 358, 85, Some(1))]
    );
}

#[test]
fn edge_reflection_near_x_max_in_arcseconds() {
    let mut sky = Sky::full_sky();
    let tile = Rectangle::new(353 * DEGREE, 80 * DEGREE, 358 * DEGREE, 85 * DEGREE, Some(1));
    assert_eq!(sky.add_tile(tile), Ok(2));
    let ghost = Rectangle::new(-7 * DEGREE, 80 * DEGREE, -2 * DEGREE, 85 * DEGREE, Some(1));
    assert_eq!(sky.tiles().clone(), vec![ghost, tile]);
}

#[test]
fn no_reflection_away_from_edges() {
    let mut sky = degree_sky();
    assert_eq!(sky.add_tile(Rectangle::new(100, 0, 110, 10, None)), Ok(1));
    assert_eq!(sky.tiles().clone(), vec![Rectangle::new(100, 0, 110, 10, None)]);
}

#[test]
fn edge_reflection_near_x_min() {
    let mut sky = degree_sky();
    assert_eq!(sky.add_tile(Rectangle::new(1, 0, 3, 2, Some(5))), Ok(2));
    assert_eq!(
        sky.tiles().clone(),
        vec![Rectangle::new(361, 0, 363, 2, Some(5)), Rectangle::new(1, 0, 3, 2, Some(5))]
    );
}

#[test]
fn edge_reflection_near_y_min() {
    let mut sky = degree_sky();
    assert_eq!(sky.add_tile(Rectangle::new(100, -88, 110, -80, None)), Ok(2));
    assert_eq!(sky.tiles()[0], Rectangle::new(100, 92, 110, 100, None));
}

#[test]
fn corner_reflection_near_x_max_y_max() {
    let mut sky = degree_sky();
    let tile = Rectangle::new(357, 87, 359, 89, Some(3));
    assert_eq!(sky.add_tile(tile), Ok(4));
    assert_eq!(
        sky.tiles().clone(),
        vec![
            Rectangle::new(-3, 87, -1, 89, Some(3)),
            Rectangle::new(357, -93, 359, -91, Some(3)),
            Rectangle::new(-3, -93, -1, -91, Some(3)),
            tile,
        ]
    );
}

#[test]
fn no_corner_reflection_beyond_euclidean_margin() {
    let mut sky = degree_sky();
    // 4 from each edge: both edges are near, the corner is sqrt(32) > 5 away.
    let tile = Rectangle::new(350, 80, 356, 86, None);
    assert_eq!(sky.add_tile(tile), Ok(3));
    assert_eq!(
        sky.tiles().clone(),
        vec![
            Rectangle::new(-10, 80, -4, 86, None),
            Rectangle::new(350, -100, 356, -94, None),
            tile,
        ]
    );
}

#[test]
fn tile_outside_region_is_refused() {
    let mut sky = degree_sky();
    assert_eq!(sky.add_tile(Rectangle::new(355, 0, 365, 10, None)), Err(SkyError::OutOfDomain));
    assert_eq!(sky.add_tile(Rectangle::new(10, -95, 20, 0, None)), Err(SkyError::OutOfDomain));
    assert!(sky.tiles().is_empty());
}

#[test]
fn registration_fails_iff_region_does_not_contain() {
    let region = Rectangle::new(0, -90, 360, 90, None);
    let candidates = [
        Rectangle::new(0, -90, 360, 90, None),
        Rectangle::new(-1, 0, 10, 10, None),
        Rectangle::new(100, 0, 110, 10, None),
        Rectangle::new(350, 85, 361, 89, None),
        Rectangle::new(0, 0, 0, 0, None),
    ];
    for t in candidates.iter() {
        let mut sky = degree_sky();
        let before = sky.tiles().len();
        let r = sky.add_tile(*t);
        assert_eq!(r.is_err(), !region.contains(t));
        match r {
            Ok(n) => assert_eq!(sky.tiles().len(), before + n),
            Err(e) => {
                assert_eq!(e, SkyError::OutOfDomain);
                assert_eq!(sky.tiles().len(), before);
            }
        }
    }
}

#[test]
fn tiles_accumulate_in_order() {
    let mut sky = degree_sky();
    assert_eq!(sky.add_tile(Rectangle::new(100, 0, 110, 10, None)), Ok(1));
    assert_eq!(sky.add_tile(Rectangle::new(353, 80, 358, 85, Some(1))), Ok(2));
    assert_eq!(sky.tiles().len(), 3);
    assert_eq!(sky.tiles()[0], Rectangle::new(100, 0, 110, 10, None));
    assert_eq!(sky.tiles()[2], Rectangle::new(353, 80, 358, 85, Some(1)));
}
