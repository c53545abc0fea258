use crate::geometry::Rectangle;
use vstd::math::abs;
use vstd::prelude::*;

verus! {

/// Largest magnitude of a domain bound, and largest margin: it keeps every
/// reflected tile, and every squared distance, within machine integers.
pub const COORD_LIMIT: i64 = 1_099_511_627_776;

/// One degree, in arcseconds.
pub const DEGREE: i64 = 3600;

/// Why a tile was refused.
#[derive(Debug, Clone, Copy, PartialEq, Eq)]
pub enum SkyError {
    /// The tile is not contained in the domain's region.
    OutOfDomain,
}

/// The domain: a fixed region, a margin, and the tiles stored so far
/// (reflected copies included), in order of registration.
pub struct Sky {
    region: Rectangle,
    tiles: Vec<Rectangle>,
    max_border: i64,
}

/// `v` lies within `COORD_LIMIT` of zero.
pub open spec fn in_limit(v: int) -> bool {
    -COORD_LIMIT <= v <= COORD_LIMIT
}

/// A region whose bounds are ordered and within `COORD_LIMIT`.
pub open spec fn region_ok(region: Rectangle) -> bool {
    region.wf() && in_limit(region.x_min as int) && in_limit(region.y_min as int) && in_limit(
        region.x_max as int,
    ) && in_limit(region.y_max as int)
}

/// The tile bound `t` lies closer than `margin` to the region bound `r`.
pub open spec fn near(r: i64, t: i64, margin: int) -> bool {
    abs(r - t) < margin
}

/// The corner `(tx, ty)` of a tile lies closer than `margin`, in Euclidean
/// distance, to the corner `(cx, cy)` of the region, both edges being near.
pub open spec fn near_corner(cx: i64, cy: i64, tx: i64, ty: i64, margin: int) -> bool {
    near(cx, tx, margin) && near(cy, ty, margin) && (cx - tx) * (cx - tx) + (cy - ty) * (cy
        - ty) < margin * margin
}

/// `t` translated by `(dx, dy)`, tag kept.
pub open spec fn shifted(t: Rectangle, dx: int, dy: int) -> Rectangle {
    Rectangle {
        x_min: (t.x_min + dx) as i64,
        y_min: (t.y_min + dy) as i64,
        x_max: (t.x_max + dx) as i64,
        y_max: (t.y_max + dy) as i64,
        tag: t.tag,
    }
}

/// `r` alone where `b` holds, else nothing.
pub open spec fn when(b: bool, r: Rectangle) -> Seq<Rectangle> {
    if b {
        seq![r]
    } else {
        seq![]
    }
}

/// The extent of the region along x.
pub open spec fn width(region: Rectangle) -> int {
    region.x_max - region.x_min
}

/// The extent of the region along y.
pub open spec fn height(region: Rectangle) -> int {
    region.y_max - region.y_min
}

/// The copies of `t` past the opposite edge, for each of the bounds
/// `x_min`, `y_min`, `x_max`, `y_max` (in that order) that `t` is near.
/// Each one continues `t` periodically: `t` moved by the region's extent.
pub open spec fn edge_ghosts(region: Rectangle, margin: int, t: Rectangle) -> Seq<Rectangle> {
    let w = width(region);
    let h = height(region);
    when(near(region.x_min, t.x_min, margin), shifted(t, w, 0)) + when(
        near(region.y_min, t.y_min, margin),
        shifted(t, 0, h),
    ) + when(near(region.x_max, t.x_max, margin), shifted(t, -w, 0)) + when(
        near(region.y_max, t.y_max, margin),
        shifted(t, 0, -h),
    )
}

/// The diagonal copies of `t`, for each corner of the region that `t` is near,
/// in the order (x_min, y_min), (x_min, y_max), (x_max, y_min), (x_max, y_max):
/// `t` moved across both axes at once.
pub open spec fn corner_ghosts(region: Rectangle, margin: int, t: Rectangle) -> Seq<Rectangle> {
    let w = width(region);
    let h = height(region);
    when(
        near_corner(region.x_min, region.y_min, t.x_min, t.y_min, margin),
        shifted(t, w, h),
    ) + when(
        near_corner(region.x_min, region.y_max, t.x_min, t.y_max, margin),
        shifted(t, w, -h),
    ) + when(
        near_corner(region.x_max, region.y_min, t.x_max, t.y_min, margin),
        shifted(t, -w, h),
    ) + when(
        near_corner(region.x_max, region.y_max, t.x_max, t.y_max, margin),
        shifted(t, -w, -h),
    )
}

/// Every reflected copy of `t`: edges first, then corners.
pub open spec fn ghosts(region: Rectangle, margin: int, t: Rectangle) -> Seq<Rectangle> {
    edge_ghosts(region, margin, t) + corner_ghosts(region, margin, t)
}

/// `v * v`, for `v` small enough.
fn square(v: i64) -> (r: i128)
    requires
        -4 * COORD_LIMIT <= v <= 4 * COORD_LIMIT,
    ensures
        r == v * v,
        0 <= r <= 16 * COORD_LIMIT * COORD_LIMIT,
{
    let w = v as i128;
    assert(w * w <= 16 * COORD_LIMIT * COORD_LIMIT) by (nonlinear_arith)
        requires
            -4 * COORD_LIMIT <= w <= 4 * COORD_LIMIT,
    ;
    assert(0 <= w * w) by (nonlinear_arith);
    w * w
}

/// `|v|`.
fn magnitude(v: i64) -> (r: i64)
    requires
        v > i64::MIN,
    ensures
        r == abs(v as int),
{
    if v < 0 {
        -v
    } else {
        v
    }
}

/// `t` translated by `(dx, dy)`.
fn shift(t: &Rectangle, dx: i64, dy: i64) -> (r: Rectangle)
    requires
        in_limit(t.x_min as int),
        in_limit(t.y_min as int),
        in_limit(t.x_max as int),
        in_limit(t.y_max as int),
        -2 * COORD_LIMIT <= dx <= 2 * COORD_LIMIT,
        -2 * COORD_LIMIT <= dy <= 2 * COORD_LIMIT,
    ensures
        r == shifted(*t, dx as int, dy as int),
{
    Rectangle {
        x_min: t.x_min + dx,
        y_min: t.y_min + dy,
        x_max: t.x_max + dx,
        y_max: t.y_max + dy,
        tag: t.tag,
    }
}

impl Sky {
    pub closed spec fn region_spec(&self) -> Rectangle {
        self.region
    }

    pub closed spec fn margin_spec(&self) -> int {
        self.max_border as int
    }

    pub closed spec fn tiles_spec(&self) -> Seq<Rectangle> {
        self.tiles@
    }

    /// The region is ordered and within `COORD_LIMIT`; the margin is
    /// non-negative and at most `COORD_LIMIT`.
    pub closed spec fn wf(&self) -> bool {
        region_ok(self.region) && 0 <= self.max_border <= COORD_LIMIT
    }

    /// An empty domain over `region`, with the given margin.
    pub fn new(region: Rectangle, margin: i64) -> (r: Self)
        requires
            region_ok(region),
            0 <= margin <= COORD_LIMIT,
        ensures
            r.wf(),
            r.region_spec() == region,
            r.margin_spec() == margin,
            r.tiles_spec() == Seq::<Rectangle>::empty(),
    {
        Sky { region, tiles: Vec::new(), max_border: margin }
    }

    /// The whole celestial sphere, longitudes 0 to 360 degrees and latitudes
    /// -90 to 90 degrees, with a margin of 5 degrees.
    pub fn full_sky() -> (r: Self)
        ensures
            r.wf(),
            r.region_spec() == (Rectangle {
                x_min: 0,
                y_min: (-90 * DEGREE) as i64,
                x_max: (360 * DEGREE) as i64,
                y_max: (90 * DEGREE) as i64,
                tag: None,
            }),
            r.margin_spec() == 5 * DEGREE,
            r.tiles_spec() == Seq::<Rectangle>::empty(),
    {
        let region = Rectangle::new(0, -90 * DEGREE, 360 * DEGREE, 90 * DEGREE, None);
        Sky::new(region, 5 * DEGREE)
    }

    /// The stored tiles, in order.
    pub fn tiles(&self) -> (r: &Vec<Rectangle>)
        ensures
            r@ == self.tiles_spec(),
    {
        &self.tiles
    }

    /// Stores `tile`, after its reflected copies, if the region contains it.
    /// Returns how many boxes were stored.
    pub fn add_tile(&mut self, tile: Rectangle) -> (r: Result<usize, SkyError>)
        requires
            old(self).wf(),
            tile.wf(),
        ensures
            final(self).wf(),
            final(self).region_spec() == old(self).region_spec(),
            final(self).margin_spec() == old(self).margin_spec(),
            old(self).region_spec().encloses(tile) ==> {
                let g = ghosts(old(self).region_spec(), old(self).margin_spec(), tile);
                &&& r == Ok::<usize, SkyError>((g.len() + 1) as usize)
                &&& final(self).tiles_spec() == old(self).tiles_spec() + g + seq![tile]
            },
            !old(self).region_spec().encloses(tile) ==> r == Err::<usize, SkyError>(
                SkyError::OutOfDomain,
            ) && final(self).tiles_spec() == old(self).tiles_spec(),
    {
        if !self.region.contains(&tile) {
            return Err(SkyError::OutOfDomain);
        }
        let mut reflection = self.reflect_tile(&tile);
        let n = reflection.len();
        self.tiles.append(&mut reflection);
        self.tiles.push(tile);
        Ok(n + 1)
    }

    /// The reflected copies of a tile that the region contains.
    fn reflect_tile(&self, tile: &Rectangle) -> (r: Vec<Rectangle>)
        requires
            self.wf(),
            tile.wf(),
            self.region.encloses(*tile),
        ensures
            r@ == ghosts(self.region, self.max_border as int, *tile),
            r@.len() <= 8,
    {
        let region = &self.region;
        let m = self.max_border;
        let d = region.dbounds(tile);
        let w = region.x_max - region.x_min;
        let h = region.y_max - region.y_min;
        let mut out: Vec<Rectangle> = Vec::new();
        if magnitude(d[0]) < m {
            out.push(shift(tile, w, 0));
        }
        if magnitude(d[1]) < m {
            out.push(shift(tile, 0, h));
        }
        if magnitude(d[2]) < m {
            out.push(shift(tile, -w, 0));
        }
        if magnitude(d[3]) < m {
            out.push(shift(tile, 0, -h));
        }
        assert(out@ =~= edge_ghosts(self.region, m as int, *tile));
        let mut corners = self.reflect_tile_over_corners(tile);
        out.append(&mut corners);
        out
    }

    /// The diagonal copies of a tile that the region contains.
    fn reflect_tile_over_corners(&self, tile: &Rectangle) -> (r: Vec<Rectangle>)
        requires
            self.wf(),
            tile.wf(),
            self.region.encloses(*tile),
        ensures
            r@ == corner_ghosts(self.region, self.max_border as int, *tile),
            r@.len() <= 4,
    {
        let region = &self.region;
        let m = self.max_border;
        let w = region.x_max - region.x_min;
        let h = region.y_max - region.y_min;
        let lo_x = region.x_min - tile.x_min;
        let lo_y = region.y_min - tile.y_min;
        let hi_x = region.x_max - tile.x_max;
        let hi_y = region.y_max - tile.y_max;
        let mut out: Vec<Rectangle> = Vec::new();
        if close_to_corner(lo_x, lo_y, m) {
            out.push(shift(tile, w, h));
        }
        if close_to_corner(lo_x, hi_y, m) {
            out.push(shift(tile, w, -h));
        }
        if close_to_corner(hi_x, lo_y, m) {
            out.push(shift(tile, -w, h));
        }
        if close_to_corner(hi_x, hi_y, m) {
            out.push(shift(tile, -w, -h));
        }
        assert(out@ =~= corner_ghosts(self.region, m as int, *tile));
        out
    }
}

/// Whether a tile corner at offset `(dx, dy)` from a region corner is near it.
fn close_to_corner(dx: i64, dy: i64, m: i64) -> (r: bool)
    requires
        -2 * COORD_LIMIT <= dx <= 2 * COORD_LIMIT,
        -2 * COORD_LIMIT <= dy <= 2 * COORD_LIMIT,
        0 <= m <= COORD_LIMIT,
    ensures
        r == (abs(dx as int) < m && abs(dy as int) < m && dx * dx + dy * dy < m * m),
{
    magnitude(dx) < m && magnitude(dy) < m && square(dx) + square(dy) < square(m)
}

} // verus!
