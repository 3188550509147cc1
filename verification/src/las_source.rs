//! A point cloud held whole. A coarse level thins the points of a window;
//! the finest level is the raw cloud. Spacing and thinning are
//! floating-point work and handed in.

use vstd::prelude::*;

use crate::caps::{Constraint, ConstraintModel, Crs, PatternModel};
use crate::chunk::{Coord, FeatureGeometry, GeometryModel, Placement, Point3, PointChunk};
use crate::chunk_ops;
use crate::elements;
use crate::error::Error;
use crate::geometry;
use crate::number::Real;
use crate::window::{Bbox, GridSpec};

verus! {

/// A point cloud and the grid that it is served on.
#[derive(Debug)]
pub struct LasSrc {
    pub points: Vec<Point3>,
    pub origin_x: Real,
    pub origin_y: Real,
    pub base_resolution: Real,
    pub crs: Crs,
}

/// Where points lie in the plane.
pub open spec fn places(points: Seq<Point3>) -> Seq<Coord> {
    Seq::new(points.len(), |i: int| Coord { x: points[i].x, y: points[i].y })
}

/// The points that a window holds.
pub open spec fn held(points: Seq<Point3>, b: Bbox) -> Seq<Point3> {
    points.filter(|p: Point3| geometry::inside(b, Coord { x: p.x, y: p.y }))
}

/// The thinning that is handed in leaves these points at a resolution.
pub open spec fn thins<T: Fn(&Vec<Point3>, Real) -> Vec<Point3>>(
    t: T,
    points: Vec<Point3>,
    resolution: Real,
    r: Vec<Point3>,
) -> bool {
    t.ensures((&points, resolution), r)
}

/// Points may be thinned to these.
pub open spec fn thins_to<T: Fn(&Vec<Point3>, Real) -> Vec<Point3>>(
    t: T,
    points: Seq<Point3>,
    resolution: Real,
    r: Seq<Point3>,
) -> bool {
    exists|v: Vec<Point3>, left: Vec<Point3>| #[trigger]
        thins(t, v, resolution, left) && v@ == points && left@ == r
}

impl LasSrc {
    /// Lay the grid of a cloud: its origin is the upper left corner of the
    /// box around the points, its resolution the spacing that the box and
    /// the count suggest.
    pub fn new<S: Fn(&Bbox, usize) -> Real>(s: &S, points: Vec<Point3>, crs: Crs) -> (r: Result<
        LasSrc,
        Error,
    >)
        requires
            forall|b: Bbox, n: usize| #[trigger] s.requires((&b, n)),
        ensures
            if points@.len() == 0 {
                r matches Err(Error::Source(t)) && t@ == "empty point cloud"@
            } else {
                let b = geometry::box_around(places(points@));
                r matches Ok(src) && {
                    &&& src.points == points
                    &&& src.origin_x == b.min_x
                    &&& src.origin_y == b.max_y
                    &&& src.crs == crs
                    &&& s.ensures((&b, points@.len() as usize), src.base_resolution)
                }
            },
    {
        if points.len() == 0 {
            return Err(Error::Source(String::from_str("empty point cloud")));
        }
        let mut coords: Vec<Coord> = Vec::new();
        for i in 0..points.len()
            invariant
                coords@ == places(points@).take(i as int),
        {
            coords.push(Coord { x: points[i].x, y: points[i].y });
            assert(coords@ =~= places(points@).take(i + 1));
        }
        assert(coords@ =~= places(points@));
        let all = FeatureGeometry::MultiPoint(coords);
        assert(geometry::coords_of(all@) == places(points@));
        let b = geometry::geometry_envelope(&all);
        let base_resolution: Real = s(&b, points.len());
        Ok(LasSrc { points, origin_x: b.min_x, origin_y: b.max_y, base_resolution, crs })
    }

    pub fn constraint(&self) -> (r: Constraint)
        ensures
            r@ == ConstraintModel::Produces(
                seq![
                    PatternModel::PointCloud(elements::area_offer(self.crs, self.base_resolution)),
                ],
            ),
    {
        elements::point_source(self.crs, self.base_resolution)
    }

    pub fn grid(&self) -> (r: GridSpec)
        ensures
            r == (GridSpec {
                origin_x: self.origin_x,
                origin_y: self.origin_y,
                base_resolution: self.base_resolution,
                chunk_px: elements::SOURCE_CHUNK_PX,
            }),
    {
        elements::source_grid(self.origin_x, self.origin_y, self.base_resolution)
    }

    /// The points of a window, thinned where it is coarser than the cloud.
    pub fn read<T: Fn(&Vec<Point3>, Real) -> Vec<Point3>>(
        &self,
        t: &T,
        bbox: Bbox,
        resolution: Real,
    ) -> (r: PointChunk)
        requires
            forall|v: Vec<Point3>, resolution: Real| #[trigger] t.requires((&v, resolution)),
        ensures
            r.place == (Placement { bbox, resolution, crs: self.crs }),
            if self.base_resolution.below(resolution) {
                thins_to(*t, held(self.points@, bbox), resolution, r.points@)
            } else {
                r.points@ == held(self.points@, bbox)
            },
    {
        let mut kept: Vec<Point3> = Vec::new();
        chunk_ops::keep_points(&self.points, &bbox, &mut kept);
        assert(kept@ =~= held(self.points@, bbox));
        let points = if self.base_resolution.lt(resolution) {
            let left = t(&kept, resolution);
            assert(thins(*t, kept, resolution, left));
            left
        } else {
            kept
        };
        PointChunk { points, place: Placement { bbox, resolution, crs: self.crs } }
    }
}

} // verus!
