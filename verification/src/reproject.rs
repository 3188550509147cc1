//! Rasters and features moved to another reference system. The projection is
//! handed in.

use vstd::prelude::*;

use crate::chunk;
use crate::chunk::{
    Coord, FeatureModel, GeometryModel, Placement, RasterChunk, VectorChunk, VectorFeature,
};
use crate::cutting;
use crate::elements::{Reproject, VecReproject};
use crate::geometry;
use crate::number::Real;
use crate::sampling;
use crate::vector;
use crate::window::Bbox;

verus! {

/// Why places were not projected.
#[derive(Clone, Copy, Debug, PartialEq, Eq)]
pub enum ProjectFault<E> {
    /// Not every place came back.
    Short,
    /// The projection failed.
    Outside(E),
}

/// What the projection that is handed in makes of places.
pub open spec fn projects<E, P: Fn(&Vec<Coord>) -> Result<Vec<Coord>, E>>(
    p: P,
    from: Vec<Coord>,
    r: Result<Vec<Coord>, E>,
) -> bool {
    p.ensures((&from,), r)
}

/// Places may be projected to these.
pub open spec fn projects_to<E, P: Fn(&Vec<Coord>) -> Result<Vec<Coord>, E>>(
    p: P,
    from: Seq<Coord>,
    to: Result<Seq<Coord>, ProjectFault<E>>,
) -> bool {
    exists|v: Vec<Coord>, r: Result<Vec<Coord>, E>| #[trigger]
        projects(p, v, r) && v@ == from && to == match r {
            Err(e) => Err(ProjectFault::Outside(e)),
            Ok(w) => if w@.len() == from.len() {
                Ok(w@)
            } else {
                Err(ProjectFault::Short)
            },
        }
}

fn project<E, P: Fn(&Vec<Coord>) -> Result<Vec<Coord>, E>>(p: &P, from: &Vec<Coord>) -> (r: Result<
    Vec<Coord>,
    ProjectFault<E>,
>)
    requires
        forall|v: Vec<Coord>| #[trigger] p.requires((&v,)),
    ensures
        match r {
            Ok(to) => to@.len() == from@.len() && projects_to(*p, from@, Ok(to@)),
            Err(e) => projects_to(*p, from@, Err(e)),
        },
{
    let made = p(from);
    assert(projects(*p, *from, made));
    match made {
        Err(e) => Err(ProjectFault::Outside(e)),
        Ok(to) => if to.len() == from.len() {
            Ok(to)
        } else {
            Err(ProjectFault::Short)
        },
    }
}

impl Reproject {
    /// A raster on a window of the target: what it holds where the
    /// projection puts the centres of the window's pixels.
    pub fn compute<
        E,
        P: Fn(&Vec<Coord>) -> Result<Vec<Coord>, E>,
        L: Fn(&Placement, Coord) -> (i64, i64),
        X: Fn(&Placement, Coord, (Real, Real, Real, Real)) -> Real,
    >(
        &self,
        inverse: &P,
        l: &L,
        x: &X,
        input: &RasterChunk,
        nodata: &Vec<Vec<bool>>,
        centers: &Vec<Coord>,
        cols: usize,
        rows: usize,
        bbox: Bbox,
        resolution: Real,
    ) -> (r: Result<RasterChunk, ProjectFault<E>>)
        requires
            forall|v: Vec<Coord>| #[trigger] inverse.requires((&v,)),
            sampling::can_sample(*l, *x),
            sampling::is_flagged(*input, nodata@),
            centers@.len() == cols * rows,
        ensures
            match r {
                Ok(out) => {
                    &&& out.width == cols
                    &&& out.height == rows
                    &&& out.place == (Placement { bbox, resolution, crs: self.to })
                    &&& exists|places: Seq<Coord>|
                        projects_to(*inverse, centers@, Ok(places)) && #[trigger] sampling::lies_on(
                            *l,
                            *x,
                            *input,
                            nodata@,
                            places,
                            out,
                        )
                },
                Err(e) => projects_to(*inverse, centers@, Err(e)),
            },
    {
        match project(inverse, centers) {
            Err(e) => Err(e),
            Ok(places) => {
                let place = Placement { bbox, resolution, crs: self.to };
                Ok(sampling::resample_to_grid(l, x, input, nodata, &places, cols, rows, place))
            },
        }
    }
}

/// Features with their coordinates replaced, in order.
pub open spec fn moved(fs: Seq<FeatureModel>, to: Seq<Coord>) -> Seq<FeatureModel> {
    let gs: Seq<GeometryModel> = geometry::members_rebuilt(vector::shapes(fs), to);
    Seq::new(
        fs.len(),
        |i: int| FeatureModel { id: fs[i].id, geometry: gs[i], properties: fs[i].properties },
    )
}

impl VecReproject {
    /// Features on a window of the target: every coordinate projected, then
    /// cut to the window.
    pub fn compute<
        E,
        P: Fn(&Vec<Coord>) -> Result<Vec<Coord>, E>,
        C: Fn(&Bbox, &Vec<Coord>, bool) -> Vec<Vec<Coord>>,
    >(
        &self,
        forward: &P,
        cut: &C,
        features: &Vec<VectorFeature>,
        bbox: Bbox,
        resolution: Real,
    ) -> (r: Result<VectorChunk, ProjectFault<E>>)
        requires
            forall|v: Vec<Coord>| #[trigger] forward.requires((&v,)),
            cutting::can_cut(*cut),
        ensures
            ({
                let fs = chunk::features_model(features@);
                let from = geometry::members_coords(vector::shapes(fs));
                match r {
                    Ok(out) => {
                        &&& out.place == (Placement { bbox, resolution, crs: self.to })
                        &&& exists|to: Seq<Coord>| #[trigger]
                            projects_to(*forward, from, Ok(to)) && cutting::clips_to(
                                *cut,
                                bbox,
                                moved(fs, to),
                                chunk::features_model(out.features@),
                            )
                    },
                    Err(e) => projects_to(*forward, from, Err(e)),
                }
            }),
    {
        let ghost fs = chunk::features_model(features@);
        let ghost gs = vector::shapes(fs);
        let mut coords: Vec<Coord> = Vec::new();
        assert(coords@ =~= geometry::members_coords(gs.take(0)));
        for i in 0..features.len()
            invariant
                fs == chunk::features_model(features@),
                gs == vector::shapes(fs),
                coords@ == geometry::members_coords(gs.take(i as int)),
        {
            assert(gs[i as int] == features@[i as int].geometry@);
            assert(gs.take(i as int + 1).drop_last() =~= gs.take(i as int));
            geometry::collect_coords(&features[i].geometry, &mut coords);
        }
        assert(gs.take(gs.len() as int) =~= gs);
        match project(forward, &coords) {
            Err(e) => Err(e),
            Ok(to) => {
                let there = vector::rebuild_features(features, &to);
                proof {
                    let made = chunk::features_model(there@);
                    assert forall|i: int| 0 <= i < made.len() implies made[i] == moved(
                        fs,
                        to@,
                    )[i] by {
                        assert(vector::shapes(made)[i] == made[i].geometry);
                        assert(there@[i]@.properties == features@[i]@.properties);
                    }
                    assert(made =~= moved(fs, to@));
                }
                let left = cutting::clip(cut, &there, &bbox);
                Ok(
                    VectorChunk {
                        features: left,
                        place: Placement { bbox, resolution, crs: self.to },
                    },
                )
            },
        }
    }
}

} // verus!
