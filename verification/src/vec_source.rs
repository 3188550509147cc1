//! A feature collection held whole. A coarse level simplifies whole features
//! first, so that every tile sees the same simplified geometry, drops
//! features smaller than a pixel, then clips to the window; the finest level
//! is the raw geometry.
//!
//! Lengths, sizes, simplification and the cuts are floating-point work and
//! handed in.

use vstd::prelude::*;

use crate::caps::{Constraint, ConstraintModel, Crs, PatternModel};
use crate::chunk;
use crate::chunk::{
    Coord, FeatureGeometry, FeatureModel, GeometryModel, Placement, VectorChunk, VectorFeature,
};
use crate::cutting;
use crate::dissolve;
use crate::elements;
use crate::error::Error;
use crate::geometry;
use crate::json;
use crate::json::Json;
use crate::number::Real;
use crate::vector;
use crate::window::{Bbox, GridSpec};

verus! {

/// A feature collection and the grid that it is served on.
#[derive(Debug)]
pub struct VecSrc {
    pub features: Vec<VectorFeature>,
    pub origin_x: Real,
    pub origin_y: Real,
    pub base_resolution: Real,
    pub crs: Crs,
}

// Opening.

/// The ends of every segment of the first `n` features.
pub open spec fn feature_segments(fs: Seq<FeatureModel>, n: int) -> Seq<(Coord, Coord)>
    decreases n,
{
    if n <= 0 {
        Seq::empty()
    } else {
        feature_segments(fs, n - 1) + vector::all_segments(geometry::cuts_of(fs[n - 1].geometry))
    }
}

/// The lengths of segments, by the measure that is handed in.
pub open spec fn measured<L: Fn(Coord, Coord) -> Real>(
    l: L,
    segments: Seq<(Coord, Coord)>,
    lengths: Seq<Real>,
) -> bool {
    &&& lengths.len() == segments.len()
    &&& forall|i: int|
        0 <= i < lengths.len() ==> l.ensures(
            (segments[i].0, segments[i].1),
            #[trigger] lengths[i],
        )
}

/// The base resolution of a collection: the middle of the lengths above
/// zero, and without one what is handed in makes of the box around it.
pub open spec fn is_base<D: Fn(&Bbox) -> Real>(
    d: D,
    lengths: Seq<Real>,
    b: Bbox,
    base: Real,
) -> bool {
    if vector::positive(lengths).len() > 0 {
        vector::is_middle(vector::positive(lengths), base)
    } else {
        d.ensures((&b,), base)
    }
}

/// A source is what a collection opens as.
pub open spec fn opens_as<L: Fn(Coord, Coord) -> Real, D: Fn(&Bbox) -> Real>(
    l: L,
    d: D,
    fs: Seq<FeatureModel>,
    b: Bbox,
    crs: Crs,
    src: VecSrc,
) -> bool {
    &&& chunk::features_model(src.features@) == fs
    &&& src.origin_x == b.min_x
    &&& src.origin_y == b.max_y
    &&& src.crs == crs
    &&& exists|lengths: Seq<Real>| #[trigger]
        measured(l, feature_segments(fs, fs.len() as int), lengths) && is_base(
            d,
            lengths,
            b,
            src.base_resolution,
        )
}

fn measure<L: Fn(Coord, Coord) -> Real>(l: &L, features: &Vec<VectorFeature>) -> (r: Vec<Real>)
    requires
        forall|a: Coord, b: Coord| #[trigger] l.requires((a, b)),
    ensures
        measured(
            *l,
            feature_segments(chunk::features_model(features@), features@.len() as int),
            r@,
        ),
{
    let ghost fs = chunk::features_model(features@);
    let mut out: Vec<Real> = Vec::new();
    for i in 0..features.len()
        invariant
            fs == chunk::features_model(features@),
            forall|a: Coord, b: Coord| #[trigger] l.requires((a, b)),
            measured(*l, feature_segments(fs, i as int), out@),
    {
        let segments = vector::segments(&features[i].geometry);
        let ghost before = feature_segments(fs, i as int);
        let ghost all = feature_segments(fs, i + 1);
        assert(fs[i as int].geometry == features@[i as int].geometry@);
        assert(all == before + segments@);
        for k in 0..segments.len()
            invariant
                forall|a: Coord, b: Coord| #[trigger] l.requires((a, b)),
                all == before + segments@,
                out@.len() == before.len() + k,
                forall|j: int|
                    0 <= j < out@.len() ==> l.ensures((all[j].0, all[j].1), #[trigger] out@[j]),
        {
            let (a, b) = segments[k];
            assert(all[before.len() + k] == segments@[k as int]);
            out.push(l(a, b));
        }
    }
    out
}

impl VecSrc {
    /// Number the features that have a geometry and lay the grid: its origin
    /// is the upper left corner of the box around them, its resolution their
    /// middle segment length.
    pub fn new<L: Fn(Coord, Coord) -> Real, D: Fn(&Bbox) -> Real>(
        l: &L,
        d: &D,
        items: &Vec<(Option<FeatureGeometry>, Vec<(String, Json)>)>,
        crs: Crs,
    ) -> (r: Result<VecSrc, Error>)
        requires
            forall|a: Coord, b: Coord| #[trigger] l.requires((a, b)),
            forall|b: Bbox| #[trigger] d.requires((&b,)),
        ensures
            ({
                let fs = vector::numbered(items@, items@.len() as int);
                match vector::extent(fs, fs.len() as int) {
                    Some(b) => r matches Ok(src) && opens_as(*l, *d, fs, b, crs, src),
                    None => r matches Err(Error::Source(t)) && t@ == "empty feature collection"@,
                }
            }),
    {
        let features = vector::number_features(items);
        let envelope: Bbox = match vector::collection_envelope(&features) {
            Some(b) => b,
            None => {
                return Err(Error::Source(String::from_str("empty feature collection")));
            },
        };
        let lengths = measure(l, &features);
        let base_resolution: Real = match vector::median_length(&lengths) {
            Some(v) => v,
            None => d(&envelope),
        };
        Ok(
            VecSrc {
                features,
                origin_x: envelope.min_x,
                origin_y: envelope.max_y,
                base_resolution,
                crs,
            },
        )
    }

    pub fn constraint(&self) -> (r: Constraint)
        ensures
            r@ == ConstraintModel::Produces(
                seq![
                    PatternModel::Vector(elements::area_offer(self.crs, self.base_resolution)),
                ],
            ),
    {
        elements::vector_source(self.crs, self.base_resolution)
    }

    pub fn grid(&self) -> (r: GridSpec)
        ensures
            r == (GridSpec {
                origin_x: self.origin_x,
                origin_y: self.origin_y,
                base_resolution: self.base_resolution,
                chunk_px: elements::SOURCE_CHUNK_PX,
            }),
    {
        elements::source_grid(self.origin_x, self.origin_y, self.base_resolution)
    }
}

// Levels.

/// The simplification that is handed in makes this of a line at a
/// resolution.
pub open spec fn thins<S: Fn(&Vec<Coord>, Real) -> Vec<Coord>>(
    s: S,
    line: Vec<Coord>,
    resolution: Real,
    r: Vec<Coord>,
) -> bool {
    s.ensures((&line, resolution), r)
}

/// A line may be simplified to this.
pub open spec fn thins_to<S: Fn(&Vec<Coord>, Real) -> Vec<Coord>>(
    s: S,
    line: Seq<Coord>,
    resolution: Real,
    r: Seq<Coord>,
) -> bool {
    exists|v: Vec<Coord>, t: Vec<Coord>| #[trigger]
        thins(s, v, resolution, t) && v@ == line && t@ == r
}

/// The simplified forms of the lines and rings of a geometry, in order.
pub open spec fn are_thinned<S: Fn(&Vec<Coord>, Real) -> Vec<Coord>>(
    s: S,
    resolution: Real,
    g: GeometryModel,
    pieces: Seq<Seq<Seq<Coord>>>,
) -> bool {
    &&& pieces.len() == geometry::cuts_of(g).len()
    &&& forall|i: int|
        0 <= i < pieces.len() ==> (#[trigger] pieces[i]).len() == 1 && thins_to(
            s,
            geometry::cuts_of(g)[i],
            resolution,
            pieces[i][0],
        )
}

/// The test that is handed in says whether a box is smaller than a pixel.
pub open spec fn is_smaller<T: Fn(&Bbox, Real) -> bool>(
    t: T,
    b: Bbox,
    resolution: Real,
    r: bool,
) -> bool {
    t.ensures((&b, resolution), r)
}

/// What a geometry is at a level. What is smaller than a pixel goes, unless
/// it is a point.
pub open spec fn levels_to<S: Fn(&Vec<Coord>, Real) -> Vec<Coord>, T: Fn(&Bbox, Real) -> bool>(
    s: S,
    t: T,
    resolution: Real,
    g: GeometryModel,
    r: Option<GeometryModel>,
) -> bool {
    exists|pieces: Seq<Seq<Seq<Coord>>>, small: bool|
        {
            &&& #[trigger] are_thinned(s, resolution, g, pieces)
            &&& #[trigger] is_smaller(t, geometry::box_around(geometry::coords_of(g)), resolution, small)
            &&& r == if small && !(g is Point) {
                None
            } else {
                vector::simplified(g, pieces)
            }
        }
}

/// Features are what is left of the first `n` at a level, each with its id
/// and properties.
pub open spec fn levelled<S: Fn(&Vec<Coord>, Real) -> Vec<Coord>, T: Fn(&Bbox, Real) -> bool>(
    s: S,
    t: T,
    resolution: Real,
    fs: Seq<FeatureModel>,
    out: Seq<FeatureModel>,
    n: int,
) -> bool
    decreases n,
{
    if n <= 0 {
        out.len() == 0
    } else {
        let f = fs[n - 1];
        ||| levels_to(s, t, resolution, f.geometry, None) && levelled(
            s,
            t,
            resolution,
            fs,
            out,
            n - 1,
        )
        ||| {
            &&& out.len() > 0
            &&& out.last().id == f.id
            &&& out.last().properties == f.properties
            &&& levels_to(s, t, resolution, f.geometry, Some(out.last().geometry))
            &&& levelled(s, t, resolution, fs, out.drop_last(), n - 1)
        }
    }
}

/// Any line can be simplified and any box compared.
pub open spec fn can_level<S: Fn(&Vec<Coord>, Real) -> Vec<Coord>, T: Fn(&Bbox, Real) -> bool>(
    s: S,
    t: T,
) -> bool {
    &&& forall|line: Vec<Coord>, resolution: Real| #[trigger] s.requires((&line, resolution))
    &&& forall|b: Bbox, resolution: Real| #[trigger] t.requires((&b, resolution))
}

fn simplify<S: Fn(&Vec<Coord>, Real) -> Vec<Coord>, T: Fn(&Bbox, Real) -> bool>(
    s: &S,
    t: &T,
    resolution: Real,
    g: &FeatureGeometry,
) -> (r: Option<FeatureGeometry>)
    requires
        can_level(*s, *t),
    ensures
        levels_to(*s, *t, resolution, g@, dissolve::shape_of(r)),
{
    let envelope = geometry::geometry_envelope(g);
    let small: bool = t(&envelope, resolution);
    assert(is_smaller(*t, envelope, resolution, small));
    let mut lines: Vec<Vec<Coord>> = Vec::new();
    geometry::collect_cuts(g, &mut lines);
    let ghost ls = chunk::lines_model(lines@);
    assert(ls =~= geometry::cuts_of(g@));
    proof {
        geometry::cuts_count(g@);
    }
    let mut pieces: Vec<Vec<Vec<Coord>>> = Vec::new();
    for i in 0..lines.len()
        invariant
            can_level(*s, *t),
            ls == chunk::lines_model(lines@),
            pieces@.len() == i,
            forall|k: int|
                0 <= k < i ==> (#[trigger] geometry::pieces_model(pieces@)[k]).len() == 1
                    && thins_to(*s, ls[k], resolution, geometry::pieces_model(pieces@)[k][0]),
    {
        let thin = s(&lines[i], resolution);
        assert(thins(*s, lines@[i as int], resolution, thin));
        assert(thins_to(*s, ls[i as int], resolution, thin@));
        let ghost before = geometry::pieces_model(pieces@);
        let ghost added = thin@;
        let piece = vec![thin];
        assert(chunk::lines_model(piece@) =~= seq![added]);
        pieces.push(piece);
        assert(geometry::pieces_model(pieces@) =~= before.push(seq![added]));
    }
    let ghost all = geometry::pieces_model(pieces@);
    assert(all.take(geometry::cut_count(g@)) =~= all);
    assert(are_thinned(*s, resolution, g@, all));
    vector::simplify_geometry(g, small, &pieces)
}

fn simplify_features<S: Fn(&Vec<Coord>, Real) -> Vec<Coord>, T: Fn(&Bbox, Real) -> bool>(
    s: &S,
    t: &T,
    resolution: Real,
    features: &Vec<VectorFeature>,
) -> (r: Vec<VectorFeature>)
    requires
        can_level(*s, *t),
    ensures
        levelled(
            *s,
            *t,
            resolution,
            chunk::features_model(features@),
            chunk::features_model(r@),
            features@.len() as int,
        ),
{
    let ghost fs = chunk::features_model(features@);
    let mut out: Vec<VectorFeature> = Vec::new();
    for i in 0..features.len()
        invariant
            fs == chunk::features_model(features@),
            can_level(*s, *t),
            levelled(*s, *t, resolution, fs, chunk::features_model(out@), i as int),
    {
        let f = &features[i];
        assert(fs[i as int] == f@);
        let ghost before = chunk::features_model(out@);
        if let Some(geometry) = simplify(s, t, resolution, &f.geometry) {
            let kept = VectorFeature {
                id: f.id,
                geometry,
                properties: json::copy_members(&f.properties),
            };
            let ghost added = kept@;
            out.push(kept);
            proof {
                let after = chunk::features_model(out@);
                assert(after =~= before.push(added));
                assert(after.drop_last() =~= before);
            }
        }
    }
    out
}

impl VecSrc {
    /// The features of a window, simplified first where it is coarser than
    /// the collection.
    pub fn read<
        S: Fn(&Vec<Coord>, Real) -> Vec<Coord>,
        T: Fn(&Bbox, Real) -> bool,
        C: Fn(&Bbox, &Vec<Coord>, bool) -> Vec<Vec<Coord>>,
    >(&self, s: &S, t: &T, cut: &C, bbox: Bbox, resolution: Real) -> (r: VectorChunk)
        requires
            can_level(*s, *t),
            cutting::can_cut(*cut),
        ensures
            r.place == (Placement { bbox, resolution, crs: self.crs }),
            ({
                let fs = chunk::features_model(self.features@);
                let out = chunk::features_model(r.features@);
                if self.base_resolution.below(resolution) {
                    exists|level: Seq<FeatureModel>| #[trigger]
                        levelled(*s, *t, resolution, fs, level, fs.len() as int)
                            && cutting::clips_to(*cut, bbox, level, out)
                } else {
                    cutting::clips_to(*cut, bbox, fs, out)
                }
            }),
    {
        let ghost fs = chunk::features_model(self.features@);
        let features = if self.base_resolution.lt(resolution) {
            let level = simplify_features(s, t, resolution, &self.features);
            let ghost kept = chunk::features_model(level@);
            assert(levelled(*s, *t, resolution, fs, kept, fs.len() as int));
            cutting::clip(cut, &level, &bbox)
        } else {
            cutting::clip(cut, &self.features, &bbox)
        };
        VectorChunk { features, place: Placement { bbox, resolution, crs: self.crs } }
    }
}

// Seams.

/// The same line is always simplified to the same, and the same box always
/// compares alike.
pub open spec fn always_alike<S: Fn(&Vec<Coord>, Real) -> Vec<Coord>, T: Fn(&Bbox, Real) -> bool>(
    s: S,
    t: T,
) -> bool {
    &&& forall|line: Seq<Coord>, resolution: Real, a: Seq<Coord>, b: Seq<Coord>| #[trigger]
        thins_to(s, line, resolution, a) && #[trigger] thins_to(s, line, resolution, b) ==> a == b
    &&& forall|b: Bbox, resolution: Real|
        !(#[trigger] is_smaller(t, b, resolution, true) && is_smaller(t, b, resolution, false))
}

proof fn one_level<S: Fn(&Vec<Coord>, Real) -> Vec<Coord>, T: Fn(&Bbox, Real) -> bool>(
    s: S,
    t: T,
    resolution: Real,
    g: GeometryModel,
    a: Option<GeometryModel>,
    b: Option<GeometryModel>,
)
    requires
        always_alike(s, t),
        levels_to(s, t, resolution, g, a),
        levels_to(s, t, resolution, g, b),
    ensures
        a == b,
{
    let around = geometry::box_around(geometry::coords_of(g));
    let (p, small) = choose|p: Seq<Seq<Seq<Coord>>>, small: bool|
        {
            &&& #[trigger] are_thinned(s, resolution, g, p)
            &&& #[trigger] is_smaller(t, around, resolution, small)
            &&& a == if small && !(g is Point) {
                None
            } else {
                vector::simplified(g, p)
            }
        };
    let (q, other) = choose|q: Seq<Seq<Seq<Coord>>>, other: bool|
        {
            &&& #[trigger] are_thinned(s, resolution, g, q)
            &&& #[trigger] is_smaller(t, around, resolution, other)
            &&& b == if other && !(g is Point) {
                None
            } else {
                vector::simplified(g, q)
            }
        };
    assert forall|i: int| 0 <= i < p.len() implies p[i] == q[i] by {
        assert(thins_to(s, geometry::cuts_of(g)[i], resolution, p[i][0]));
        assert(thins_to(s, geometry::cuts_of(g)[i], resolution, q[i][0]));
        assert(p[i] =~= q[i]);
    }
    assert(p =~= q);
    assert(is_smaller(t, around, resolution, true) ==> !is_smaller(t, around, resolution, false));
}

/// Every tile of a level is cut from the same simplified features: there is
/// one list of them.
pub proof fn tiles_share_a_level<
    S: Fn(&Vec<Coord>, Real) -> Vec<Coord>,
    T: Fn(&Bbox, Real) -> bool,
>(
    s: S,
    t: T,
    resolution: Real,
    fs: Seq<FeatureModel>,
    a: Seq<FeatureModel>,
    b: Seq<FeatureModel>,
    n: int,
)
    requires
        always_alike(s, t),
        0 <= n <= fs.len(),
        levelled(s, t, resolution, fs, a, n),
        levelled(s, t, resolution, fs, b, n),
    ensures
        a == b,
    decreases n,
{
    if n > 0 {
        let g = fs[n - 1].geometry;
        let none = None::<GeometryModel>;
        if levels_to(s, t, resolution, g, none) {
            if a.len() > 0 && levels_to(s, t, resolution, g, Some(a.last().geometry)) {
                one_level(s, t, resolution, g, none, Some(a.last().geometry));
            }
            if b.len() > 0 && levels_to(s, t, resolution, g, Some(b.last().geometry)) {
                one_level(s, t, resolution, g, none, Some(b.last().geometry));
            }
            tiles_share_a_level(s, t, resolution, fs, a, b, n - 1);
        } else {
            one_level(
                s,
                t,
                resolution,
                g,
                Some(a.last().geometry),
                Some(b.last().geometry),
            );
            tiles_share_a_level(s, t, resolution, fs, a.drop_last(), b.drop_last(), n - 1);
            assert(a.last() == b.last());
            assert(a =~= a.drop_last().push(a.last()));
            assert(b =~= b.drop_last().push(b.last()));
        }
    } else {
        assert(a =~= b);
    }
}

} // verus!
