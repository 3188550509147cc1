//! Features cut to a window. Their lines and rings are cut one by one, by a
//! cut that is handed in.

use vstd::prelude::*;

use crate::chunk;
use crate::chunk::{
    Coord, FeatureGeometry, FeatureModel, GeometryModel, Placement, Polygon, VectorChunk,
    VectorFeature,
};
use crate::geometry;
use crate::vector;
use crate::window::Bbox;

verus! {

/// Which of the lines and rings of a geometry are rings, in order.
pub open spec fn rings_among(g: GeometryModel) -> Seq<bool>
    decreases g,
{
    match g {
        GeometryModel::Point(_) => Seq::empty(),
        GeometryModel::MultiPoint(_) => Seq::empty(),
        GeometryModel::LineString(_) => seq![false],
        GeometryModel::MultiLineString(ls) => Seq::new(ls.len(), |i: int| false),
        GeometryModel::Polygon(p) => Seq::new(geometry::ring_count(p) as nat, |i: int| true),
        GeometryModel::MultiPolygon(ps) => Seq::new(geometry::rings_of(ps) as nat, |i: int| true),
        GeometryModel::GeometryCollection(ms) => all_rings_among(ms),
    }
}

pub open spec fn all_rings_among(ms: Seq<GeometryModel>) -> Seq<bool>
    decreases ms,
{
    if ms.len() == 0 {
        Seq::empty()
    } else {
        all_rings_among(ms.drop_last()) + rings_among(ms.last())
    }
}

fn push_times(out: &mut Vec<bool>, ring: bool, n: usize)
    ensures
        final(out)@ == old(out)@ + Seq::new(n as nat, |i: int| ring),
{
    let ghost start = out@;
    assert(start =~= start + Seq::new(0, |i: int| ring));
    for k in 0..n
        invariant
            out@ == start + Seq::new(k as nat, |i: int| ring),
    {
        out.push(ring);
        assert(out@ =~= start + Seq::new((k + 1) as nat, |i: int| ring));
    }
}

fn push_rings(out: &mut Vec<bool>, p: &Polygon)
    ensures
        final(out)@ == old(out)@ + Seq::new(geometry::ring_count(p@) as nat, |i: int| true),
{
    let ghost start = out@;
    out.push(true);
    push_times(out, true, p.interiors.len());
    assert(out@ =~= start + Seq::new(geometry::ring_count(p@) as nat, |i: int| true));
}

/// Append which of the lines and rings of a geometry are rings.
pub fn mark_rings(g: &FeatureGeometry, out: &mut Vec<bool>)
    ensures
        final(out)@ == old(out)@ + rings_among(g@),
    decreases *g,
{
    let ghost start = out@;
    match g {
        FeatureGeometry::Point(_) => {},
        FeatureGeometry::MultiPoint(_) => {},
        FeatureGeometry::LineString(_) => {
            out.push(false);
        },
        FeatureGeometry::MultiLineString(ls) => {
            push_times(out, false, ls.len());
        },
        FeatureGeometry::Polygon(p) => {
            push_rings(out, p);
        },
        FeatureGeometry::MultiPolygon(ps) => {
            let ghost model = chunk::polygons_model(ps@);
            assert(start =~= start + Seq::new(
                geometry::rings_of(model.take(0)) as nat,
                |i: int| true,
            ));
            for k in 0..ps.len()
                invariant
                    model == chunk::polygons_model(ps@),
                    geometry::rings_of(model.take(k as int)) >= 0,
                    out@ == start + Seq::new(
                        geometry::rings_of(model.take(k as int)) as nat,
                        |i: int| true,
                    ),
            {
                push_rings(out, &ps[k]);
                assert(model.take(k as int + 1).drop_last() =~= model.take(k as int));
                assert(out@ =~= start + Seq::new(
                    geometry::rings_of(model.take(k as int + 1)) as nat,
                    |i: int| true,
                ));
            }
            assert(model.take(model.len() as int) =~= model);
        },
        FeatureGeometry::GeometryCollection(ms) => {
            proof {
                chunk::collection_model(*ms);
            }
            let ghost model = chunk::geometries_model(ms@);
            assert(start =~= start + all_rings_among(model.take(0)));
            for k in 0..ms.len()
                invariant
                    *g == FeatureGeometry::GeometryCollection(*ms),
                    model == chunk::geometries_model(ms@),
                    out@ == start + all_rings_among(model.take(k as int)),
            {
                assert(decreases_to!(*g => g->GeometryCollection_0));
                assert(decreases_to!(*ms => ms@[k as int]));
                mark_rings(&ms[k], out);
                assert(model.take(k as int + 1).drop_last() =~= model.take(k as int));
                assert(out@ =~= start + all_rings_among(model.take(k as int + 1)));
            }
            assert(model.take(model.len() as int) =~= model);
        },
    }
    assert(out@ =~= start + rings_among(g@));
}

proof fn rings_among_count(g: GeometryModel)
    ensures
        rings_among(g).len() == geometry::cut_count(g),
    decreases g,
{
    match g {
        GeometryModel::MultiPolygon(ps) => {
            rings_are_counts(ps);
        },
        GeometryModel::GeometryCollection(ms) => {
            all_rings_among_count(ms);
        },
        _ => {},
    }
}

proof fn rings_are_counts(ps: Seq<chunk::PolygonModel>)
    ensures
        geometry::rings_of(ps) >= 0,
    decreases ps.len(),
{
    if ps.len() > 0 {
        rings_are_counts(ps.drop_last());
    }
}

proof fn all_rings_among_count(ms: Seq<GeometryModel>)
    ensures
        all_rings_among(ms).len() == geometry::members_cuts(ms),
    decreases ms,
{
    if ms.len() > 0 {
        all_rings_among_count(ms.drop_last());
        rings_among_count(ms.last());
    }
}

/// The cut that is handed in leaves these pieces of a line, or of a ring, in
/// a window.
pub open spec fn leaves<C: Fn(&Bbox, &Vec<Coord>, bool) -> Vec<Vec<Coord>>>(
    c: C,
    b: Bbox,
    line: Vec<Coord>,
    ring: bool,
    r: Vec<Vec<Coord>>,
) -> bool {
    c.ensures((&b, &line, ring), r)
}

/// The pieces that the cut may leave of a line or a ring.
pub open spec fn are_pieces<C: Fn(&Bbox, &Vec<Coord>, bool) -> Vec<Vec<Coord>>>(
    c: C,
    b: Bbox,
    line: Seq<Coord>,
    ring: bool,
    pieces: Seq<Seq<Coord>>,
) -> bool {
    exists|v: Vec<Coord>, r: Vec<Vec<Coord>>| #[trigger]
        leaves(c, b, v, ring, r) && v@ == line && chunk::lines_model(r@) == pieces
}

/// Any line and ring can be cut.
pub open spec fn can_cut<C: Fn(&Bbox, &Vec<Coord>, bool) -> Vec<Vec<Coord>>>(c: C) -> bool {
    forall|b: Bbox, line: Vec<Coord>, ring: bool| #[trigger] c.requires((&b, &line, ring))
}

/// The pieces of the lines and rings of geometries, in order.
pub open spec fn all_cut<C: Fn(&Bbox, &Vec<Coord>, bool) -> Vec<Vec<Coord>>>(
    c: C,
    b: Bbox,
    gs: Seq<GeometryModel>,
    pieces: Seq<Seq<Seq<Coord>>>,
) -> bool {
    &&& pieces.len() == geometry::members_cut_list(gs).len()
    &&& forall|i: int|
        0 <= i < pieces.len() ==> are_pieces(
            c,
            b,
            geometry::members_cut_list(gs)[i],
            all_rings_among(gs)[i],
            #[trigger] pieces[i],
        )
}

/// Cut the lines and rings of features one by one.
pub fn cut_features<C: Fn(&Bbox, &Vec<Coord>, bool) -> Vec<Vec<Coord>>>(
    c: &C,
    b: &Bbox,
    features: &Vec<VectorFeature>,
) -> (r: Vec<Vec<Vec<Coord>>>)
    requires
        can_cut(*c),
    ensures
        all_cut(
            *c,
            *b,
            vector::shapes(chunk::features_model(features@)),
            geometry::pieces_model(r@),
        ),
        r@.len() == geometry::members_cuts(vector::shapes(chunk::features_model(features@))),
{
    let ghost gs = vector::shapes(chunk::features_model(features@));
    let mut lines: Vec<Vec<Coord>> = Vec::new();
    let mut rings: Vec<bool> = Vec::new();
    assert(chunk::lines_model(lines@) =~= geometry::members_cut_list(gs.take(0)));
    assert(rings@ =~= all_rings_among(gs.take(0)));
    for i in 0..features.len()
        invariant
            gs == vector::shapes(chunk::features_model(features@)),
            chunk::lines_model(lines@) == geometry::members_cut_list(gs.take(i as int)),
            rings@ == all_rings_among(gs.take(i as int)),
    {
        assert(gs[i as int] == features@[i as int].geometry@);
        assert(gs.take(i as int + 1).drop_last() =~= gs.take(i as int));
        geometry::collect_cuts(&features[i].geometry, &mut lines);
        mark_rings(&features[i].geometry, &mut rings);
    }
    assert(gs.take(gs.len() as int) =~= gs);
    proof {
        geometry::members_cuts_count(gs);
        all_rings_among_count(gs);
    }
    let ghost ls = chunk::lines_model(lines@);
    let mut out: Vec<Vec<Vec<Coord>>> = Vec::new();
    for i in 0..lines.len()
        invariant
            can_cut(*c),
            ls == chunk::lines_model(lines@),
            rings@.len() == lines@.len(),
            out@.len() == i,
            forall|k: int|
                0 <= k < i ==> are_pieces(
                    *c,
                    *b,
                    ls[k],
                    rings@[k],
                    #[trigger] geometry::pieces_model(out@)[k],
                ),
    {
        let pieces = c(b, &lines[i], rings[i]);
        assert(leaves(*c, *b, lines@[i as int], rings@[i as int], pieces));
        assert(are_pieces(*c, *b, ls[i as int], rings@[i as int], chunk::lines_model(pieces@)));
        let ghost before = geometry::pieces_model(out@);
        let ghost added = chunk::lines_model(pieces@);
        out.push(pieces);
        assert(geometry::pieces_model(out@) =~= before.push(added));
    }
    out
}

/// Features are what a cut to a window leaves of others.
pub open spec fn clips_to<C: Fn(&Bbox, &Vec<Coord>, bool) -> Vec<Vec<Coord>>>(
    c: C,
    b: Bbox,
    fs: Seq<FeatureModel>,
    out: Seq<FeatureModel>,
) -> bool {
    exists|pieces: Seq<Seq<Seq<Coord>>>| #[trigger]
        all_cut(c, b, vector::shapes(fs), pieces) && out == vector::clipped_features(fs, b, pieces)
}

/// What is left of features in a window.
pub fn clip<C: Fn(&Bbox, &Vec<Coord>, bool) -> Vec<Vec<Coord>>>(
    c: &C,
    features: &Vec<VectorFeature>,
    b: &Bbox,
) -> (r: Vec<VectorFeature>)
    requires
        can_cut(*c),
    ensures
        clips_to(*c, *b, chunk::features_model(features@), chunk::features_model(r@)),
{
    let pieces = cut_features(c, b, features);
    vector::clip_features(features, b, &pieces)
}

impl VectorChunk {
    /// Cut the fragments to a narrower window. They keep their order.
    pub fn crop_to<C: Fn(&Bbox, &Vec<Coord>, bool) -> Vec<Vec<Coord>>>(
        &self,
        c: &C,
        bbox: Bbox,
    ) -> (r: VectorChunk)
        requires
            can_cut(*c),
        ensures
            r.place == (Placement { bbox, ..self.place }),
            clips_to(
                *c,
                bbox,
                chunk::features_model(self.features@),
                chunk::features_model(r.features@),
            ),
    {
        VectorChunk {
            features: clip(c, &self.features, &bbox),
            place: Placement { bbox, resolution: self.place.resolution, crs: self.place.crs },
        }
    }
}

} // verus!
