//! Features as a source serves them: numbered, simplified for a level and
//! clipped to a tile.

use vstd::prelude::*;

use crate::chunk;
use crate::chunk::{
    Coord, FeatureGeometry, FeatureModel, GeometryModel, Placement, VectorChunk, VectorFeature,
};
use crate::fragments;
use crate::geometry;
use crate::json;
use crate::json::Json;
use crate::number::Real;
use crate::ranks;
use crate::window::Bbox;

verus! {

/// A geometry, members and all.
pub fn copy_geometry(g: &FeatureGeometry) -> (r: FeatureGeometry)
    ensures
        r@ == g@,
{
    let cs = geometry::all_coords(g);
    let (r, end) = geometry::rebuild(g, &cs, 0);
    proof {
        assert(cs@.subrange(0, end as int) =~= cs@);
        geometry::rebuilding_undoes_collecting(g@);
    }
    r
}

// Opening a collection.

/// The features with a geometry among the first `n`, numbered in order.
pub open spec fn numbered(items: Seq<(Option<FeatureGeometry>, Vec<(String, Json)>)>, n: int) -> Seq<
    FeatureModel,
>
    decreases n,
{
    if n <= 0 {
        Seq::empty()
    } else {
        let before = numbered(items, n - 1);
        match items[n - 1].0 {
            Some(g) => before.push(
                FeatureModel {
                    id: before.len() as u64,
                    geometry: g@,
                    properties: json::members_model(items[n - 1].1@),
                },
            ),
            None => before,
        }
    }
}

proof fn numbered_is_short(items: Seq<(Option<FeatureGeometry>, Vec<(String, Json)>)>, n: int)
    requires
        0 <= n,
    ensures
        numbered(items, n).len() <= n,
    decreases n,
{
    if n > 0 {
        numbered_is_short(items, n - 1);
    }
}

/// Number the features that have a geometry, in collection order.
pub fn number_features(items: &Vec<(Option<FeatureGeometry>, Vec<(String, Json)>)>) -> (r: Vec<VectorFeature>)
    ensures
        chunk::features_model(r@) == numbered(items@, items@.len() as int),
{
    let mut out: Vec<VectorFeature> = Vec::new();
    assert(chunk::features_model(out@) =~= Seq::empty());
    for i in 0..items.len()
        invariant
            chunk::features_model(out@) == numbered(items@, i as int),
    {
        if let Some(g) = &items[i].0 {
            let ghost before = chunk::features_model(out@);
            let f = VectorFeature {
                id: out.len() as u64,
                geometry: copy_geometry(g),
                properties: json::copy_members(&items[i].1),
            };
            let ghost added = f@;
            out.push(f);
            assert(chunk::features_model(out@) =~= before.push(added));
        }
    }
    out
}

/// Ids are places: no two features share one.
pub proof fn ids_are_places(items: Seq<(Option<FeatureGeometry>, Vec<(String, Json)>)>, n: int)
    requires
        0 <= n <= items.len() <= u64::MAX,
    ensures
        forall|i: int|
            0 <= i < numbered(items, n).len() ==> (#[trigger] numbered(items, n)[i]).id == i,
    decreases n,
{
    if n > 0 {
        ids_are_places(items, n - 1);
        numbered_is_short(items, n - 1);
    }
}

/// The box around two boxes.
pub open spec fn around_both(a: Bbox, b: Bbox) -> Bbox {
    Bbox {
        min_x: a.min_x.smaller(b.min_x),
        min_y: a.min_y.smaller(b.min_y),
        max_x: a.max_x.larger(b.max_x),
        max_y: a.max_y.larger(b.max_y),
    }
}

/// The box around the first `n` features.
pub open spec fn extent(fs: Seq<FeatureModel>, n: int) -> Option<Bbox>
    decreases n,
{
    if n <= 0 {
        None
    } else {
        let own = geometry::box_around(geometry::coords_of(fs[n - 1].geometry));
        match extent(fs, n - 1) {
            None => Some(own),
            Some(b) => Some(around_both(b, own)),
        }
    }
}

/// The box around all features, none where there is no feature.
pub fn collection_envelope(features: &Vec<VectorFeature>) -> (r: Option<Bbox>)
    ensures
        r == extent(chunk::features_model(features@), features@.len() as int),
{
    let ghost fs = chunk::features_model(features@);
    let mut r: Option<Bbox> = None;
    for i in 0..features.len()
        invariant
            fs == chunk::features_model(features@),
            r == extent(fs, i as int),
    {
        assert(fs[i as int].geometry == features@[i as int].geometry@);
        let own = geometry::geometry_envelope(&features[i].geometry);
        r = match r {
            None => Some(own),
            Some(b) => Some(
                Bbox {
                    min_x: b.min_x.min(own.min_x),
                    min_y: b.min_y.min(own.min_y),
                    max_x: b.max_x.max(own.max_x),
                    max_y: b.max_y.max(own.max_y),
                },
            ),
        };
    }
    r
}

/// The ends of the segments of a line or ring.
pub open spec fn line_segments(cs: Seq<Coord>) -> Seq<(Coord, Coord)> {
    Seq::new(
        if cs.len() == 0 {
            0
        } else {
            (cs.len() - 1) as nat
        },
        |i: int| (cs[i], cs[i + 1]),
    )
}

/// The ends of the segments of some lines and rings.
pub open spec fn all_segments(ls: Seq<Seq<Coord>>) -> Seq<(Coord, Coord)>
    decreases ls.len(),
{
    if ls.len() == 0 {
        Seq::empty()
    } else {
        all_segments(ls.drop_last()) + line_segments(ls.last())
    }
}

/// The ends of every segment of a geometry's lines and rings.
pub fn segments(g: &FeatureGeometry) -> (r: Vec<(Coord, Coord)>)
    ensures
        r@ == all_segments(geometry::cuts_of(g@)),
{
    let mut lines: Vec<Vec<Coord>> = Vec::new();
    geometry::collect_cuts(g, &mut lines);
    let ghost ls = chunk::lines_model(lines@);
    assert(ls =~= geometry::cuts_of(g@));
    let mut out: Vec<(Coord, Coord)> = Vec::new();
    assert(ls.take(0) =~= Seq::empty());
    for i in 0..lines.len()
        invariant
            ls == chunk::lines_model(lines@),
            out@ == all_segments(ls.take(i as int)),
    {
        let line = &lines[i];
        let n: usize = line.len();
        let ghost before = out@;
        assert(ls[i as int] == line@);
        assert(ls.take(i + 1).drop_last() =~= ls.take(i as int));
        assert(before + line_segments(line@).take(0) =~= before);
        let mut k: usize = 1;
        while k < n
            invariant
                n == line@.len(),
                1 <= k,
                n > 0 ==> k <= n,
                n == 0 ==> k == 1,
                out@ == before + line_segments(line@).take(k - 1),
            decreases n - k,
        {
            out.push((line[k - 1], line[k]));
            assert(out@ =~= before + line_segments(line@).take(k as int));
            k = k + 1;
        }
        assert(line_segments(line@).take(k - 1) =~= line_segments(line@));
    }
    assert(ls.take(ls.len() as int) =~= ls);
    out
}

/// The lengths above zero.
pub open spec fn positive(v: Seq<Real>) -> Seq<Real> {
    v.filter(|l: Real| (Real { bits: 0 }).below(l))
}

/// A number is the middle of lengths in order, the upper one of two.
pub open spec fn is_middle(lengths: Seq<Real>, v: Real) -> bool {
    exists|s: Seq<Real>| #[trigger]
        ranks::ranked(s) && s.to_multiset() == lengths.to_multiset() && s.len() == lengths.len()
            && v == s[s.len() as int / 2]
}

/// The middle of the lengths above zero, the upper one of two; none where
/// there is none.
pub fn median_length(lengths: &Vec<Real>) -> (r: Option<Real>)
    ensures
        match r {
            Some(v) => positive(lengths@).len() > 0 && is_middle(positive(lengths@), v),
            None => positive(lengths@).len() == 0,
        },
{
    let zero = Real::zero();
    let mut kept: Vec<Real> = Vec::new();
    proof {
        reveal(Seq::filter);
        assert(lengths@.take(0) =~= Seq::empty());
    }
    for i in 0..lengths.len()
        invariant
            zero == (Real { bits: 0 }),
            kept@ == positive(lengths@.take(i as int)),
    {
        proof {
            reveal(Seq::filter);
            assert(lengths@.take(i + 1).drop_last() =~= lengths@.take(i as int));
        }
        if zero.lt(lengths[i]) {
            kept.push(lengths[i]);
        }
    }
    assert(lengths@.take(lengths@.len() as int) =~= lengths@);
    if kept.len() == 0 {
        return None;
    }
    let s = ranks::sort_total(&kept);
    assert(ranks::ranked(s@));
    Some(s[s.len() / 2])
}

// Simplifying.

/// A line out of its simplified form.
pub open spec fn thin_lines(pieces: Seq<Seq<Seq<Coord>>>) -> Seq<Seq<Coord>> {
    Seq::new(pieces.len(), |i: int| geometry::ring_piece(pieces[i]))
}

/// A geometry out of the simplified forms of its lines and rings. A ring of
/// fewer than four coordinates encloses nothing and goes.
pub open spec fn simplified(g: GeometryModel, pieces: Seq<Seq<Seq<Coord>>>) -> Option<GeometryModel>
    decreases g,
{
    match g {
        GeometryModel::Point(_) => Some(g),
        GeometryModel::MultiPoint(_) => Some(g),
        GeometryModel::LineString(_) => Some(
            GeometryModel::LineString(geometry::ring_piece(pieces[0])),
        ),
        GeometryModel::MultiLineString(_) => Some(
            GeometryModel::MultiLineString(thin_lines(pieces)),
        ),
        GeometryModel::Polygon(_) => match geometry::recut_polygon(pieces, 4) {
            Some(p) => Some(GeometryModel::Polygon(p)),
            None => None,
        },
        GeometryModel::MultiPolygon(ps) => {
            let kept = geometry::recut_polygons(ps, pieces, 4);
            if kept.len() == 0 {
                None
            } else {
                Some(GeometryModel::MultiPolygon(kept))
            }
        },
        GeometryModel::GeometryCollection(ms) => {
            let kept = members_simplified(ms, pieces);
            if kept.len() == 0 {
                None
            } else {
                Some(GeometryModel::GeometryCollection(kept))
            }
        },
    }
}

pub open spec fn members_simplified(
    ms: Seq<GeometryModel>,
    pieces: Seq<Seq<Seq<Coord>>>,
) -> Seq<GeometryModel>
    decreases ms,
{
    if ms.len() == 0 {
        Seq::empty()
    } else {
        let n = geometry::members_cuts(ms.drop_last());
        let before = members_simplified(ms.drop_last(), pieces.take(n));
        match simplified(ms.last(), pieces.skip(n)) {
            Some(g) => before.push(g),
            None => before,
        }
    }
}

pub open spec fn same_geometry(r: Option<FeatureGeometry>, m: Option<GeometryModel>) -> bool {
    match (r, m) {
        (Some(g), Some(h)) => g@ == h,
        (None, None) => true,
        _ => false,
    }
}

fn rebuild_simplified(
    g: &FeatureGeometry,
    pieces: &Vec<Vec<Vec<Coord>>>,
    from: usize,
) -> (r: (Option<FeatureGeometry>, usize))
    requires
        from + geometry::cut_count(g@) <= pieces@.len(),
    ensures
        r.1 == from + geometry::cut_count(g@),
        same_geometry(
            r.0,
            simplified(
                g@,
                geometry::pieces_model(pieces@).subrange(from as int, r.1 as int),
            ),
        ),
    decreases *g,
{
    let len: usize = pieces.len();
    let ghost all = geometry::pieces_model(pieces@);
    proof {
        geometry::cuts_are_counts(g@);
    }
    match g {
        FeatureGeometry::Point(c) => (Some(FeatureGeometry::Point(*c)), from),
        FeatureGeometry::MultiPoint(cs) => (
            Some(FeatureGeometry::MultiPoint(geometry::copy_coords(cs))),
            from,
        ),
        FeatureGeometry::LineString(_) => {
            assert(all.subrange(from as int, from + 1)[0] == all[from as int]);
            (Some(FeatureGeometry::LineString(geometry::first_piece(&pieces[from]))), from + 1)
        },
        FeatureGeometry::MultiLineString(ls) => {
            let n: usize = ls.len();
            let mut lines: Vec<Vec<Coord>> = Vec::new();
            for i in 0..n
                invariant
                    len == pieces@.len(),
                    from + n <= len,
                    all == geometry::pieces_model(pieces@),
                    lines@.len() == i,
                    forall|k: int|
                        0 <= k < i ==> (#[trigger] lines@[k])@ == geometry::ring_piece(
                            all[from + k],
                        ),
            {
                lines.push(geometry::first_piece(&pieces[from + i]));
            }
            assert(chunk::lines_model(lines@) =~= thin_lines(
                all.subrange(from as int, from + n),
            ));
            (Some(FeatureGeometry::MultiLineString(lines)), from + n)
        },
        FeatureGeometry::Polygon(p) => {
            assert(from + 1 + p.interiors@.len() <= len);
            let rings: usize = 1 + p.interiors.len();
            match geometry::polygon_from(pieces, from, rings, 4) {
                Some(q) => (Some(FeatureGeometry::Polygon(q)), from + rings),
                None => (None, from + rings),
            }
        },
        FeatureGeometry::MultiPolygon(ps) => {
            let (kept, end) = geometry::polygons_from(ps, pieces, from, 4);
            if kept.len() == 0 {
                (None, end)
            } else {
                (Some(FeatureGeometry::MultiPolygon(kept)), end)
            }
        },
        FeatureGeometry::GeometryCollection(ms) => {
            proof {
                chunk::collection_model(*ms);
            }
            let ghost model = chunk::geometries_model(ms@);
            let mut kept: Vec<FeatureGeometry> = Vec::new();
            let mut at: usize = from;
            assert(model.take(model.len() as int) =~= model);
            assert(chunk::geometries_model(kept@) =~= members_simplified(
                model.take(0),
                all.subrange(from as int, from as int),
            ));
            for i in 0..ms.len()
                invariant
                    *g == FeatureGeometry::GeometryCollection(*ms),
                    all == geometry::pieces_model(pieces@),
                    model == chunk::geometries_model(ms@),
                    model.take(model.len() as int) == model,
                    from + geometry::members_cuts(model) <= pieces@.len(),
                    from <= at,
                    at == from + geometry::members_cuts(model.take(i as int)),
                    chunk::geometries_model(kept@) == members_simplified(
                        model.take(i as int),
                        all.subrange(from as int, at as int),
                    ),
            {
                let ghost before = chunk::geometries_model(kept@);
                proof {
                    assert(model.take(i + 1).drop_last() =~= model.take(i as int));
                    geometry::cuts_grow(model, i + 1);
                    geometry::cuts_are_counts(model[i as int]);
                }
                assert(decreases_to!(*g => g->GeometryCollection_0));
                assert(decreases_to!(*ms => ms@[i as int]));
                let (more, end) = rebuild_simplified(&ms[i], pieces, at);
                proof {
                    let so_far = all.subrange(from as int, end as int);
                    assert(so_far.take(at - from) =~= all.subrange(from as int, at as int));
                    assert(so_far.skip(at - from) =~= all.subrange(at as int, end as int));
                }
                if let Some(m) = more {
                    let ghost added = m@;
                    kept.push(m);
                    assert(chunk::geometries_model(kept@) =~= before.push(added));
                }
                at = end;
            }
            proof {
                chunk::collection_model(kept);
            }
            if kept.len() == 0 {
                (None, at)
            } else {
                (Some(FeatureGeometry::GeometryCollection(kept)), at)
            }
        },
    }
}

/// Simplify a whole feature for a level, given whether it is smaller than a
/// pixel and the simplified forms of its lines and rings. What is smaller
/// than a pixel goes, unless it is a point.
pub fn simplify_geometry(
    g: &FeatureGeometry,
    too_small: bool,
    pieces: &Vec<Vec<Vec<Coord>>>,
) -> (r: Option<FeatureGeometry>)
    requires
        geometry::cut_count(g@) <= pieces@.len(),
    ensures
        same_geometry(
            r,
            if too_small && !(g@ is Point) {
                None
            } else {
                simplified(
                    g@,
                    geometry::pieces_model(pieces@).take(geometry::cut_count(g@)),
                )
            },
        ),
{
    if too_small {
        match g {
            FeatureGeometry::Point(_) => {},
            _ => {
                return None;
            },
        }
    }
    let (r, end) = rebuild_simplified(g, pieces, 0);
    assert(geometry::pieces_model(pieces@).subrange(0, end as int) =~= geometry::pieces_model(
        pieces@,
    ).take(end as int));
    r
}

// Clipping.

/// The fragments of a feature.
pub open spec fn fragments_of(f: FeatureModel, gs: Seq<GeometryModel>) -> Seq<FeatureModel> {
    Seq::new(
        gs.len(),
        |i: int| FeatureModel { id: f.id, geometry: gs[i], properties: f.properties },
    )
}

/// The geometries of some features.
pub open spec fn shapes(fs: Seq<FeatureModel>) -> Seq<GeometryModel> {
    Seq::new(fs.len(), |i: int| fs[i].geometry)
}

/// What is left of features in a tile, given the pieces of their lines and
/// rings.
pub open spec fn clipped_features(
    fs: Seq<FeatureModel>,
    b: Bbox,
    pieces: Seq<Seq<Seq<Coord>>>,
) -> Seq<FeatureModel>
    decreases fs.len(),
{
    if fs.len() == 0 {
        Seq::empty()
    } else {
        let n = geometry::members_cuts(shapes(fs.drop_last()));
        clipped_features(fs.drop_last(), b, pieces.take(n)) + fragments_of(
            fs.last(),
            geometry::clipped(fs.last().geometry, b, pieces.skip(n)),
        )
    }
}

fn push_fragments(f: &VectorFeature, gs: Vec<FeatureGeometry>, out: &mut Vec<VectorFeature>)
    ensures
        chunk::features_model(final(out)@) == chunk::features_model(old(out)@) + fragments_of(
            f@,
            chunk::geometries_model(gs@),
        ),
{
    let ghost start = chunk::features_model(out@);
    let ghost add = fragments_of(f@, chunk::geometries_model(gs@));
    assert(start + add.take(0) =~= start);
    for i in 0..gs.len()
        invariant
            add == fragments_of(f@, chunk::geometries_model(gs@)),
            chunk::features_model(out@) == start + add.take(i as int),
    {
        let ghost before = chunk::features_model(out@);
        let part = VectorFeature {
            id: f.id,
            geometry: copy_geometry(&gs[i]),
            properties: json::copy_members(&f.properties),
        };
        assert(part@ == add[i as int]);
        out.push(part);
        assert(chunk::features_model(out@) =~= before.push(add[i as int]));
        assert(chunk::features_model(out@) =~= start + add.take(i + 1));
    }
    assert(add.take(add.len() as int) =~= add);
}

/// What is left of features in a tile, given the pieces of their lines and
/// rings in order.
pub fn clip_features(
    features: &Vec<VectorFeature>,
    b: &Bbox,
    pieces: &Vec<Vec<Vec<Coord>>>,
) -> (r: Vec<VectorFeature>)
    requires
        geometry::members_cuts(shapes(chunk::features_model(features@))) == pieces@.len(),
    ensures
        chunk::features_model(r@) == clipped_features(
            chunk::features_model(features@),
            *b,
            geometry::pieces_model(pieces@),
        ),
{
    let ghost fs = chunk::features_model(features@);
    let ghost all = geometry::pieces_model(pieces@);
    let ghost gs = shapes(fs);
    let mut out: Vec<VectorFeature> = Vec::new();
    let mut at: usize = 0;
    proof {
        assert(shapes(fs.take(0)) =~= Seq::empty());
        assert(fs.take(fs.len() as int) =~= fs);
        assert(chunk::features_model(out@) =~= clipped_features(fs.take(0), *b, all.take(0)));
    }
    for i in 0..features.len()
        invariant
            fs == chunk::features_model(features@),
            gs == shapes(fs),
            all == geometry::pieces_model(pieces@),
            geometry::members_cuts(gs) == pieces@.len(),
            at == geometry::members_cuts(shapes(fs.take(i as int))),
            chunk::features_model(out@) == clipped_features(
                fs.take(i as int),
                *b,
                all.take(at as int),
            ),
    {
        let f = &features[i];
        proof {
            assert(shapes(fs.take(i as int)) =~= gs.take(i as int));
            assert(shapes(fs.take(i + 1)) =~= gs.take(i + 1));
            assert(gs.take(i + 1).drop_last() =~= gs.take(i as int));
            assert(fs.take(i + 1).drop_last() =~= fs.take(i as int));
            geometry::cuts_grow(gs, i + 1);
            geometry::cuts_are_counts(gs[i as int]);
            assert(fs[i as int] == f@);
            assert(gs[i as int] == f.geometry@);
        }
        let (parts, end) = geometry::clip_geometry(&f.geometry, b, pieces, at);
        let ghost before = chunk::features_model(out@);
        push_fragments(f, parts, &mut out);
        proof {
            let so_far = all.take(end as int);
            assert(so_far.take(at as int) =~= all.take(at as int));
            assert(so_far.skip(at as int) =~= all.subrange(at as int, end as int));
        }
        at = end;
    }
    assert(all.take(all.len() as int) =~= all);
    out
}

/// Features with their coordinates replaced, in order.
pub fn rebuild_features(features: &Vec<VectorFeature>, src: &Vec<Coord>) -> (r: Vec<VectorFeature>)
    requires
        geometry::members_coords(shapes(chunk::features_model(features@))).len() == src@.len(),
    ensures
        r@.len() == features@.len(),
        shapes(chunk::features_model(r@)) == geometry::members_rebuilt(
            shapes(chunk::features_model(features@)),
            src@,
        ),
        forall|i: int|
            0 <= i < r@.len() ==> (#[trigger] r@[i]).id == features@[i].id && r@[i]@.properties
                == features@[i]@.properties,
{
    let ghost fs = chunk::features_model(features@);
    let ghost gs = shapes(fs);
    let mut out: Vec<VectorFeature> = Vec::new();
    let mut at: usize = 0;
    proof {
        assert(gs.take(0) =~= Seq::empty());
        assert(gs.take(gs.len() as int) =~= gs);
        assert(shapes(chunk::features_model(out@)) =~= geometry::members_rebuilt(
            gs.take(0),
            src@.take(0),
        ));
    }
    for i in 0..features.len()
        invariant
            fs == chunk::features_model(features@),
            gs == shapes(fs),
            gs.take(gs.len() as int) == gs,
            geometry::members_coords(gs).len() == src@.len(),
            at == geometry::members_coords(gs.take(i as int)).len(),
            out@.len() == i,
            shapes(chunk::features_model(out@)) == geometry::members_rebuilt(
                gs.take(i as int),
                src@.take(at as int),
            ),
            forall|k: int|
                0 <= k < i ==> (#[trigger] out@[k]).id == features@[k].id && out@[k]@.properties
                    == features@[k]@.properties,
    {
        let f = &features[i];
        proof {
            assert(gs.take(i + 1).drop_last() =~= gs.take(i as int));
            assert(gs[i as int] == f.geometry@);
            coords_grow(gs, i + 1);
        }
        let (g, end) = geometry::rebuild(&f.geometry, src, at);
        let ghost before = shapes(chunk::features_model(out@));
        let ghost added = g@;
        out.push(
            VectorFeature {
                id: f.id,
                geometry: g,
                properties: json::copy_members(&f.properties),
            },
        );
        proof {
            assert(shapes(chunk::features_model(out@)) =~= before.push(added));
            let so_far = src@.take(end as int);
            assert(so_far.take(at as int) =~= src@.take(at as int));
            assert(so_far.skip(at as int) =~= src@.subrange(at as int, end as int));
        }
        at = end;
    }
    assert(src@.take(src@.len() as int) =~= src@);
    out
}

proof fn coords_grow(ms: Seq<GeometryModel>, i: int)
    requires
        0 <= i <= ms.len(),
    ensures
        geometry::members_coords(ms.take(i)).len() <= geometry::members_coords(ms).len(),
    decreases ms.len() - i,
{
    if i < ms.len() {
        coords_grow(ms, i + 1);
        assert(ms.take(i + 1).drop_last() =~= ms.take(i));
    } else {
        assert(ms.take(i) =~= ms);
    }
}

// Assembling.

/// The features of the first `n` chunks.
pub open spec fn all_features(chunks: Seq<&VectorChunk>, n: int) -> Seq<FeatureModel>
    decreases n,
{
    if n <= 0 {
        Seq::empty()
    } else {
        all_features(chunks, n - 1) + chunk::features_model(chunks[n - 1].features@)
    }
}

fn push_features(features: &Vec<VectorFeature>, out: &mut Vec<VectorFeature>)
    ensures
        chunk::features_model(final(out)@) == chunk::features_model(old(out)@)
            + chunk::features_model(features@),
{
    let ghost start = chunk::features_model(out@);
    let ghost add = chunk::features_model(features@);
    assert(start + add.take(0) =~= start);
    for i in 0..features.len()
        invariant
            add == chunk::features_model(features@),
            chunk::features_model(out@) == start + add.take(i as int),
    {
        let ghost before = chunk::features_model(out@);
        let f = &features[i];
        let copy = VectorFeature {
            id: f.id,
            geometry: copy_geometry(&f.geometry),
            properties: json::copy_members(&f.properties),
        };
        assert(copy@ == add[i as int]);
        out.push(copy);
        assert(chunk::features_model(out@) =~= before.push(add[i as int]));
        assert(chunk::features_model(out@) =~= start + add.take(i + 1));
    }
    assert(add.take(add.len() as int) =~= add);
}

/// The features of some chunks, in order.
pub fn gather_features(chunks: &Vec<&VectorChunk>) -> (r: Vec<VectorFeature>)
    ensures
        chunk::features_model(r@) == all_features(chunks@, chunks@.len() as int),
{
    let mut out: Vec<VectorFeature> = Vec::new();
    assert(chunk::features_model(out@) =~= Seq::empty());
    for i in 0..chunks.len()
        invariant
            chunk::features_model(out@) == all_features(chunks@, i as int),
    {
        push_features(&chunks[i].features, &mut out);
    }
    out
}

/// Gathered features as the chunk of a window: clipped to it, given the
/// pieces of their lines and rings, and ordered by id so that a later burn
/// follows the source's order whichever tile a fragment came from.
pub fn assemble_vectors(
    gathered: &Vec<VectorFeature>,
    pieces: &Vec<Vec<Vec<Coord>>>,
    place: Placement,
) -> (r: VectorChunk)
    requires
        geometry::members_cuts(shapes(chunk::features_model(gathered@))) == pieces@.len(),
    ensures
        r.place == place,
        fragments::ordered(chunk::features_model(r.features@)),
        ({
            let parts = clipped_features(
                chunk::features_model(gathered@),
                place.bbox,
                geometry::pieces_model(pieces@),
            );
            &&& r.features@.len() == parts.len()
            &&& forall|id: u64| #[trigger]
                fragments::with_id(chunk::features_model(r.features@), id) == fragments::with_id(
                    parts,
                    id,
                )
        }),
{
    let parts = clip_features(gathered, &place.bbox, pieces);
    assert(chunk::features_model(parts@).len() == parts@.len());
    VectorChunk { features: fragments::sort_by_id(parts), place }
}

} // verus!
