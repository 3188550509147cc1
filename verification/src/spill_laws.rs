//! What is written of a chunk reads back as the chunk, and bytes that were
//! cut short or mislabelled are refused.

use vstd::prelude::*;

use crate::bytes;
use crate::chunk::{
    BandModel, ChunkModel, Coord, FeatureModel, GeometryModel, Placement, Point3, PolygonModel,
};
use crate::json;
use crate::json::Json;
use crate::number::Real;
use crate::rfc3339;
use crate::spill;
use crate::spill::{SpillFault, KIND_TENSOR, MAGIC, MAX_FEATURES, MAX_SAMPLES, VERSION};
use crate::text;
use crate::window::{ChunkKey, TimeInterval};

verus! {

/// A part stands in a sequence at a place.
pub open spec fn stands_at(b: Seq<u8>, pos: int, part: Seq<u8>) -> bool {
    &&& 0 <= pos
    &&& pos + part.len() <= b.len()
    &&& b.subrange(pos, pos + part.len()) == part
}

proof fn split(b: Seq<u8>, pos: int, x: Seq<u8>, y: Seq<u8>)
    requires
        stands_at(b, pos, x + y),
    ensures
        stands_at(b, pos, x),
        stands_at(b, pos + x.len(), y),
{
    let whole = b.subrange(pos, pos + (x + y).len());
    assert(b.subrange(pos, pos + x.len()) =~= x) by {
        assert forall|i: int| 0 <= i < x.len() implies b[pos + i] == x[i] by {
            assert(whole[i] == (x + y)[i]);
        }
    }
    assert(b.subrange(pos + x.len(), pos + x.len() + y.len()) =~= y) by {
        assert forall|i: int| 0 <= i < y.len() implies b[pos + x.len() + i] == y[i] by {
            assert(whole[x.len() + i] == (x + y)[x.len() + i]);
        }
    }
}

proof fn number_stands(b: Seq<u8>, pos: int, v: int, n: nat)
    requires
        stands_at(b, pos, bytes::le(v, n)),
        0 <= v < bytes::span_of(n),
    ensures
        bytes::number_at(b, pos, n as int) == v,
        bytes::le(v, n).len() == n,
{
    bytes::le_reads_back(v, n);
}

proof fn real_stands(b: Seq<u8>, pos: int, r: Real)
    requires
        stands_at(b, pos, bytes::le(r.bits as int, 8)),
    ensures
        spill::real_at(b, pos) == r,
        bytes::le(r.bits as int, 8).len() == 8,
{
    bytes::spans();
    number_stands(b, pos, r.bits as int, 8);
}

proof fn coord_stands(b: Seq<u8>, pos: int, c: Coord)
    requires
        stands_at(b, pos, spill::coord_bytes(c)),
    ensures
        spill::coord_at(b, pos) == c,
        spill::coord_bytes(c).len() == 16,
{
    bytes::le_len(c.x.bits as int, 8);
    split(b, pos, bytes::le(c.x.bits as int, 8), bytes::le(c.y.bits as int, 8));
    real_stands(b, pos, c.x);
    real_stands(b, pos + 8, c.y);
}

proof fn coord_run_stands(b: Seq<u8>, pos: int, cs: Seq<Coord>)
    requires
        stands_at(b, pos, spill::coord_run(cs)),
    ensures
        spill::coords_from(b, pos, cs.len() as int) == cs,
        spill::coord_run(cs).len() == 16 * cs.len(),
    decreases cs.len(),
{
    if cs.len() > 0 {
        let rest = cs.drop_last();
        split(b, pos, spill::coord_run(rest), spill::coord_bytes(cs.last()));
        coord_run_stands(b, pos, rest);
        coord_stands(b, pos + 16 * rest.len(), cs.last());
        assert(spill::coords_from(b, pos, cs.len() as int) =~= cs) by {
            assert forall|i: int| 0 <= i < cs.len() implies spill::coord_at(b, pos + 16 * i)
                == cs[i] by {
                if i < rest.len() {
                    assert(spill::coords_from(b, pos, rest.len() as int)[i] == rest[i]);
                }
            }
        }
    } else {
        assert(spill::coords_from(b, pos, 0) =~= cs);
    }
}

/// A count that the format can hold.
pub open spec fn counts(n: nat) -> bool {
    n < 0x1_0000_0000
}

proof fn coords_stand(b: Seq<u8>, pos: int, cs: Seq<Coord>)
    requires
        stands_at(b, pos, spill::coords_bytes(cs)),
        counts(cs.len()),
    ensures
        spill::coords_at(b, pos) == Some((cs, pos + spill::coords_bytes(cs).len())),
{
    bytes::spans();
    let n = bytes::le(cs.len() as u32 as int, 4);
    bytes::le_len(cs.len() as int, 4);
    split(b, pos, n, spill::coord_run(cs));
    number_stands(b, pos, cs.len() as int, 4);
    coord_run_stands(b, pos + 4, cs);
}

/// Every line has a count that the format can hold.
pub open spec fn lines_count(ls: Seq<Seq<Coord>>) -> bool {
    forall|i: int| 0 <= i < ls.len() ==> counts((#[trigger] ls[i]).len())
}

proof fn lines_stand(b: Seq<u8>, pos: int, ls: Seq<Seq<Coord>>)
    requires
        stands_at(b, pos, spill::lines_run(ls)),
        lines_count(ls),
    ensures
        spill::lines_at(b, pos, ls.len() as int) == Some((ls, pos + spill::lines_run(ls).len())),
    decreases ls.len(),
{
    if ls.len() > 0 {
        let rest = ls.drop_last();
        split(b, pos, spill::lines_run(rest), spill::coords_bytes(ls.last()));
        assert forall|i: int| 0 <= i < rest.len() implies counts((#[trigger] rest[i]).len()) by {
            assert(counts(ls[i].len()));
        }
        lines_stand(b, pos, rest);
        assert(counts(ls[ls.len() - 1].len()));
        coords_stand(b, pos + spill::lines_run(rest).len(), ls.last());
        assert(rest.push(ls.last()) =~= ls);
    } else {
        assert(ls =~= Seq::empty());
    }
}

pub open spec fn polygon_counts(p: PolygonModel) -> bool {
    counts(p.exterior.len()) && counts(p.interiors.len() + 1) && lines_count(p.interiors)
}

proof fn polygon_stands(b: Seq<u8>, pos: int, p: PolygonModel)
    requires
        stands_at(b, pos, spill::polygon_bytes(p)),
        polygon_counts(p),
    ensures
        spill::polygon_at(b, pos) == Some((p, pos + spill::polygon_bytes(p).len())),
{
    bytes::spans();
    let n = bytes::le(1 + (p.interiors.len() as u32), 4);
    bytes::le_len(1 + p.interiors.len() as int, 4);
    let head = n + spill::coords_bytes(p.exterior);
    split(b, pos, head, spill::lines_run(p.interiors));
    split(b, pos, n, spill::coords_bytes(p.exterior));
    number_stands(b, pos, 1 + p.interiors.len() as int, 4);
    coords_stand(b, pos + 4, p.exterior);
    lines_stand(b, pos + head.len(), p.interiors);
}

pub open spec fn polygons_count(ps: Seq<PolygonModel>) -> bool {
    forall|i: int| 0 <= i < ps.len() ==> polygon_counts(#[trigger] ps[i])
}

proof fn polygons_stand(b: Seq<u8>, pos: int, ps: Seq<PolygonModel>)
    requires
        stands_at(b, pos, spill::polygons_run(ps)),
        polygons_count(ps),
    ensures
        spill::polygons_at(b, pos, ps.len() as int) == Some(
            (ps, pos + spill::polygons_run(ps).len()),
        ),
    decreases ps.len(),
{
    if ps.len() > 0 {
        let rest = ps.drop_last();
        split(b, pos, spill::polygons_run(rest), spill::polygon_bytes(ps.last()));
        assert forall|i: int| 0 <= i < rest.len() implies polygon_counts(#[trigger] rest[i]) by {
            assert(polygon_counts(ps[i]));
        }
        polygons_stand(b, pos, rest);
        assert(polygon_counts(ps[ps.len() - 1]));
        polygon_stands(b, pos + spill::polygons_run(rest).len(), ps.last());
        assert(rest.push(ps.last()) =~= ps);
    } else {
        assert(ps =~= Seq::empty());
    }
}

/// Every count of a geometry is one that the format can hold.
pub open spec fn geometry_counts(g: GeometryModel) -> bool
    decreases g,
{
    match g {
        GeometryModel::Point(_) => true,
        GeometryModel::MultiPoint(cs) => counts(cs.len()),
        GeometryModel::LineString(cs) => counts(cs.len()),
        GeometryModel::MultiLineString(ls) => counts(ls.len()) && lines_count(ls),
        GeometryModel::Polygon(p) => polygon_counts(p),
        GeometryModel::MultiPolygon(ps) => counts(ps.len()) && polygons_count(ps),
        GeometryModel::GeometryCollection(ms) => counts(ms.len()) && members_count(ms),
    }
}

pub open spec fn members_count(ms: Seq<GeometryModel>) -> bool
    decreases ms,
{
    ms.len() == 0 || (members_count(ms.drop_last()) && geometry_counts(ms.last()))
}

/// A geometry written reads back, wherever it stands.
proof fn geometry_stands(b: Seq<u8>, pos: int, g: GeometryModel)
    requires
        stands_at(b, pos, spill::geometry_bytes(g)),
        geometry_counts(g),
    ensures
        spill::geometry_at(b, pos) == Ok::<(GeometryModel, int), SpillFault>(
            (g, pos + spill::geometry_bytes(g).len()),
        ),
        spill::geometry_bytes(g).len() > 0,
    decreases g,
{
    bytes::spans();
    match g {
        GeometryModel::Point(c) => {
            let tag = seq![spill::GEOM_POINT];
            split(b, pos, tag, spill::coord_bytes(c));
            tag_stands(b, pos, spill::GEOM_POINT);
            coord_stands(b, pos + 1, c);
        },
        GeometryModel::MultiPoint(cs) => {
            let tag = seq![spill::GEOM_MULTIPOINT];
            split(b, pos, tag, spill::coords_bytes(cs));
            tag_stands(b, pos, spill::GEOM_MULTIPOINT);
            coords_stand(b, pos + 1, cs);
        },
        GeometryModel::LineString(cs) => {
            let tag = seq![spill::GEOM_LINESTRING];
            split(b, pos, tag, spill::coords_bytes(cs));
            tag_stands(b, pos, spill::GEOM_LINESTRING);
            coords_stand(b, pos + 1, cs);
        },
        GeometryModel::MultiLineString(ls) => {
            counted_head(b, pos, spill::GEOM_MULTILINESTRING, ls.len(), spill::lines_run(ls));
            lines_stand(b, pos + 5, ls);
        },
        GeometryModel::Polygon(p) => {
            let tag = seq![spill::GEOM_POLYGON];
            split(b, pos, tag, spill::polygon_bytes(p));
            tag_stands(b, pos, spill::GEOM_POLYGON);
            polygon_stands(b, pos + 1, p);
        },
        GeometryModel::MultiPolygon(ps) => {
            counted_head(b, pos, spill::GEOM_MULTIPOLYGON, ps.len(), spill::polygons_run(ps));
            polygons_stand(b, pos + 5, ps);
        },
        GeometryModel::GeometryCollection(ms) => {
            counted_head(b, pos, spill::GEOM_COLLECTION, ms.len(), spill::geometries_run(ms));
            geometries_stand(b, pos + 5, ms);
        },
    }
}

proof fn tag_stands(b: Seq<u8>, pos: int, tag: u8)
    requires
        stands_at(b, pos, seq![tag]),
    ensures
        b[pos] == tag,
{
    assert(b.subrange(pos, pos + 1)[0] == seq![tag][0]);
}

proof fn counted_head(b: Seq<u8>, pos: int, tag: u8, n: nat, run: Seq<u8>)
    requires
        stands_at(b, pos, seq![tag] + bytes::le(n as u32 as int, 4) + run),
        counts(n),
    ensures
        b[pos] == tag,
        bytes::number_at(b, pos + 1, 4) == n,
        stands_at(b, pos + 5, run),
        (seq![tag] + bytes::le(n as u32 as int, 4) + run).len() == 5 + run.len(),
{
    bytes::spans();
    bytes::le_len(n as int, 4);
    split(b, pos, seq![tag] + bytes::le(n as u32 as int, 4), run);
    split(b, pos, seq![tag], bytes::le(n as u32 as int, 4));
    tag_stands(b, pos, tag);
    number_stands(b, pos + 1, n as int, 4);
}

proof fn geometries_stand(b: Seq<u8>, pos: int, ms: Seq<GeometryModel>)
    requires
        stands_at(b, pos, spill::geometries_run(ms)),
        members_count(ms),
    ensures
        spill::geometries_at(b, pos, ms.len()) == Ok::<(Seq<GeometryModel>, int), SpillFault>(
            (ms, pos + spill::geometries_run(ms).len()),
        ),
    decreases ms,
{
    if ms.len() > 0 {
        let rest = ms.drop_last();
        split(b, pos, spill::geometries_run(rest), spill::geometry_bytes(ms.last()));
        geometries_stand(b, pos, rest);
        geometry_stands(b, pos + spill::geometries_run(rest).len(), ms.last());
        assert(rest.push(ms.last()) =~= ms);
    } else {
        assert(ms =~= Seq::empty());
    }
}

proof fn place_stands(b: Seq<u8>, pos: int, p: Placement)
    requires
        stands_at(b, pos, spill::place_bytes(p)),
    ensures
        spill::place_at(b, pos) == p,
        spill::place_bytes(p).len() == 44,
{
    bytes::spans();
    let r = bytes::le(p.resolution.bits as int, 8);
    let a = bytes::le(p.bbox.min_x.bits as int, 8);
    let c = bytes::le(p.bbox.min_y.bits as int, 8);
    let d = bytes::le(p.bbox.max_x.bits as int, 8);
    let e = bytes::le(p.bbox.max_y.bits as int, 8);
    let f = bytes::le(p.crs.0 as int, 4);
    bytes::le_len(p.resolution.bits as int, 8);
    bytes::le_len(p.bbox.min_x.bits as int, 8);
    bytes::le_len(p.bbox.min_y.bits as int, 8);
    bytes::le_len(p.bbox.max_x.bits as int, 8);
    bytes::le_len(p.bbox.max_y.bits as int, 8);
    bytes::le_len(p.crs.0 as int, 4);
    split(b, pos, r + a + c + d + e, f);
    split(b, pos, r + a + c + d, e);
    split(b, pos, r + a + c, d);
    split(b, pos, r + a, c);
    split(b, pos, r, a);
    real_stands(b, pos, p.resolution);
    real_stands(b, pos + 8, p.bbox.min_x);
    real_stands(b, pos + 16, p.bbox.min_y);
    real_stands(b, pos + 24, p.bbox.max_x);
    real_stands(b, pos + 32, p.bbox.max_y);
    number_stands(b, pos + 40, p.crs.0 as int, 4);
}

proof fn reals_stand(b: Seq<u8>, pos: int, s: Seq<Real>)
    requires
        stands_at(b, pos, spill::reals_run(s)),
    ensures
        spill::reals_from(b, pos, s.len() as int) == s,
        spill::reals_run(s).len() == 8 * s.len(),
    decreases s.len(),
{
    if s.len() > 0 {
        let rest = s.drop_last();
        split(b, pos, spill::reals_run(rest), bytes::le(s.last().bits as int, 8));
        reals_stand(b, pos, rest);
        real_stands(b, pos + 8 * rest.len(), s.last());
        assert(spill::reals_from(b, pos, s.len() as int) =~= s) by {
            assert forall|i: int| 0 <= i < s.len() implies spill::real_at(b, pos + 8 * i)
                == s[i] by {
                if i < rest.len() {
                    assert(spill::reals_from(b, pos, rest.len() as int)[i] == rest[i]);
                }
            }
        }
    } else {
        assert(spill::reals_from(b, pos, 0) =~= s);
    }
}

proof fn bands_stand(b: Seq<u8>, pos: int, s: Seq<BandModel>, samples: int)
    requires
        stands_at(b, pos, spill::bands_run(s)),
        0 <= samples,
        forall|i: int| 0 <= i < s.len() ==> (#[trigger] s[i]).data.len() == samples,
    ensures
        spill::bands_from(b, pos, s.len() as int, samples) == s,
        spill::bands_run(s).len() == s.len() * (8 + 8 * samples),
    decreases s.len(),
{
    if s.len() > 0 {
        let rest = s.drop_last();
        let last = s.last();
        let head = bytes::le(last.nodata.bits as int, 8);
        let step = 8 + 8 * samples;
        split(b, pos, spill::bands_run(rest), head + spill::reals_run(last.data));
        assert forall|i: int| 0 <= i < rest.len() implies (#[trigger] rest[i]).data.len()
            == samples by {
            assert(s[i].data.len() == samples);
        }
        bands_stand(b, pos, rest, samples);
        let at = pos + rest.len() * step;
        split(b, at, head, spill::reals_run(last.data));
        real_stands(b, at, last.nodata);
        reals_stand(b, at + 8, last.data);
        assert(s[s.len() - 1].data.len() == samples);
        assert(s.len() * step == rest.len() * step + step) by (nonlinear_arith)
            requires
                s.len() == rest.len() + 1,
        ;
        assert(spill::bands_from(b, pos, s.len() as int, samples) =~= s) by {
            assert forall|i: int| 0 <= i < s.len() implies spill::bands_from(
                b,
                pos,
                s.len() as int,
                samples,
            )[i] == s[i] by {
                if i < rest.len() {
                    assert(spill::bands_from(b, pos, rest.len() as int, samples)[i] == rest[i]);
                }
            }
        }
    } else {
        assert(spill::bands_from(b, pos, 0, samples) =~= s);
    }
}

proof fn point_stands(b: Seq<u8>, pos: int, p: Point3)
    requires
        stands_at(b, pos, spill::point_bytes(p)),
    ensures
        spill::point_at(b, pos) == p,
        spill::point_bytes(p).len() == 27,
{
    bytes::spans();
    let x = bytes::le(p.x.bits as int, 8);
    let y = bytes::le(p.y.bits as int, 8);
    let z = bytes::le(p.z.bits as int, 8);
    let i = bytes::le(p.intensity as int, 2);
    let c = seq![p.classification];
    bytes::le_len(p.x.bits as int, 8);
    bytes::le_len(p.y.bits as int, 8);
    bytes::le_len(p.z.bits as int, 8);
    bytes::le_len(p.intensity as int, 2);
    split(b, pos, x + y + z + i, c);
    split(b, pos, x + y + z, i);
    split(b, pos, x + y, z);
    split(b, pos, x, y);
    real_stands(b, pos, p.x);
    real_stands(b, pos + 8, p.y);
    real_stands(b, pos + 16, p.z);
    number_stands(b, pos + 24, p.intensity as int, 2);
    tag_stands(b, pos + 26, p.classification);
}

proof fn points_stand(b: Seq<u8>, pos: int, s: Seq<Point3>)
    requires
        stands_at(b, pos, spill::points_run(s)),
    ensures
        spill::points_from(b, pos, s.len() as int) == s,
        spill::points_run(s).len() == 27 * s.len(),
    decreases s.len(),
{
    if s.len() > 0 {
        let rest = s.drop_last();
        split(b, pos, spill::points_run(rest), spill::point_bytes(s.last()));
        points_stand(b, pos, rest);
        point_stands(b, pos + 27 * rest.len(), s.last());
        assert(spill::points_from(b, pos, s.len() as int) =~= s) by {
            assert forall|i: int| 0 <= i < s.len() implies spill::point_at(b, pos + 27 * i)
                == s[i] by {
                if i < rest.len() {
                    assert(spill::points_from(b, pos, rest.len() as int)[i] == rest[i]);
                }
            }
        }
    } else {
        assert(spill::points_from(b, pos, 0) =~= s);
    }
}

proof fn words_stand(b: Seq<u8>, pos: int, s: Seq<u32>)
    requires
        stands_at(b, pos, spill::words_run(s)),
    ensures
        spill::words_from(b, pos, s.len() as int) == s,
        spill::words_run(s).len() == 4 * s.len(),
    decreases s.len(),
{
    if s.len() > 0 {
        let rest = s.drop_last();
        bytes::spans();
        split(b, pos, spill::words_run(rest), bytes::le(s.last() as int, 4));
        words_stand(b, pos, rest);
        number_stands(b, pos + 4 * rest.len(), s.last() as int, 4);
        assert(spill::words_from(b, pos, s.len() as int) =~= s) by {
            assert forall|i: int| 0 <= i < s.len() implies bytes::number_at(b, pos + 4 * i, 4)
                == s[i] by {
                if i < rest.len() {
                    assert(spill::words_from(b, pos, rest.len() as int)[i] == rest[i]);
                    bytes::number_bound(b.subrange(pos + 4 * i, pos + 4 * i + 4));
                }
            }
        }
    } else {
        assert(spill::words_from(b, pos, 0) =~= s);
    }
}

/// A feature that the format can hold, with the text of its properties.
pub open spec fn feature_holds(f: FeatureModel, t: Seq<u8>) -> bool {
    geometry_counts(f.geometry) && t.len() <= MAX_FEATURES && spill::members_in(t) is Some
}

/// A feature with the properties that a text stands for.
pub open spec fn feature_restored(f: FeatureModel, t: Seq<u8>) -> FeatureModel {
    FeatureModel { id: f.id, geometry: f.geometry, properties: spill::members_in(t)->Some_0 }
}

/// Features with the properties that texts stand for.
pub open spec fn features_restored(s: Seq<FeatureModel>, ts: Seq<Seq<u8>>) -> Seq<FeatureModel> {
    Seq::new(s.len(), |i: int| feature_restored(s[i], ts[i]))
}

/// A chunk with the properties that texts stand for.
pub open spec fn restored(c: ChunkModel, ts: Seq<Seq<u8>>) -> ChunkModel {
    match c {
        ChunkModel::Vector { features, place } => ChunkModel::Vector {
            features: features_restored(features, ts),
            place,
        },
        _ => c,
    }
}

proof fn feature_stands(b: Seq<u8>, pos: int, f: FeatureModel, t: Seq<u8>)
    requires
        stands_at(b, pos, spill::feature_bytes(f, t)),
        feature_holds(f, t),
    ensures
        spill::feature_at(b, pos) == Ok::<(FeatureModel, int), SpillFault>(
            (feature_restored(f, t), pos + spill::feature_bytes(f, t).len()),
        ),
{
    bytes::spans();
    let id = bytes::le(f.id as int, 8);
    let g = spill::geometry_bytes(f.geometry);
    let n = bytes::le(t.len() as u32 as int, 4);
    bytes::le_len(f.id as int, 8);
    bytes::le_len(t.len() as int, 4);
    split(b, pos, id + g + n, t);
    split(b, pos, id + g, n);
    split(b, pos, id, g);
    number_stands(b, pos, f.id as int, 8);
    geometry_stands(b, pos + 8, f.geometry);
    number_stands(b, pos + 8 + g.len(), t.len() as int, 4);
}

proof fn features_stand(b: Seq<u8>, pos: int, s: Seq<FeatureModel>, ts: Seq<Seq<u8>>)
    requires
        stands_at(b, pos, spill::features_run(s, ts)),
        forall|i: int| 0 <= i < s.len() ==> feature_holds(#[trigger] s[i], ts[i]),
    ensures
        spill::features_at(b, pos, s.len() as int) == Ok::<(Seq<FeatureModel>, int), SpillFault>(
            (features_restored(s, ts), pos + spill::features_run(s, ts).len()),
        ),
    decreases s.len(),
{
    if s.len() > 0 {
        let rest = s.drop_last();
        let t = ts[s.len() - 1];
        split(b, pos, spill::features_run(rest, ts), spill::feature_bytes(s.last(), t));
        assert forall|i: int| 0 <= i < rest.len() implies feature_holds(
            #[trigger] rest[i],
            ts[i],
        ) by {
            assert(feature_holds(s[i], ts[i]));
        }
        features_stand(b, pos, rest, ts);
        assert(feature_holds(s[s.len() - 1], t));
        feature_stands(b, pos + spill::features_run(rest, ts).len(), s.last(), t);
        assert(features_restored(rest, ts).push(feature_restored(s.last(), t))
            =~= features_restored(s, ts));
    } else {
        assert(features_restored(s, ts) =~= Seq::empty());
    }
}

/// A chunk that the format can hold: something in every extent, no count
/// beyond its cap, data that fill the extent, and texts of properties that
/// are JSON objects.
pub open spec fn holds(c: ChunkModel, ts: Seq<Seq<u8>>) -> bool {
    match c {
        ChunkModel::Raster { width, height, bands, .. } => {
            &&& 0 < bands.len() <= 0xffff
            &&& 0 < width
            &&& 0 < height
            &&& width * height <= MAX_SAMPLES
            &&& forall|i: int|
                0 <= i < bands.len() ==> (#[trigger] bands[i]).data.len() == width * height
        },
        ChunkModel::PointCloud { points, .. } => points.len() <= MAX_SAMPLES,
        ChunkModel::Vector { features, .. } => {
            &&& features.len() <= MAX_FEATURES
            &&& forall|i: int| 0 <= i < features.len() ==> feature_holds(
                #[trigger] features[i],
                ts[i],
            )
        },
        ChunkModel::Tensor { channels, width, height, data, .. } => {
            &&& 0 < channels
            &&& 0 < width
            &&& 0 < height
            &&& channels * (width * height) <= MAX_SAMPLES
            &&& data.len() == channels * (width * height)
        },
    }
}

proof fn factors_fit(w: int, h: int, most: int)
    requires
        0 < w,
        0 < h,
        w * h <= most,
    ensures
        w <= most,
        h <= most,
{
    assert(w <= w * h && h <= w * h) by (nonlinear_arith)
        requires
            0 < w,
            0 < h,
    ;
}

/// What is written of a chunk reads back as that chunk, properties as their
/// texts stand for them.
pub proof fn written_chunks_read_back(c: ChunkModel, ts: Seq<Seq<u8>>)
    requires
        holds(c, ts),
    ensures
        spill::chunk_at(spill::chunk_bytes(c, ts)) == Ok::<ChunkModel, SpillFault>(
            restored(c, ts),
        ),
{
    let b = spill::chunk_bytes(c, ts);
    let kind = spill::kind_of(c);
    let m = bytes::le(MAGIC as int, 4);
    let v = bytes::le(VERSION as int, 2);
    bytes::spans();
    bytes::le_len(MAGIC as int, 4);
    bytes::le_len(VERSION as int, 2);
    assert(b.subrange(0, b.len() as int) =~= b);
    assert(stands_at(b, 0, b));
    split(b, 0, spill::header_bytes(kind), spill::body_bytes(c, ts));
    split(b, 0, m + v, seq![kind]);
    split(b, 0, m, v);
    number_stands(b, 0, MAGIC as int, 4);
    number_stands(b, 4, VERSION as int, 2);
    tag_stands(b, 6, kind);
    assert(b.len() == 7 + spill::body_bytes(c, ts).len());
    match c {
        ChunkModel::Raster { width, height, bands, place } => {
            factors_fit(width as int, height as int, MAX_SAMPLES as int);
            let n = bytes::le(bands.len() as u16 as int, 2);
            let w = bytes::le(width as u32 as int, 4);
            let h = bytes::le(height as u32 as int, 4);
            let p = spill::place_bytes(place);
            bytes::le_len(bands.len() as int, 2);
            bytes::le_len(width as int, 4);
            bytes::le_len(height as int, 4);
            split(b, 7, n + w + h + p, spill::bands_run(bands));
            split(b, 7, n + w + h, p);
            split(b, 7, n + w, h);
            split(b, 7, n, w);
            number_stands(b, 7, bands.len() as int, 2);
            number_stands(b, 9, width as int, 4);
            number_stands(b, 13, height as int, 4);
            place_stands(b, 17, place);
            bands_stand(b, 61, bands, width * height);
        },
        ChunkModel::PointCloud { points, place } => {
            let n = bytes::le(points.len() as u64 as int, 8);
            bytes::le_len(points.len() as int, 8);
            split(b, 7, n + spill::place_bytes(place), spill::points_run(points));
            split(b, 7, n, spill::place_bytes(place));
            number_stands(b, 7, points.len() as int, 8);
            place_stands(b, 15, place);
            points_stand(b, 59, points);
        },
        ChunkModel::Vector { features, place } => {
            let n = bytes::le(features.len() as u64 as int, 8);
            bytes::le_len(features.len() as int, 8);
            split(b, 7, n + spill::place_bytes(place), spill::features_run(features, ts));
            split(b, 7, n, spill::place_bytes(place));
            number_stands(b, 7, features.len() as int, 8);
            place_stands(b, 15, place);
            features_stand(b, 59, features, ts);
        },
        ChunkModel::Tensor { channels, width, height, data, place } => {
            assert(width * height > 0) by (nonlinear_arith)
                requires
                    width > 0,
                    height > 0,
            ;
            factors_fit(channels as int, width * height, MAX_SAMPLES as int);
            factors_fit(width as int, height as int, MAX_SAMPLES as int);
            let n = bytes::le(channels as int, 2);
            let w = bytes::le(width as u32 as int, 4);
            let h = bytes::le(height as u32 as int, 4);
            let p = spill::place_bytes(place);
            bytes::le_len(channels as int, 2);
            bytes::le_len(width as int, 4);
            bytes::le_len(height as int, 4);
            split(b, 7, n + w + h + p, spill::words_run(data));
            split(b, 7, n + w + h, p);
            split(b, 7, n + w, h);
            split(b, 7, n, w);
            number_stands(b, 7, channels as int, 2);
            number_stands(b, 9, width as int, 4);
            number_stands(b, 13, height as int, 4);
            place_stands(b, 17, place);
            words_stand(b, 61, data);
        },
    }
}

/// What a chunk holds comes back whole from its bytes, where the writing of
/// its features' properties is one that reads back.
pub proof fn a_spilled_chunk_comes_back<W: Fn(&Vec<(String, Json)>) -> Vec<u8>>(
    w: W,
    c: ChunkModel,
)
    requires
        holds(c, spill::texts_of(w, c)),
        c matches ChunkModel::Vector { features, .. } ==> forall|i: int|
            0 <= i < features.len() ==> spill::members_in(
                json::written_by(w, (#[trigger] features[i]).properties),
            ) == Some(features[i].properties),
    ensures
        spill::chunk_at(spill::chunk_bytes(c, spill::texts_of(w, c))) == Ok::<
            ChunkModel,
            SpillFault,
        >(c),
{
    let ts = spill::texts_of(w, c);
    written_chunks_read_back(c, ts);
    if let ChunkModel::Vector { features, place } = c {
        assert(features_restored(features, ts) =~= features);
    }
}

/// Two chunks with the same bytes are one chunk, but for properties that
/// have the same text.
pub proof fn written_chunks_differ(
    a: ChunkModel,
    s: Seq<Seq<u8>>,
    c: ChunkModel,
    t: Seq<Seq<u8>>,
)
    requires
        holds(a, s),
        holds(c, t),
        spill::chunk_bytes(a, s) == spill::chunk_bytes(c, t),
    ensures
        restored(a, s) == restored(c, t),
{
    written_chunks_read_back(a, s);
    written_chunks_read_back(c, t);
}

/// Bytes that do not start with the magic number and the version, or that
/// name no kind, stand for no chunk.
pub proof fn mislabelled_bytes_are_refused(b: Seq<u8>)
    requires
        b.len() < 7 || bytes::number_at(b, 0, 4) != MAGIC || bytes::number_at(b, 4, 2) != VERSION
            || b[6] > KIND_TENSOR,
    ensures
        spill::chunk_at(b) is Err,
{
}

// File names.

proof fn number_lacks_bars(n: nat)
    ensures
        rfc3339::lacks(text::decimal(n), '_'),
        rfc3339::lacks(text::decimal(n), '-'),
{
    text::decimal_reads_back(n);
    assert forall|i: int| 0 <= i < text::decimal(n).len() implies #[trigger] text::decimal(n)[i]
        != '_' && text::decimal(n)[i] != '-' by {
        assert(text::is_digit(text::decimal(n)[i]));
    }
}

proof fn integer_lacks_bars(n: int)
    ensures
        rfc3339::lacks(text::signed_decimal(n), '_'),
{
    if n < 0 {
        number_lacks_bars((-n) as nat);
        let d = text::decimal((-n) as nat);
        assert forall|i: int|
            0 <= i < text::signed_decimal(n).len() implies #[trigger] text::signed_decimal(n)[i]
            != '_' by {
            if i > 0 {
                assert(text::signed_decimal(n)[i] == d[i - 1]);
            }
        }
    } else {
        number_lacks_bars(n as nat);
    }
}

proof fn numbers_differ(a: nat, b: nat)
    requires
        text::decimal(a) == text::decimal(b),
    ensures
        a == b,
{
    text::decimal_reads_back(a);
    text::decimal_reads_back(b);
}

proof fn integers_differ(a: int, b: int)
    requires
        text::signed_decimal(a) == text::signed_decimal(b),
    ensures
        a == b,
{
    let (x, y) = (text::signed_decimal(a), text::signed_decimal(b));
    if a < 0 && b < 0 {
        assert(x.skip(1) =~= text::decimal((-a) as nat));
        assert(y.skip(1) =~= text::decimal((-b) as nat));
        numbers_differ((-a) as nat, (-b) as nat);
    } else if a < 0 {
        text::decimal_reads_back(b as nat);
        number_lacks_bars(b as nat);
        assert(y[0] != '-');
        assert(x[0] == '-');
    } else if b < 0 {
        text::decimal_reads_back(a as nat);
        number_lacks_bars(a as nat);
        assert(x[0] != '-');
        assert(y[0] == '-');
    } else {
        numbers_differ(a as nat, b as nat);
    }
}

proof fn words_part(a: Seq<char>, b: Seq<char>, x: Seq<char>, y: Seq<char>)
    requires
        rfc3339::lacks(a, '_'),
        rfc3339::lacks(b, '_'),
        a + (seq!['_'] + x) == b + (seq!['_'] + y),
    ensures
        a == b,
        x == y,
{
    let s = a + (seq!['_'] + x);
    let t = b + (seq!['_'] + y);
    if a.len() < b.len() {
        assert(s[a.len() as int] == '_');
        assert(t[a.len() as int] == b[a.len() as int]);
    } else if b.len() < a.len() {
        assert(t[b.len() as int] == '_');
        assert(s[b.len() as int] == a[b.len() as int]);
    }
    assert(a =~= s.take(a.len() as int));
    assert(b =~= t.take(b.len() as int));
    assert(x =~= s.skip(a.len() as int + 1));
    assert(y =~= t.skip(b.len() as int + 1));
}

spec fn tail_of(iy: int, time: Option<TimeInterval>) -> Seq<char> {
    match time {
        None => text::signed_decimal(iy) + ".bin"@,
        Some(t) => text::signed_decimal(iy) + (seq!['_'] + (text::signed_decimal(t.start_ms as int)
            + (seq!['_'] + (text::signed_decimal(t.end_ms as int) + ".bin"@)))),
    }
}

proof fn name_is_words(node: usize, key: ChunkKey)
    ensures
        spill::file_name(node, key) == text::decimal(node as nat) + (seq!['_'] + (text::decimal(
            key.level as nat,
        ) + (seq!['_'] + (text::signed_decimal(key.ix as int) + (seq!['_'] + tail_of(
            key.iy as int,
            key.time,
        )))))),
{
    reveal_strlit("_");
    assert("_"@ =~= seq!['_']);
    assert(spill::file_name(node, key) =~= text::decimal(node as nat) + (seq!['_'] + (
    text::decimal(key.level as nat) + (seq!['_'] + (text::signed_decimal(key.ix as int) + (seq!['_']
        + tail_of(key.iy as int, key.time)))))));
}

proof fn bare_tail_lacks_bars(iy: int)
    ensures
        rfc3339::lacks(text::signed_decimal(iy) + ".bin"@, '_'),
{
    integer_lacks_bars(iy);
    reveal_strlit(".bin");
    let d = text::signed_decimal(iy);
    let s = d + ".bin"@;
    assert forall|i: int| 0 <= i < s.len() implies #[trigger] s[i] != '_' by {
        if i < d.len() {
            assert(s[i] == d[i]);
        } else {
            assert(s[i] == ".bin"@[i - d.len()]);
        }
    }
}

proof fn endings_part(a: Seq<char>, b: Seq<char>)
    requires
        a + ".bin"@ == b + ".bin"@,
    ensures
        a == b,
{
    let s = a + ".bin"@;
    let t = b + ".bin"@;
    assert(s.len() == a.len() + ".bin"@.len());
    assert(t.len() == b.len() + ".bin"@.len());
    assert(a =~= s.take(a.len() as int));
    assert(b =~= t.take(b.len() as int));
}

proof fn tails_part(p: int, s: Option<TimeInterval>, q: int, t: Option<TimeInterval>)
    requires
        tail_of(p, s) == tail_of(q, t),
    ensures
        p == q,
        s == t,
{
    integer_lacks_bars(p);
    integer_lacks_bars(q);
    match (s, t) {
        (None, None) => {
            endings_part(text::signed_decimal(p), text::signed_decimal(q));
            integers_differ(p, q);
        },
        (Some(a), Some(b)) => {
            let ra = text::signed_decimal(a.end_ms as int) + ".bin"@;
            let rb = text::signed_decimal(b.end_ms as int) + ".bin"@;
            let sa = text::signed_decimal(a.start_ms as int);
            let sb = text::signed_decimal(b.start_ms as int);
            words_part(
                text::signed_decimal(p),
                text::signed_decimal(q),
                sa + (seq!['_'] + ra),
                sb + (seq!['_'] + rb),
            );
            integer_lacks_bars(a.start_ms as int);
            integer_lacks_bars(b.start_ms as int);
            words_part(sa, sb, ra, rb);
            endings_part(
                text::signed_decimal(a.end_ms as int),
                text::signed_decimal(b.end_ms as int),
            );
            integers_differ(p, q);
            integers_differ(a.start_ms as int, b.start_ms as int);
            integers_differ(a.end_ms as int, b.end_ms as int);
        },
        (None, Some(b)) => {
            bare_tail_lacks_bars(p);
            let at = text::signed_decimal(q).len() as int;
            assert(tail_of(q, t)[at] == '_');
        },
        (Some(a), None) => {
            bare_tail_lacks_bars(q);
            let at = text::signed_decimal(p).len() as int;
            assert(tail_of(p, s)[at] == '_');
        },
    }
}

/// Every chunk has a file of its own: no two nodes, tiles or pull times
/// share a name.
pub proof fn every_chunk_has_its_file(m: usize, j: ChunkKey, n: usize, k: ChunkKey)
    requires
        spill::file_name(m, j) == spill::file_name(n, k),
    ensures
        m == n,
        j == k,
{
    name_is_words(m, j);
    name_is_words(n, k);
    let tj = tail_of(j.iy as int, j.time);
    let tk = tail_of(k.iy as int, k.time);
    let xj = text::signed_decimal(j.ix as int) + (seq!['_'] + tj);
    let xk = text::signed_decimal(k.ix as int) + (seq!['_'] + tk);
    let lj = text::decimal(j.level as nat) + (seq!['_'] + xj);
    let lk = text::decimal(k.level as nat) + (seq!['_'] + xk);
    number_lacks_bars(m as nat);
    number_lacks_bars(n as nat);
    words_part(text::decimal(m as nat), text::decimal(n as nat), lj, lk);
    numbers_differ(m as nat, n as nat);
    number_lacks_bars(j.level as nat);
    number_lacks_bars(k.level as nat);
    words_part(text::decimal(j.level as nat), text::decimal(k.level as nat), xj, xk);
    numbers_differ(j.level as nat, k.level as nat);
    integer_lacks_bars(j.ix as int);
    integer_lacks_bars(k.ix as int);
    words_part(text::signed_decimal(j.ix as int), text::signed_decimal(k.ix as int), tj, tk);
    integers_differ(j.ix as int, k.ix as int);
    tails_part(j.iy as int, j.time, k.iy as int, k.time);
}

/// A placement is written as its resolution, its window's least and greatest
/// corner, and the code of its reference system.
pub open spec fn placed(p: Placement) -> Seq<u8> {
    bytes::le(p.resolution.bits as int, 8) + bytes::le(p.bbox.min_x.bits as int, 8) + bytes::le(
        p.bbox.min_y.bits as int,
        8,
    ) + bytes::le(p.bbox.max_x.bits as int, 8) + bytes::le(p.bbox.max_y.bits as int, 8)
        + bytes::le(p.crs.0 as int, 4)
}

/// A file starts with four bytes that mark it, the version of the format and
/// the kind of the chunk: 0 for a raster, 1 for points, 2 for features and 3
/// for a tensor. The counts and sides come next, the placement, then what
/// the chunk holds: band by band, point by point, feature by feature or
/// channel by channel.
pub proof fn a_file_is_laid_out(c: ChunkModel, ts: Seq<Seq<u8>>)
    ensures
        ({
            let start = bytes::le(0x4750_4c43, 4) + bytes::le(2, 2);
            spill::chunk_bytes(c, ts) == (match c {
                ChunkModel::Raster { width, height, bands, place } => start + seq![0u8]
                    + bytes::le(bands.len() as u16 as int, 2) + bytes::le(width as u32 as int, 4)
                    + bytes::le(height as u32 as int, 4) + placed(place) + spill::bands_run(bands),
                ChunkModel::PointCloud { points, place } => start + seq![1u8] + bytes::le(
                    points.len() as u64 as int,
                    8,
                ) + placed(place) + spill::points_run(points),
                ChunkModel::Vector { features, place } => start + seq![2u8] + bytes::le(
                    features.len() as u64 as int,
                    8,
                ) + placed(place) + spill::features_run(features, ts),
                ChunkModel::Tensor { channels, width, height, data, place } => start + seq![3u8]
                    + bytes::le(channels as int, 2) + bytes::le(width as u32 as int, 4)
                    + bytes::le(height as u32 as int, 4) + placed(place) + spill::words_run(data),
            })
        }),
{
    let start = bytes::le(0x4750_4c43, 4) + bytes::le(2, 2);
    match c {
        ChunkModel::Raster { width, height, bands, place } => {
            assert(spill::chunk_bytes(c, ts) =~= start + seq![0u8] + bytes::le(
                bands.len() as u16 as int,
                2,
            ) + bytes::le(width as u32 as int, 4) + bytes::le(height as u32 as int, 4) + placed(
                place,
            ) + spill::bands_run(bands));
        },
        ChunkModel::PointCloud { points, place } => {
            assert(spill::chunk_bytes(c, ts) =~= start + seq![1u8] + bytes::le(
                points.len() as u64 as int,
                8,
            ) + placed(place) + spill::points_run(points));
        },
        ChunkModel::Vector { features, place } => {
            assert(spill::chunk_bytes(c, ts) =~= start + seq![2u8] + bytes::le(
                features.len() as u64 as int,
                8,
            ) + placed(place) + spill::features_run(features, ts));
        },
        ChunkModel::Tensor { channels, width, height, data, place } => {
            assert(spill::chunk_bytes(c, ts) =~= start + seq![3u8] + bytes::le(channels as int, 2)
                + bytes::le(width as u32 as int, 4) + bytes::le(height as u32 as int, 4) + placed(
                place,
            ) + spill::words_run(data));
        },
    }
}

} // verus!
