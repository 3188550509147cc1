//! The disk form of a chunk: a flat little-endian byte sequence.
//!
//! A header names the format and the kind; what follows depends on the
//! kind. Reading refuses what no writer produces: another magic number or
//! version, an unknown kind or geometry tag, counts beyond the caps of the
//! format, properties that are no JSON object, and a sequence that ends
//! early.

use vstd::prelude::*;

use crate::bytes;
use crate::caps::Crs;
use crate::chunk;
use crate::chunk::{
    Band, BandModel, Chunk, ChunkModel, Coord, FeatureGeometry, FeatureModel, GeometryModel,
    Placement, Point3, PointChunk, Polygon, PolygonModel, RasterChunk, TensorChunk, VectorChunk,
    VectorFeature,
};
use crate::json;
use crate::json::{Json, JsonModel};
use crate::number::Real;
use crate::text;
use crate::window::{Bbox, ChunkKey, TimeInterval};

verus! {

pub const MAGIC: u32 = 0x47504C43;

pub const VERSION: u16 = 2;

pub const KIND_RASTER: u8 = 0;

pub const KIND_POINTS: u8 = 1;

pub const KIND_VECTOR: u8 = 2;

pub const KIND_TENSOR: u8 = 3;

pub const GEOM_POINT: u8 = 0;

pub const GEOM_LINESTRING: u8 = 1;

pub const GEOM_POLYGON: u8 = 2;

pub const GEOM_MULTIPOLYGON: u8 = 3;

pub const GEOM_MULTIPOINT: u8 = 4;

pub const GEOM_MULTILINESTRING: u8 = 5;

pub const GEOM_COLLECTION: u8 = 6;

/// The most samples of a band, points of a cloud or elements of a tensor.
pub const MAX_SAMPLES: u64 = 0x1000_0000;

/// The most features of a chunk and bytes of a feature's properties.
pub const MAX_FEATURES: u64 = 0x100_0000;

/// Why bytes are no chunk.
#[derive(Clone, Copy, Debug, PartialEq, Eq, Structural)]
pub enum SpillFault {
    /// The bytes end early.
    Truncated,
    Magic,
    Version,
    Kind,
    /// No band or channel, no extent, or too much of it.
    Geometry,
    PointCount,
    FeatureCount,
    GeometryTag,
    PropertiesLength,
    /// The properties are no JSON object.
    Properties,
}

/// The members that bytes stand for, where they are a JSON object.
pub open spec fn members_in(raw: Seq<u8>) -> Option<Seq<(Seq<char>, JsonModel)>> {
    match json::json_of(raw) {
        Ok(JsonModel::Object(ms)) => Some(ms),
        _ => None,
    }
}

fn read_members(raw: &Vec<u8>) -> (r: Option<Vec<(String, Json)>>)
    ensures
        match members_in(raw@) {
            Some(ms) => r matches Some(v) && json::members_model(v@) == ms,
            None => r is None,
        },
{
    match json::parse(raw) {
        Ok(Json::Object(v)) => {
            proof {
                json::object_is(v);
            }
            Some(v)
        },
        _ => None,
    }
}

// What is written.

/// A place: both numbers.
pub open spec fn coord_bytes(c: Coord) -> Seq<u8> {
    bytes::le(c.x.bits as int, 8) + bytes::le(c.y.bits as int, 8)
}

/// Places one behind the other.
pub open spec fn coord_run(cs: Seq<Coord>) -> Seq<u8>
    decreases cs.len(),
{
    if cs.len() == 0 {
        Seq::empty()
    } else {
        coord_run(cs.drop_last()) + coord_bytes(cs.last())
    }
}

/// A count, then the places.
pub open spec fn coords_bytes(cs: Seq<Coord>) -> Seq<u8> {
    bytes::le(cs.len() as u32 as int, 4) + coord_run(cs)
}

pub open spec fn lines_run(ls: Seq<Seq<Coord>>) -> Seq<u8>
    decreases ls.len(),
{
    if ls.len() == 0 {
        Seq::empty()
    } else {
        lines_run(ls.drop_last()) + coords_bytes(ls.last())
    }
}

/// The ring count, then the rings, the outer one first.
pub open spec fn polygon_bytes(p: PolygonModel) -> Seq<u8> {
    bytes::le(1 + (p.interiors.len() as u32), 4) + coords_bytes(p.exterior) + lines_run(p.interiors)
}

pub open spec fn polygons_run(ps: Seq<PolygonModel>) -> Seq<u8>
    decreases ps.len(),
{
    if ps.len() == 0 {
        Seq::empty()
    } else {
        polygons_run(ps.drop_last()) + polygon_bytes(ps.last())
    }
}

/// A tag, then the geometry.
pub open spec fn geometry_bytes(g: GeometryModel) -> Seq<u8>
    decreases g,
{
    match g {
        GeometryModel::Point(c) => seq![GEOM_POINT] + coord_bytes(c),
        GeometryModel::MultiPoint(cs) => seq![GEOM_MULTIPOINT] + coords_bytes(cs),
        GeometryModel::LineString(cs) => seq![GEOM_LINESTRING] + coords_bytes(cs),
        GeometryModel::MultiLineString(ls) => seq![GEOM_MULTILINESTRING] + bytes::le(
            ls.len() as u32 as int,
            4,
        ) + lines_run(ls),
        GeometryModel::Polygon(p) => seq![GEOM_POLYGON] + polygon_bytes(p),
        GeometryModel::MultiPolygon(ps) => seq![GEOM_MULTIPOLYGON] + bytes::le(
            ps.len() as u32 as int,
            4,
        ) + polygons_run(ps),
        GeometryModel::GeometryCollection(ms) => seq![GEOM_COLLECTION] + bytes::le(
            ms.len() as u32 as int,
            4,
        ) + geometries_run(ms),
    }
}

pub open spec fn geometries_run(ms: Seq<GeometryModel>) -> Seq<u8>
    decreases ms,
{
    if ms.len() == 0 {
        Seq::empty()
    } else {
        geometries_run(ms.drop_last()) + geometry_bytes(ms.last())
    }
}

/// Resolution, window and reference system.
pub open spec fn place_bytes(p: Placement) -> Seq<u8> {
    bytes::le(p.resolution.bits as int, 8) + bytes::le(p.bbox.min_x.bits as int, 8) + bytes::le(
        p.bbox.min_y.bits as int,
        8,
    ) + bytes::le(p.bbox.max_x.bits as int, 8) + bytes::le(p.bbox.max_y.bits as int, 8)
        + bytes::le(p.crs.0 as int, 4)
}

pub open spec fn reals_run(s: Seq<Real>) -> Seq<u8>
    decreases s.len(),
{
    if s.len() == 0 {
        Seq::empty()
    } else {
        reals_run(s.drop_last()) + bytes::le(s.last().bits as int, 8)
    }
}

pub open spec fn bands_run(s: Seq<BandModel>) -> Seq<u8>
    decreases s.len(),
{
    if s.len() == 0 {
        Seq::empty()
    } else {
        bands_run(s.drop_last()) + (bytes::le(s.last().nodata.bits as int, 8) + reals_run(
            s.last().data,
        ))
    }
}

pub open spec fn point_bytes(p: Point3) -> Seq<u8> {
    bytes::le(p.x.bits as int, 8) + bytes::le(p.y.bits as int, 8) + bytes::le(p.z.bits as int, 8)
        + bytes::le(p.intensity as int, 2) + seq![p.classification]
}

pub open spec fn points_run(s: Seq<Point3>) -> Seq<u8>
    decreases s.len(),
{
    if s.len() == 0 {
        Seq::empty()
    } else {
        points_run(s.drop_last()) + point_bytes(s.last())
    }
}

pub open spec fn words_run(s: Seq<u32>) -> Seq<u8>
    decreases s.len(),
{
    if s.len() == 0 {
        Seq::empty()
    } else {
        words_run(s.drop_last()) + bytes::le(s.last() as int, 4)
    }
}

/// A feature, with the text of its properties.
pub open spec fn feature_bytes(f: FeatureModel, t: Seq<u8>) -> Seq<u8> {
    bytes::le(f.id as int, 8) + geometry_bytes(f.geometry) + bytes::le(
        t.len() as u32 as int,
        4,
    ) + t
}

pub open spec fn features_run(s: Seq<FeatureModel>, ts: Seq<Seq<u8>>) -> Seq<u8>
    decreases s.len(),
{
    if s.len() == 0 {
        Seq::empty()
    } else {
        features_run(s.drop_last(), ts) + feature_bytes(s.last(), ts[s.len() - 1])
    }
}

pub open spec fn header_bytes(kind: u8) -> Seq<u8> {
    bytes::le(MAGIC as int, 4) + bytes::le(VERSION as int, 2) + seq![kind]
}

/// What is written of a chunk behind its kind, with the texts of its
/// features' properties.
pub open spec fn body_bytes(c: ChunkModel, ts: Seq<Seq<u8>>) -> Seq<u8> {
    match c {
        ChunkModel::Raster { width, height, bands, place } => bytes::le(
            bands.len() as u16 as int,
            2,
        ) + bytes::le(width as u32 as int, 4) + bytes::le(height as u32 as int, 4) + place_bytes(
            place,
        ) + bands_run(bands),
        ChunkModel::PointCloud { points, place } => bytes::le(points.len() as u64 as int, 8)
            + place_bytes(place) + points_run(points),
        ChunkModel::Vector { features, place } => bytes::le(features.len() as u64 as int, 8)
            + place_bytes(place) + features_run(features, ts),
        ChunkModel::Tensor { channels, width, height, data, place } => bytes::le(channels as int, 2)
            + bytes::le(width as u32 as int, 4) + bytes::le(height as u32 as int, 4) + place_bytes(
            place,
        ) + words_run(data),
    }
}

pub open spec fn kind_of(c: ChunkModel) -> u8 {
    match c {
        ChunkModel::Raster { .. } => KIND_RASTER,
        ChunkModel::PointCloud { .. } => KIND_POINTS,
        ChunkModel::Vector { .. } => KIND_VECTOR,
        ChunkModel::Tensor { .. } => KIND_TENSOR,
    }
}

/// What is written of a chunk, with the texts of its features' properties.
pub open spec fn chunk_bytes(c: ChunkModel, ts: Seq<Seq<u8>>) -> Seq<u8> {
    header_bytes(kind_of(c)) + body_bytes(c, ts)
}

/// The texts that a writing makes of the properties of features.
pub open spec fn texts<W: Fn(&Vec<(String, Json)>) -> Vec<u8>>(w: W, fs: Seq<FeatureModel>) -> Seq<
    Seq<u8>,
> {
    Seq::new(fs.len(), |i: int| json::written_by(w, fs[i].properties))
}

/// The texts that a writing makes of the properties in a chunk.
pub open spec fn texts_of<W: Fn(&Vec<(String, Json)>) -> Vec<u8>>(w: W, c: ChunkModel) -> Seq<Seq<u8>> {
    match c {
        ChunkModel::Vector { features, .. } => texts(w, features),
        _ => Seq::empty(),
    }
}

// How it is written.

fn put_real(out: &mut Vec<u8>, v: Real)
    ensures
        final(out)@ == old(out)@ + bytes::le(v.bits as int, 8),
{
    bytes::push_le(out, v.bits, 8);
}

fn put_coord(out: &mut Vec<u8>, c: Coord)
    ensures
        final(out)@ == old(out)@ + coord_bytes(c),
{
    let ghost start = out@;
    put_real(out, c.x);
    put_real(out, c.y);
    assert(out@ =~= start + coord_bytes(c));
}

fn write_coords(out: &mut Vec<u8>, coords: &Vec<Coord>)
    ensures
        final(out)@ == old(out)@ + coords_bytes(coords@),
{
    let ghost start = out@;
    bytes::push_le(out, coords.len() as u32 as u64, 4);
    let ghost counted = out@;
    assert(counted =~= counted + coord_run(coords@.take(0)));
    for i in 0..coords.len()
        invariant
            out@ == counted + coord_run(coords@.take(i as int)),
    {
        put_coord(out, coords[i]);
        assert(coords@.take(i as int + 1).drop_last() =~= coords@.take(i as int));
        assert(out@ =~= counted + coord_run(coords@.take(i as int + 1)));
    }
    assert(coords@.take(coords@.len() as int) =~= coords@);
    assert(out@ =~= start + coords_bytes(coords@));
}

fn write_lines(out: &mut Vec<u8>, lines: &Vec<Vec<Coord>>)
    ensures
        final(out)@ == old(out)@ + lines_run(chunk::lines_model(lines@)),
{
    let ghost start = out@;
    let ghost model = chunk::lines_model(lines@);
    assert(start =~= start + lines_run(model.take(0)));
    for i in 0..lines.len()
        invariant
            model == chunk::lines_model(lines@),
            out@ == start + lines_run(model.take(i as int)),
    {
        write_coords(out, &lines[i]);
        assert(model.take(i as int + 1).drop_last() =~= model.take(i as int));
        assert(out@ =~= start + lines_run(model.take(i as int + 1)));
    }
    assert(model.take(model.len() as int) =~= model);
}

/// The ring count of a polygon is a number of the format.
pub open spec fn rings_fit(p: PolygonModel) -> bool {
    (p.interiors.len() as u32) < u32::MAX
}

/// The same of every polygon of a list.
pub open spec fn all_rings_fit(ps: Seq<PolygonModel>) -> bool {
    forall|i: int| 0 <= i < ps.len() ==> rings_fit(#[trigger] ps[i])
}

/// The ring counts of a geometry are numbers of the format.
pub open spec fn geometry_fits(g: GeometryModel) -> bool
    decreases g,
{
    match g {
        GeometryModel::Polygon(p) => rings_fit(p),
        GeometryModel::MultiPolygon(ps) => all_rings_fit(ps),
        GeometryModel::GeometryCollection(ms) => all_fit(ms),
        _ => true,
    }
}

/// The same of every member of a collection.
pub open spec fn all_fit(ms: Seq<GeometryModel>) -> bool
    decreases ms,
{
    ms.len() == 0 || (all_fit(ms.drop_last()) && geometry_fits(ms.last()))
}

proof fn each_fits(ms: Seq<GeometryModel>, i: int)
    requires
        all_fit(ms),
        0 <= i < ms.len(),
    ensures
        geometry_fits(ms[i]),
    decreases ms.len(),
{
    if i < ms.len() - 1 {
        each_fits(ms.drop_last(), i);
    }
}

fn write_polygon(out: &mut Vec<u8>, p: &Polygon)
    requires
        rings_fit(p@),
    ensures
        final(out)@ == old(out)@ + polygon_bytes(p@),
{
    let ghost start = out@;
    bytes::push_le(out, (1 + p.interiors.len() as u32) as u64, 4);
    write_coords(out, &p.exterior);
    write_lines(out, &p.interiors);
    assert(out@ =~= start + polygon_bytes(p@));
}

fn write_geometry(out: &mut Vec<u8>, g: &FeatureGeometry)
    requires
        geometry_fits(g@),
    ensures
        final(out)@ == old(out)@ + geometry_bytes(g@),
    decreases *g,
{
    let ghost start = out@;
    match g {
        FeatureGeometry::Point(c) => {
            out.push(GEOM_POINT);
            put_coord(out, *c);
        },
        FeatureGeometry::MultiPoint(cs) => {
            out.push(GEOM_MULTIPOINT);
            write_coords(out, cs);
        },
        FeatureGeometry::LineString(cs) => {
            out.push(GEOM_LINESTRING);
            write_coords(out, cs);
        },
        FeatureGeometry::MultiLineString(ls) => {
            out.push(GEOM_MULTILINESTRING);
            bytes::push_le(out, ls.len() as u32 as u64, 4);
            write_lines(out, ls);
        },
        FeatureGeometry::Polygon(p) => {
            out.push(GEOM_POLYGON);
            write_polygon(out, p);
        },
        FeatureGeometry::MultiPolygon(ps) => {
            out.push(GEOM_MULTIPOLYGON);
            bytes::push_le(out, ps.len() as u32 as u64, 4);
            let ghost counted = out@;
            let ghost model = chunk::polygons_model(ps@);
            assert(g@ == GeometryModel::MultiPolygon(model));
            assert(counted =~= counted + polygons_run(model.take(0)));
            for i in 0..ps.len()
                invariant
                    model == chunk::polygons_model(ps@),
                    forall|k: int| 0 <= k < model.len() ==> rings_fit(#[trigger] model[k]),
                    out@ == counted + polygons_run(model.take(i as int)),
            {
                assert(rings_fit(model[i as int]));
                write_polygon(out, &ps[i]);
                assert(model.take(i as int + 1).drop_last() =~= model.take(i as int));
                assert(out@ =~= counted + polygons_run(model.take(i as int + 1)));
            }
            assert(model.take(model.len() as int) =~= model);
        },
        FeatureGeometry::GeometryCollection(ms) => {
            proof {
                chunk::collection_model(*ms);
            }
            out.push(GEOM_COLLECTION);
            bytes::push_le(out, ms.len() as u32 as u64, 4);
            let ghost counted = out@;
            let ghost model = chunk::geometries_model(ms@);
            assert(g@ == GeometryModel::GeometryCollection(model));
            assert(counted =~= counted + geometries_run(model.take(0)));
            for i in 0..ms.len()
                invariant
                    *g == FeatureGeometry::GeometryCollection(*ms),
                    model == chunk::geometries_model(ms@),
                    all_fit(model),
                    out@ == counted + geometries_run(model.take(i as int)),
            {
                proof {
                    each_fits(model, i as int);
                }
                assert(decreases_to!(*g => g->GeometryCollection_0));
                assert(decreases_to!(*ms => ms@[i as int]));
                write_geometry(out, &ms[i]);
                assert(model.take(i as int + 1).drop_last() =~= model.take(i as int));
                assert(out@ =~= counted + geometries_run(model.take(i as int + 1)));
            }
            assert(model.take(model.len() as int) =~= model);
        },
    }
    assert(out@ =~= start + geometry_bytes(g@));
}

fn write_place(out: &mut Vec<u8>, p: &Placement)
    ensures
        final(out)@ == old(out)@ + place_bytes(*p),
{
    let ghost start = out@;
    put_real(out, p.resolution);
    put_real(out, p.bbox.min_x);
    put_real(out, p.bbox.min_y);
    put_real(out, p.bbox.max_x);
    put_real(out, p.bbox.max_y);
    bytes::push_le(out, p.crs.0 as u64, 4);
    assert(out@ =~= start + place_bytes(*p));
}

fn write_bands(out: &mut Vec<u8>, bands: &Vec<Band>)
    ensures
        final(out)@ == old(out)@ + bands_run(chunk::bands_model(bands@)),
{
    let ghost start = out@;
    let ghost model = chunk::bands_model(bands@);
    assert(start =~= start + bands_run(model.take(0)));
    for i in 0..bands.len()
        invariant
            model == chunk::bands_model(bands@),
            out@ == start + bands_run(model.take(i as int)),
    {
        put_real(out, bands[i].nodata);
        let ghost before = out@;
        let data = &bands[i].data;
        assert(before =~= before + reals_run(data@.take(0)));
        for j in 0..data.len()
            invariant
                out@ == before + reals_run(data@.take(j as int)),
        {
            put_real(out, data[j]);
            assert(data@.take(j as int + 1).drop_last() =~= data@.take(j as int));
            assert(out@ =~= before + reals_run(data@.take(j as int + 1)));
        }
        assert(data@.take(data@.len() as int) =~= data@);
        assert(model.take(i as int + 1).drop_last() =~= model.take(i as int));
        assert(out@ =~= start + bands_run(model.take(i as int + 1)));
    }
    assert(model.take(model.len() as int) =~= model);
}

fn write_points(out: &mut Vec<u8>, points: &Vec<Point3>)
    ensures
        final(out)@ == old(out)@ + points_run(points@),
{
    let ghost start = out@;
    assert(start =~= start + points_run(points@.take(0)));
    for i in 0..points.len()
        invariant
            out@ == start + points_run(points@.take(i as int)),
    {
        let p = points[i];
        put_real(out, p.x);
        put_real(out, p.y);
        put_real(out, p.z);
        bytes::push_le(out, p.intensity as u64, 2);
        out.push(p.classification);
        assert(points@.take(i as int + 1).drop_last() =~= points@.take(i as int));
        assert(out@ =~= start + points_run(points@.take(i as int + 1)));
    }
    assert(points@.take(points@.len() as int) =~= points@);
}

fn write_words(out: &mut Vec<u8>, data: &Vec<u32>)
    ensures
        final(out)@ == old(out)@ + words_run(data@),
{
    let ghost start = out@;
    assert(start =~= start + words_run(data@.take(0)));
    for i in 0..data.len()
        invariant
            out@ == start + words_run(data@.take(i as int)),
    {
        bytes::push_le(out, data[i] as u64, 4);
        assert(data@.take(i as int + 1).drop_last() =~= data@.take(i as int));
        assert(out@ =~= start + words_run(data@.take(i as int + 1)));
    }
    assert(data@.take(data@.len() as int) =~= data@);
}

fn put_bytes(out: &mut Vec<u8>, raw: &Vec<u8>)
    ensures
        final(out)@ == old(out)@ + raw@,
{
    let ghost start = out@;
    assert(start =~= start + raw@.take(0));
    for i in 0..raw.len()
        invariant
            out@ == start + raw@.take(i as int),
    {
        out.push(raw[i]);
        assert(out@ =~= start + raw@.take(i as int + 1));
    }
    assert(raw@.take(raw@.len() as int) =~= raw@);
}

fn write_features<W: Fn(&Vec<(String, Json)>) -> Vec<u8>>(
    out: &mut Vec<u8>,
    features: &Vec<VectorFeature>,
    w: &W,
)
    requires
        json::is_writing(*w),
        forall|i: int|
            0 <= i < features@.len() ==> geometry_fits((#[trigger] features@[i]).geometry@),
    ensures
        final(out)@ == old(out)@ + features_run(
            chunk::features_model(features@),
            texts(*w, chunk::features_model(features@)),
        ),
{
    let ghost start = out@;
    let ghost model = chunk::features_model(features@);
    let ghost ts = texts(*w, model);
    assert(start =~= start + features_run(model.take(0), ts));
    for i in 0..features.len()
        invariant
            json::is_writing(*w),
            model == chunk::features_model(features@),
            ts == texts(*w, model),
            forall|k: int|
                0 <= k < features@.len() ==> geometry_fits((#[trigger] features@[k]).geometry@),
            out@ == start + features_run(model.take(i as int), ts),
    {
        let f = &features[i];
        bytes::push_le(out, f.id, 8);
        write_geometry(out, &f.geometry);
        let t = json::write_members(w, &f.properties);
        bytes::push_le(out, t.len() as u32 as u64, 4);
        put_bytes(out, &t);
        assert(model[i as int] == f@);
        assert(ts[i as int] == t@);
        assert(model.take(i as int + 1).drop_last() =~= model.take(i as int));
        assert(out@ =~= start + features_run(model.take(i as int + 1), ts));
    }
    assert(model.take(model.len() as int) =~= model);
}

/// The ring counts of a chunk are numbers of the format.
pub open spec fn writable(c: ChunkModel) -> bool {
    c matches ChunkModel::Vector { features, .. } ==> forall|i: int|
        0 <= i < features.len() ==> geometry_fits((#[trigger] features[i]).geometry)
}

/// The bytes of a chunk, properties written by the writing that is handed
/// in.
pub fn write_chunk<W: Fn(&Vec<(String, Json)>) -> Vec<u8>>(c: &Chunk, w: &W) -> (out: Vec<u8>)
    requires
        json::is_writing(*w),
        writable(c@),
    ensures
        out@ == chunk_bytes(c@, texts_of(*w, c@)),
{
    let mut out: Vec<u8> = Vec::new();
    bytes::push_le(&mut out, MAGIC as u64, 4);
    bytes::push_le(&mut out, VERSION as u64, 2);
    match c {
        Chunk::Raster(r) => {
            out.push(KIND_RASTER);
            bytes::push_le(&mut out, r.bands.len() as u16 as u64, 2);
            bytes::push_le(&mut out, r.width as u32 as u64, 4);
            bytes::push_le(&mut out, r.height as u32 as u64, 4);
            write_place(&mut out, &r.place);
            write_bands(&mut out, &r.bands);
        },
        Chunk::PointCloud(p) => {
            out.push(KIND_POINTS);
            bytes::push_le(&mut out, p.points.len() as u64, 8);
            write_place(&mut out, &p.place);
            write_points(&mut out, &p.points);
        },
        Chunk::Vector(v) => {
            out.push(KIND_VECTOR);
            bytes::push_le(&mut out, v.features.len() as u64, 8);
            write_place(&mut out, &v.place);
            assert forall|i: int| 0 <= i < v.features@.len() implies geometry_fits(
                (#[trigger] v.features@[i]).geometry@,
            ) by {
                assert(geometry_fits(chunk::features_model(v.features@)[i].geometry));
            }
            write_features(&mut out, &v.features, w);
        },
        Chunk::Tensor(t) => {
            out.push(KIND_TENSOR);
            bytes::push_le(&mut out, t.channels as u64, 2);
            bytes::push_le(&mut out, t.width as u32 as u64, 4);
            bytes::push_le(&mut out, t.height as u32 as u64, 4);
            write_place(&mut out, &t.place);
            write_words(&mut out, &t.data);
        },
    }
    assert(out@ =~= chunk_bytes(c@, texts_of(*w, c@)));
    out
}

// What is read.

/// The number of 64 bits at a place.
pub open spec fn real_at(b: Seq<u8>, pos: int) -> Real {
    Real { bits: bytes::number_at(b, pos, 8) as u64 }
}

pub open spec fn coord_at(b: Seq<u8>, pos: int) -> Coord {
    Coord { x: real_at(b, pos), y: real_at(b, pos + 8) }
}

pub open spec fn place_at(b: Seq<u8>, pos: int) -> Placement {
    Placement {
        resolution: real_at(b, pos),
        bbox: Bbox {
            min_x: real_at(b, pos + 8),
            min_y: real_at(b, pos + 16),
            max_x: real_at(b, pos + 24),
            max_y: real_at(b, pos + 32),
        },
        crs: Crs(bytes::number_at(b, pos + 40, 4) as u32),
    }
}

pub open spec fn point_at(b: Seq<u8>, pos: int) -> Point3 {
    Point3 {
        x: real_at(b, pos),
        y: real_at(b, pos + 8),
        z: real_at(b, pos + 16),
        intensity: bytes::number_at(b, pos + 24, 2) as u16,
        classification: b[pos + 26],
    }
}

pub open spec fn coords_from(b: Seq<u8>, pos: int, n: int) -> Seq<Coord> {
    Seq::new(n as nat, |i: int| coord_at(b, pos + 16 * i))
}

pub open spec fn reals_from(b: Seq<u8>, pos: int, n: int) -> Seq<Real> {
    Seq::new(n as nat, |i: int| real_at(b, pos + 8 * i))
}

pub open spec fn words_from(b: Seq<u8>, pos: int, n: int) -> Seq<u32> {
    Seq::new(n as nat, |i: int| bytes::number_at(b, pos + 4 * i, 4) as u32)
}

pub open spec fn points_from(b: Seq<u8>, pos: int, n: int) -> Seq<Point3> {
    Seq::new(n as nat, |i: int| point_at(b, pos + 27 * i))
}

/// A counted run of places, and where it ends.
pub open spec fn coords_at(b: Seq<u8>, pos: int) -> Option<(Seq<Coord>, int)> {
    if pos + 4 > b.len() {
        None
    } else {
        let n = bytes::number_at(b, pos, 4);
        if pos + 4 + 16 * n > b.len() {
            None
        } else {
            Some((coords_from(b, pos + 4, n), pos + 4 + 16 * n))
        }
    }
}

/// So many counted runs.
pub open spec fn lines_at(b: Seq<u8>, pos: int, n: int) -> Option<(Seq<Seq<Coord>>, int)>
    decreases n,
{
    if n <= 0 {
        Some((Seq::empty(), pos))
    } else {
        match lines_at(b, pos, n - 1) {
            None => None,
            Some((ls, p)) => match coords_at(b, p) {
                None => None,
                Some((cs, q)) => Some((ls.push(cs), q)),
            },
        }
    }
}

/// A polygon: the outer ring is always there, even under a ring count of
/// zero.
pub open spec fn polygon_at(b: Seq<u8>, pos: int) -> Option<(PolygonModel, int)> {
    if pos + 4 > b.len() {
        None
    } else {
        match coords_at(b, pos + 4) {
            None => None,
            Some((exterior, p)) => match lines_at(b, p, bytes::number_at(b, pos, 4) - 1) {
                None => None,
                Some((interiors, q)) => Some((PolygonModel { exterior, interiors }, q)),
            },
        }
    }
}

pub open spec fn polygons_at(b: Seq<u8>, pos: int, n: int) -> Option<(Seq<PolygonModel>, int)>
    decreases n,
{
    if n <= 0 {
        Some((Seq::empty(), pos))
    } else {
        match polygons_at(b, pos, n - 1) {
            None => None,
            Some((ps, p)) => match polygon_at(b, p) {
                None => None,
                Some((x, q)) => Some((ps.push(x), q)),
            },
        }
    }
}

/// A geometry and where it ends.
pub open spec fn geometry_at(b: Seq<u8>, pos: int) -> Result<(GeometryModel, int), SpillFault>
    decreases b.len() - pos, 0int,
{
    if pos < 0 || pos + 1 > b.len() {
        Err(SpillFault::Truncated)
    } else if b[pos] == GEOM_POINT {
        if pos + 17 > b.len() {
            Err(SpillFault::Truncated)
        } else {
            Ok((GeometryModel::Point(coord_at(b, pos + 1)), pos + 17))
        }
    } else if b[pos] == GEOM_MULTIPOINT {
        match coords_at(b, pos + 1) {
            None => Err(SpillFault::Truncated),
            Some((cs, p)) => Ok((GeometryModel::MultiPoint(cs), p)),
        }
    } else if b[pos] == GEOM_LINESTRING {
        match coords_at(b, pos + 1) {
            None => Err(SpillFault::Truncated),
            Some((cs, p)) => Ok((GeometryModel::LineString(cs), p)),
        }
    } else if b[pos] == GEOM_POLYGON {
        match polygon_at(b, pos + 1) {
            None => Err(SpillFault::Truncated),
            Some((x, p)) => Ok((GeometryModel::Polygon(x), p)),
        }
    } else if b[pos] > GEOM_COLLECTION {
        Err(SpillFault::GeometryTag)
    } else if pos + 5 > b.len() {
        Err(SpillFault::Truncated)
    } else {
        let n = bytes::number_at(b, pos + 1, 4);
        if b[pos] == GEOM_MULTILINESTRING {
            match lines_at(b, pos + 5, n) {
                None => Err(SpillFault::Truncated),
                Some((ls, p)) => Ok((GeometryModel::MultiLineString(ls), p)),
            }
        } else if b[pos] == GEOM_MULTIPOLYGON {
            match polygons_at(b, pos + 5, n) {
                None => Err(SpillFault::Truncated),
                Some((ps, p)) => Ok((GeometryModel::MultiPolygon(ps), p)),
            }
        } else {
            match geometries_at(b, pos + 5, n as nat) {
                Err(e) => Err(e),
                Ok((ms, p)) => Ok((GeometryModel::GeometryCollection(ms), p)),
            }
        }
    }
}

/// So many geometries.
pub open spec fn geometries_at(b: Seq<u8>, pos: int, n: nat) -> Result<
    (Seq<GeometryModel>, int),
    SpillFault,
>
    decreases b.len() - pos, n,
{
    if n == 0 {
        Ok((Seq::empty(), pos))
    } else {
        match geometries_at(b, pos, (n - 1) as nat) {
            Err(e) => Err(e),
            Ok((ms, p)) => if p < pos || p > b.len() {
                Err(SpillFault::Truncated)
            } else {
                match geometry_at(b, p) {
                    Err(e) => Err(e),
                    Ok((m, q)) => Ok((ms.push(m), q)),
                }
            },
        }
    }
}

/// A feature and where it ends.
pub open spec fn feature_at(b: Seq<u8>, pos: int) -> Result<(FeatureModel, int), SpillFault> {
    if pos + 8 > b.len() {
        Err(SpillFault::Truncated)
    } else {
        match geometry_at(b, pos + 8) {
            Err(e) => Err(e),
            Ok((geometry, p)) => if p + 4 > b.len() {
                Err(SpillFault::Truncated)
            } else {
                let n = bytes::number_at(b, p, 4);
                if n > MAX_FEATURES {
                    Err(SpillFault::PropertiesLength)
                } else if p + 4 + n > b.len() {
                    Err(SpillFault::Truncated)
                } else {
                    match members_in(b.subrange(p + 4, p + 4 + n)) {
                        None => Err(SpillFault::Properties),
                        Some(properties) => Ok(
                            (
                                FeatureModel {
                                    id: bytes::number_at(b, pos, 8) as u64,
                                    geometry,
                                    properties,
                                },
                                p + 4 + n,
                            ),
                        ),
                    }
                }
            },
        }
    }
}

/// So many features.
pub open spec fn features_at(b: Seq<u8>, pos: int, n: int) -> Result<
    (Seq<FeatureModel>, int),
    SpillFault,
>
    decreases n,
{
    if n <= 0 {
        Ok((Seq::empty(), pos))
    } else {
        match features_at(b, pos, n - 1) {
            Err(e) => Err(e),
            Ok((fs, p)) => match feature_at(b, p) {
                Err(e) => Err(e),
                Ok((f, q)) => Ok((fs.push(f), q)),
            },
        }
    }
}

/// So many bands of so many samples.
pub open spec fn bands_from(b: Seq<u8>, pos: int, n: int, samples: int) -> Seq<BandModel> {
    Seq::new(
        n as nat,
        |i: int|
            BandModel {
                nodata: real_at(b, pos + i * (8 + 8 * samples)),
                data: reals_from(b, pos + i * (8 + 8 * samples) + 8, samples),
            },
    )
}

/// A raster behind the header.
pub open spec fn raster_at(b: Seq<u8>) -> Result<ChunkModel, SpillFault> {
    if b.len() < 7 + 2 + 4 + 4 + 44 {
        Err(SpillFault::Truncated)
    } else {
        let n = bytes::number_at(b, 7, 2);
        let w = bytes::number_at(b, 9, 4);
        let h = bytes::number_at(b, 13, 4);
        if n == 0 || w == 0 || h == 0 || w * h > MAX_SAMPLES {
            Err(SpillFault::Geometry)
        } else if b.len() < 61 + n * (8 + 8 * (w * h)) {
            Err(SpillFault::Truncated)
        } else {
            Ok(
                ChunkModel::Raster {
                    width: w as usize,
                    height: h as usize,
                    bands: bands_from(b, 61, n, w * h),
                    place: place_at(b, 17),
                },
            )
        }
    }
}

/// A point cloud behind the header.
pub open spec fn point_cloud_at(b: Seq<u8>) -> Result<ChunkModel, SpillFault> {
    if b.len() < 7 + 8 + 44 {
        Err(SpillFault::Truncated)
    } else {
        let n = bytes::number_at(b, 7, 8);
        if n > MAX_SAMPLES {
            Err(SpillFault::PointCount)
        } else if b.len() < 59 + 27 * n {
            Err(SpillFault::Truncated)
        } else {
            Ok(ChunkModel::PointCloud { points: points_from(b, 59, n), place: place_at(b, 15) })
        }
    }
}

/// Features behind the header.
pub open spec fn vector_at(b: Seq<u8>) -> Result<ChunkModel, SpillFault> {
    if b.len() < 7 + 8 + 44 {
        Err(SpillFault::Truncated)
    } else {
        let n = bytes::number_at(b, 7, 8);
        if n > MAX_FEATURES {
            Err(SpillFault::FeatureCount)
        } else {
            match features_at(b, 59, n) {
                Err(e) => Err(e),
                Ok((features, _)) => Ok(ChunkModel::Vector { features, place: place_at(b, 15) }),
            }
        }
    }
}

/// A tensor behind the header.
pub open spec fn tensor_at(b: Seq<u8>) -> Result<ChunkModel, SpillFault> {
    if b.len() < 7 + 2 + 4 + 4 + 44 {
        Err(SpillFault::Truncated)
    } else {
        let n = bytes::number_at(b, 7, 2);
        let w = bytes::number_at(b, 9, 4);
        let h = bytes::number_at(b, 13, 4);
        if n == 0 || w == 0 || h == 0 || n * (w * h) > MAX_SAMPLES {
            Err(SpillFault::Geometry)
        } else if b.len() < 61 + 4 * (n * (w * h)) {
            Err(SpillFault::Truncated)
        } else {
            Ok(
                ChunkModel::Tensor {
                    channels: n as u16,
                    width: w as usize,
                    height: h as usize,
                    data: words_from(b, 61, n * (w * h)),
                    place: place_at(b, 17),
                },
            )
        }
    }
}

/// The chunk that bytes stand for, or the first thing wrong with them.
/// Bytes behind the chunk are not looked at.
pub open spec fn chunk_at(b: Seq<u8>) -> Result<ChunkModel, SpillFault> {
    if b.len() < 4 {
        Err(SpillFault::Truncated)
    } else if bytes::number_at(b, 0, 4) != MAGIC {
        Err(SpillFault::Magic)
    } else if b.len() < 6 {
        Err(SpillFault::Truncated)
    } else if bytes::number_at(b, 4, 2) != VERSION {
        Err(SpillFault::Version)
    } else if b.len() < 7 {
        Err(SpillFault::Truncated)
    } else if b[6] == KIND_RASTER {
        raster_at(b)
    } else if b[6] == KIND_POINTS {
        point_cloud_at(b)
    } else if b[6] == KIND_VECTOR {
        vector_at(b)
    } else if b[6] == KIND_TENSOR {
        tensor_at(b)
    } else {
        Err(SpillFault::Kind)
    }
}

// How it is read.

/// The number of `n` bytes at a place, where the bytes reach so far.
fn rd(b: &Vec<u8>, pos: usize, n: usize) -> (r: Option<u64>)
    requires
        n <= 8,
    ensures
        pos + n > b@.len() ==> r is None,
        pos + n <= b@.len() ==> r is Some && r->0 as int == bytes::number_at(
            b@,
            pos as int,
            n as int,
        ) && r->0 < bytes::span_of(n as nat),
{
    if n > b.len() || pos > b.len() - n {
        None
    } else {
        Some(bytes::read_le(b, pos, n))
    }
}

fn rd_u32(b: &Vec<u8>, pos: usize) -> (r: Option<u32>)
    ensures
        pos + 4 > b@.len() ==> r is None,
        pos + 4 <= b@.len() ==> r is Some && r->0 as int == bytes::number_at(b@, pos as int, 4),
{
    proof {
        bytes::spans();
    }
    match rd(b, pos, 4) {
        Some(v) => Some(v as u32),
        None => None,
    }
}

fn rd_real(b: &Vec<u8>, pos: usize) -> (r: Real)
    requires
        pos + 8 <= b@.len(),
    ensures
        r == real_at(b@, pos as int),
{
    Real { bits: bytes::read_le(b, pos, 8) }
}

fn rd_coord(b: &Vec<u8>, pos: usize) -> (r: Coord)
    requires
        pos + 16 <= b@.len(),
    ensures
        r == coord_at(b@, pos as int),
{
    let len: usize = b.len();
    assert(pos + 16 <= len);
    Coord { x: rd_real(b, pos), y: rd_real(b, pos + 8) }
}

fn rd_geo(b: &Vec<u8>, pos: usize) -> (r: Placement)
    requires
        pos + 44 <= b@.len(),
    ensures
        r == place_at(b@, pos as int),
{
    let len: usize = b.len();
    assert(pos + 44 <= len);
    proof {
        bytes::spans();
    }
    Placement {
        resolution: rd_real(b, pos),
        bbox: Bbox {
            min_x: rd_real(b, pos + 8),
            min_y: rd_real(b, pos + 16),
            max_x: rd_real(b, pos + 24),
            max_y: rd_real(b, pos + 32),
        },
        crs: Crs(bytes::read_le(b, pos + 40, 4) as u32),
    }
}

fn read_coords(b: &Vec<u8>, pos: usize) -> (r: Option<(Vec<Coord>, usize)>)
    requires
        pos <= b@.len(),
    ensures
        match coords_at(b@, pos as int) {
            None => r is None,
            Some((cs, p)) => r matches Some((v, q)) && v@ == cs && q == p && pos <= q <= b@.len(),
        },
{
    let len: usize = b.len();
    let n: usize = match rd_u32(b, pos) {
        None => {
            return None;
        },
        Some(n) => n as usize,
    };
    if n > (len - pos - 4) / 16 {
        return None;
    }
    let mut v: Vec<Coord> = Vec::new();
    for i in 0..n
        invariant
            len == b@.len(),
            pos + 4 + 16 * n <= len,
            v@ == coords_from(b@, pos + 4, i as int),
    {
        v.push(rd_coord(b, pos + 4 + 16 * i));
        assert(v@ =~= coords_from(b@, pos + 4, i + 1));
    }
    Some((v, pos + 4 + 16 * n))
}

proof fn lines_end_in_bounds(b: Seq<u8>, pos: int, n: int, m: int)
    requires
        0 <= n <= m,
        lines_at(b, pos, n) is None,
    ensures
        lines_at(b, pos, m) is None,
    decreases m - n,
{
    if n < m {
        lines_end_in_bounds(b, pos, n + 1, m);
    }
}

fn read_lines(b: &Vec<u8>, pos: usize, n: u32) -> (r: Option<(Vec<Vec<Coord>>, usize)>)
    requires
        pos <= b@.len(),
    ensures
        match lines_at(b@, pos as int, n as int) {
            None => r is None,
            Some((ls, p)) => r matches Some((v, q)) && chunk::lines_model(v@) == ls && q == p && pos
                <= q <= b@.len(),
        },
{
    let mut v: Vec<Vec<Coord>> = Vec::new();
    let mut p: usize = pos;
    assert(chunk::lines_model(v@) =~= Seq::empty());
    for i in 0..n
        invariant
            pos <= p <= b@.len(),
            lines_at(b@, pos as int, i as int) == Some((chunk::lines_model(v@), p as int)),
    {
        let ghost before = chunk::lines_model(v@);
        match read_coords(b, p) {
            None => {
                proof {
                    lines_end_in_bounds(b@, pos as int, i + 1, n as int);
                }
                return None;
            },
            Some((cs, q)) => {
                v.push(cs);
                p = q;
                assert(chunk::lines_model(v@) =~= before.push(cs@));
            },
        }
    }
    Some((v, p))
}

fn read_polygon(b: &Vec<u8>, pos: usize) -> (r: Option<(Polygon, usize)>)
    requires
        pos <= b@.len(),
    ensures
        match polygon_at(b@, pos as int) {
            None => r is None,
            Some((x, p)) => r matches Some((v, q)) && v@ == x && q == p && pos <= q <= b@.len(),
        },
{
    let len: usize = b.len();
    let rings: u32 = match rd_u32(b, pos) {
        None => {
            return None;
        },
        Some(n) => n,
    };
    assert(pos + 4 <= len);
    let (exterior, p) = match read_coords(b, pos + 4) {
        None => {
            return None;
        },
        Some(x) => x,
    };
    let holes: u32 = if rings == 0 {
        0
    } else {
        rings - 1
    };
    assert(lines_at(b@, p as int, holes as int) == lines_at(b@, p as int, rings - 1));
    match read_lines(b, p, holes) {
        None => None,
        Some((interiors, q)) => Some((Polygon { exterior, interiors }, q)),
    }
}

proof fn polygons_end_in_bounds(b: Seq<u8>, pos: int, n: int, m: int)
    requires
        0 <= n <= m,
        polygons_at(b, pos, n) is None,
    ensures
        polygons_at(b, pos, m) is None,
    decreases m - n,
{
    if n < m {
        polygons_end_in_bounds(b, pos, n + 1, m);
    }
}

fn read_polygons(b: &Vec<u8>, pos: usize, n: u32) -> (r: Option<(Vec<Polygon>, usize)>)
    requires
        pos <= b@.len(),
    ensures
        match polygons_at(b@, pos as int, n as int) {
            None => r is None,
            Some((ps, p)) => r matches Some((v, q)) && chunk::polygons_model(v@) == ps && q == p
                && pos <= q <= b@.len(),
        },
{
    let mut v: Vec<Polygon> = Vec::new();
    let mut p: usize = pos;
    assert(chunk::polygons_model(v@) =~= Seq::empty());
    for i in 0..n
        invariant
            pos <= p <= b@.len(),
            polygons_at(b@, pos as int, i as int) == Some((chunk::polygons_model(v@), p as int)),
    {
        let ghost before = chunk::polygons_model(v@);
        match read_polygon(b, p) {
            None => {
                proof {
                    polygons_end_in_bounds(b@, pos as int, i + 1, n as int);
                }
                return None;
            },
            Some((x, q)) => {
                v.push(x);
                p = q;
                assert(chunk::polygons_model(v@) =~= before.push(x@));
            },
        }
    }
    Some((v, p))
}

proof fn geometries_fail_alike(b: Seq<u8>, pos: int, n: nat, m: nat)
    requires
        n <= m,
        geometries_at(b, pos, n) is Err,
    ensures
        geometries_at(b, pos, m) == geometries_at(b, pos, n),
    decreases m - n,
{
    if n < m {
        geometries_fail_alike(b, pos, n, (m - 1) as nat);
    }
}

fn read_geometry(b: &Vec<u8>, pos: usize) -> (r: Result<(FeatureGeometry, usize), SpillFault>)
    requires
        pos <= b@.len(),
    ensures
        match geometry_at(b@, pos as int) {
            Err(e) => r == Err::<(FeatureGeometry, usize), SpillFault>(e),
            Ok((g, p)) => r matches Ok((x, q)) && x@ == g && q == p && pos < q <= b@.len(),
        },
    decreases b@.len() - pos,
{
    let len: usize = b.len();
    if pos >= len {
        return Err(SpillFault::Truncated);
    }
    let tag: u8 = b[pos];
    if tag == GEOM_POINT {
        if len - pos < 17 {
            return Err(SpillFault::Truncated);
        }
        return Ok((FeatureGeometry::Point(rd_coord(b, pos + 1)), pos + 17));
    }
    if tag == GEOM_MULTIPOINT {
        return match read_coords(b, pos + 1) {
            None => Err(SpillFault::Truncated),
            Some((cs, p)) => Ok((FeatureGeometry::MultiPoint(cs), p)),
        };
    }
    if tag == GEOM_LINESTRING {
        return match read_coords(b, pos + 1) {
            None => Err(SpillFault::Truncated),
            Some((cs, p)) => Ok((FeatureGeometry::LineString(cs), p)),
        };
    }
    if tag == GEOM_POLYGON {
        return match read_polygon(b, pos + 1) {
            None => Err(SpillFault::Truncated),
            Some((x, p)) => Ok((FeatureGeometry::Polygon(x), p)),
        };
    }
    if tag > GEOM_COLLECTION {
        return Err(SpillFault::GeometryTag);
    }
    let n: u32 = match rd_u32(b, pos + 1) {
        None => {
            return Err(SpillFault::Truncated);
        },
        Some(n) => n,
    };
    if tag == GEOM_MULTILINESTRING {
        return match read_lines(b, pos + 5, n) {
            None => Err(SpillFault::Truncated),
            Some((ls, p)) => Ok((FeatureGeometry::MultiLineString(ls), p)),
        };
    }
    if tag == GEOM_MULTIPOLYGON {
        return match read_polygons(b, pos + 5, n) {
            None => Err(SpillFault::Truncated),
            Some((ps, p)) => Ok((FeatureGeometry::MultiPolygon(ps), p)),
        };
    }
    let mut members: Vec<FeatureGeometry> = Vec::new();
    let mut p: usize = pos + 5;
    let ghost whole = geometries_at(b@, pos + 5, n as nat);
    assert(chunk::geometries_model(members@) =~= Seq::empty());
    for i in 0..n
        invariant
            pos + 5 <= p <= b@.len(),
            whole == geometries_at(b@, pos + 5, n as nat),
            geometry_at(b@, pos as int) == (match whole {
                Err(e) => Err::<(GeometryModel, int), SpillFault>(e),
                Ok((ms, p)) => Ok((GeometryModel::GeometryCollection(ms), p)),
            }),
            geometries_at(b@, pos + 5, i as nat) == Ok::<(Seq<GeometryModel>, int), SpillFault>(
                (chunk::geometries_model(members@), p as int),
            ),
    {
        let ghost before = chunk::geometries_model(members@);
        match read_geometry(b, p) {
            Err(e) => {
                proof {
                    geometries_fail_alike(b@, pos + 5, (i + 1) as nat, n as nat);
                }
                return Err(e);
            },
            Ok((m, q)) => {
                members.push(m);
                p = q;
                assert(chunk::geometries_model(members@) =~= before.push(m@));
            },
        }
    }
    proof {
        chunk::collection_model(members);
    }
    Ok((FeatureGeometry::GeometryCollection(members), p))
}

fn slice_of(b: &Vec<u8>, from: usize, to: usize) -> (r: Vec<u8>)
    requires
        from <= to <= b@.len(),
    ensures
        r@ == b@.subrange(from as int, to as int),
{
    let mut r: Vec<u8> = Vec::new();
    for i in from..to
        invariant
            from <= to <= b@.len(),
            r@ == b@.subrange(from as int, i as int),
    {
        r.push(b[i]);
        assert(r@ =~= b@.subrange(from as int, i + 1));
    }
    r
}

fn read_feature(b: &Vec<u8>, pos: usize) -> (r: Result<(VectorFeature, usize), SpillFault>)
    requires
        pos <= b@.len(),
    ensures
        match feature_at(b@, pos as int) {
            Err(e) => r == Err::<(VectorFeature, usize), SpillFault>(e),
            Ok((f, p)) => r matches Ok((x, q)) && x@ == f && q == p && pos <= q <= b@.len(),
        },
{
    let len: usize = b.len();
    let id: u64 = match rd(b, pos, 8) {
        None => {
            return Err(SpillFault::Truncated);
        },
        Some(v) => v,
    };
    assert(pos + 8 <= len);
    let (geometry, p) = match read_geometry(b, pos + 8) {
        Err(e) => {
            return Err(e);
        },
        Ok(x) => x,
    };
    let n: u32 = match rd_u32(b, p) {
        None => {
            return Err(SpillFault::Truncated);
        },
        Some(n) => n,
    };
    if n as u64 > MAX_FEATURES {
        return Err(SpillFault::PropertiesLength);
    }
    if n as usize > b.len() - p - 4 {
        return Err(SpillFault::Truncated);
    }
    let end: usize = p + 4 + n as usize;
    let raw = slice_of(b, p + 4, end);
    match read_members(&raw) {
        None => Err(SpillFault::Properties),
        Some(properties) => Ok((VectorFeature { id, geometry, properties }, end)),
    }
}

proof fn features_fail_alike(b: Seq<u8>, pos: int, n: int, m: int)
    requires
        0 <= n <= m,
        features_at(b, pos, n) is Err,
    ensures
        features_at(b, pos, m) == features_at(b, pos, n),
    decreases m - n,
{
    if n < m {
        features_fail_alike(b, pos, n, m - 1);
    }
}

fn read_vector(b: &Vec<u8>) -> (r: Result<Chunk, SpillFault>)
    requires
        b@.len() >= 7,
    ensures
        same_outcome(r, vector_at(b@)),
{
    let n: u64 = match rd(b, 7, 8) {
        None => {
            return Err(SpillFault::Truncated);
        },
        Some(v) => v,
    };
    if b.len() < 59 {
        return Err(SpillFault::Truncated);
    }
    let place = rd_geo(b, 15);
    if n > MAX_FEATURES {
        return Err(SpillFault::FeatureCount);
    }
    let mut features: Vec<VectorFeature> = Vec::new();
    let mut p: usize = 59;
    assert(chunk::features_model(features@) =~= Seq::empty());
    for i in 0..n
        invariant
            59 <= p <= b@.len(),
            n <= MAX_FEATURES,
            n == bytes::number_at(b@, 7, 8),
            features_at(b@, 59, i as int) == Ok::<(Seq<FeatureModel>, int), SpillFault>(
                (chunk::features_model(features@), p as int),
            ),
    {
        let ghost before = chunk::features_model(features@);
        match read_feature(b, p) {
            Err(e) => {
                proof {
                    features_fail_alike(b@, 59, i + 1, n as int);
                }
                return Err(e);
            },
            Ok((f, q)) => {
                features.push(f);
                p = q;
                assert(chunk::features_model(features@) =~= before.push(f@));
            },
        }
    }
    Ok(Chunk::Vector(VectorChunk { features, place }))
}

/// Reading gave what the bytes stand for.
pub open spec fn same_outcome(
    r: Result<Chunk, SpillFault>,
    s: Result<ChunkModel, SpillFault>,
) -> bool {
    match s {
        Err(e) => r matches Err(f) && f == e,
        Ok(m) => r matches Ok(c) && c@ == m,
    }
}

fn read_reals(b: &Vec<u8>, pos: usize, n: usize) -> (r: Vec<Real>)
    requires
        pos + 8 * n <= b@.len(),
    ensures
        r@ == reals_from(b@, pos as int, n as int),
{
    let len: usize = b.len();
    let mut v: Vec<Real> = Vec::new();
    assert(v@ =~= reals_from(b@, pos as int, 0));
    for i in 0..n
        invariant
            len == b@.len(),
            pos + 8 * n <= len,
            v@ == reals_from(b@, pos as int, i as int),
    {
        v.push(rd_real(b, pos + 8 * i));
        assert(v@ =~= reals_from(b@, pos as int, i + 1));
    }
    v
}

fn read_raster(b: &Vec<u8>) -> (r: Result<Chunk, SpillFault>)
    requires
        b@.len() >= 7,
    ensures
        same_outcome(r, raster_at(b@)),
        r matches Ok(c) ==> c.wf(),
{
    let len: usize = b.len();
    if len < 61 {
        return Err(SpillFault::Truncated);
    }
    proof {
        bytes::spans();
    }
    let n: u64 = bytes::read_le(b, 7, 2);
    let w: u64 = bytes::read_le(b, 9, 4);
    let h: u64 = bytes::read_le(b, 13, 4);
    let place = rd_geo(b, 17);
    if n == 0 || w == 0 || h == 0 {
        return Err(SpillFault::Geometry);
    }
    assert(w * h < 0x1_0000_0000_0000_0000) by (nonlinear_arith)
        requires
            w < 0x1_0000_0000,
            h < 0x1_0000_0000,
    ;
    let samples: u64 = w * h;
    if samples > MAX_SAMPLES {
        return Err(SpillFault::Geometry);
    }
    let step: u64 = 8 + 8 * samples;
    assert(n * step <= 0x1_0000 * 0x8000_0008) by (nonlinear_arith)
        requires
            n < 0x1_0000,
            step <= 0x8000_0008,
    ;
    if ((len - 61) as u64) < n * step {
        return Err(SpillFault::Truncated);
    }
    let size: usize = samples as usize;
    assert(1 * step <= n * step) by (nonlinear_arith)
        requires
            1 <= n,
    ;
    let mut bands: Vec<Band> = Vec::new();
    let mut pos: usize = 61;
    assert(0 * step == 0);
    assert(chunk::bands_model(bands@) =~= bands_from(b@, 61, 0, samples as int));
    for i in 0..n
        invariant
            len == b@.len(),
            samples == size,
            step == 8 + 8 * samples,
            61 + n * step <= len,
            pos == 61 + i * step,
            chunk::bands_model(bands@) == bands_from(b@, 61, i as int, samples as int),
            forall|k: int|
                0 <= k < bands@.len() ==> (#[trigger] bands@[k]).data@.len() == samples,
    {
        let ghost before = chunk::bands_model(bands@);
        assert(i * step + step <= n * step && (i + 1) * step == i * step + step) by (
        nonlinear_arith)
            requires
                i < n,
        ;
        let nodata = rd_real(b, pos);
        let data = read_reals(b, pos + 8, size);
        bands.push(Band { nodata, data });
        assert(chunk::bands_model(bands@) =~= before.push(BandModel { nodata, data: data@ }));
        assert(chunk::bands_model(bands@) =~= bands_from(b@, 61, i + 1, samples as int));
        pos = pos + 8 + 8 * size;
    }
    let width: usize = w as usize;
    let height: usize = h as usize;
    assert(w <= samples && h <= samples) by (nonlinear_arith)
        requires
            samples == w * h,
            w >= 1,
            h >= 1,
    ;
    Ok(Chunk::Raster(RasterChunk { width, height, bands, place }))
}

fn read_point_cloud(b: &Vec<u8>) -> (r: Result<Chunk, SpillFault>)
    requires
        b@.len() >= 7,
    ensures
        same_outcome(r, point_cloud_at(b@)),
{
    let len: usize = b.len();
    if len < 59 {
        return Err(SpillFault::Truncated);
    }
    proof {
        bytes::spans();
    }
    let n: u64 = bytes::read_le(b, 7, 8);
    let place = rd_geo(b, 15);
    if n > MAX_SAMPLES {
        return Err(SpillFault::PointCount);
    }
    if ((len - 59) as u64) < 27 * n {
        return Err(SpillFault::Truncated);
    }
    let count: usize = n as usize;
    let mut points: Vec<Point3> = Vec::new();
    assert(points@ =~= points_from(b@, 59, 0));
    for i in 0..count
        invariant
            len == b@.len(),
            59 + 27 * count <= len,
            points@ == points_from(b@, 59, i as int),
    {
        let pos: usize = 59 + 27 * i;
        proof {
            bytes::spans();
        }
        points.push(
            Point3 {
                x: rd_real(b, pos),
                y: rd_real(b, pos + 8),
                z: rd_real(b, pos + 16),
                intensity: bytes::read_le(b, pos + 24, 2) as u16,
                classification: b[pos + 26],
            },
        );
        assert(points@ =~= points_from(b@, 59, i + 1));
    }
    Ok(Chunk::PointCloud(PointChunk { points, place }))
}

fn read_tensor(b: &Vec<u8>) -> (r: Result<Chunk, SpillFault>)
    requires
        b@.len() >= 7,
    ensures
        same_outcome(r, tensor_at(b@)),
        r matches Ok(c) ==> c.wf(),
{
    let len: usize = b.len();
    if len < 61 {
        return Err(SpillFault::Truncated);
    }
    proof {
        bytes::spans();
    }
    let n: u64 = bytes::read_le(b, 7, 2);
    let w: u64 = bytes::read_le(b, 9, 4);
    let h: u64 = bytes::read_le(b, 13, 4);
    let place = rd_geo(b, 17);
    if n == 0 || w == 0 || h == 0 {
        return Err(SpillFault::Geometry);
    }
    assert(w * h < 0x1_0000_0000_0000_0000 && n * (w * h) < 0x1_0000_0000_0000_0000_0000) by (
    nonlinear_arith)
        requires
            n < 0x1_0000,
            w < 0x1_0000_0000,
            h < 0x1_0000_0000,
    ;
    let total: u128 = n as u128 * (w as u128 * h as u128);
    assert(total == n * (w * h));
    if total > MAX_SAMPLES as u128 {
        return Err(SpillFault::Geometry);
    }
    if ((len - 61) as u128) < 4 * total {
        return Err(SpillFault::Truncated);
    }
    let count: usize = total as usize;
    let mut data: Vec<u32> = Vec::new();
    assert(data@ =~= words_from(b@, 61, 0));
    for i in 0..count
        invariant
            len == b@.len(),
            61 + 4 * count <= len,
            data@ == words_from(b@, 61, i as int),
    {
        proof {
            bytes::spans();
        }
        data.push(bytes::read_le(b, 61 + 4 * i, 4) as u32);
        assert(data@ =~= words_from(b@, 61, i + 1));
    }
    assert(w <= total && h <= total) by (nonlinear_arith)
        requires
            total == n * (w * h),
            n >= 1,
            w >= 1,
            h >= 1,
    ;
    Ok(
        Chunk::Tensor(
            TensorChunk {
                channels: n as u16,
                width: w as usize,
                height: h as usize,
                data,
                place,
            },
        ),
    )
}

/// The chunk that bytes stand for.
pub fn read_chunk(b: &Vec<u8>) -> (r: Result<Chunk, SpillFault>)
    ensures
        same_outcome(r, chunk_at(b@)),
        r matches Ok(c) ==> c.wf(),
{
    match rd_u32(b, 0) {
        None => {
            return Err(SpillFault::Truncated);
        },
        Some(m) => {
            if m != MAGIC {
                return Err(SpillFault::Magic);
            }
        },
    }
    match rd(b, 4, 2) {
        None => {
            return Err(SpillFault::Truncated);
        },
        Some(v) => {
            if v != VERSION as u64 {
                return Err(SpillFault::Version);
            }
        },
    }
    if b.len() < 7 {
        return Err(SpillFault::Truncated);
    }
    let kind: u8 = b[6];
    if kind == KIND_RASTER {
        read_raster(b)
    } else if kind == KIND_POINTS {
        read_point_cloud(b)
    } else if kind == KIND_VECTOR {
        read_vector(b)
    } else if kind == KIND_TENSOR {
        read_tensor(b)
    } else {
        Err(SpillFault::Kind)
    }
}

/// The part of a file's name that tells pull times apart.
pub open spec fn time_part(time: Option<TimeInterval>) -> Seq<char> {
    match time {
        Some(t) => "_"@ + text::signed_decimal(t.start_ms as int) + "_"@ + text::signed_decimal(
            t.end_ms as int,
        ),
        None => Seq::empty(),
    }
}

/// The name of the file that holds a chunk of a node.
pub open spec fn file_name(node: usize, key: ChunkKey) -> Seq<char> {
    text::decimal(node as nat) + "_"@ + text::decimal(key.level as nat) + "_"@
        + text::signed_decimal(key.ix as int) + "_"@ + text::signed_decimal(key.iy as int)
        + time_part(key.time) + ".bin"@
}

/// The name of the file that holds a chunk of a node.
pub fn path(node: usize, key: &ChunkKey) -> (r: String)
    ensures
        r@ == file_name(node, *key),
{
    let mut r = text::decimal_text(node as u64);
    r.append("_");
    r.append(text::decimal_text(key.level as u64).as_str());
    r.append("_");
    r.append(text::signed_text(key.ix).as_str());
    r.append("_");
    r.append(text::signed_text(key.iy).as_str());
    let ghost head = r@;
    if let Some(t) = key.time {
        r.append("_");
        r.append(text::signed_text(t.start_ms).as_str());
        r.append("_");
        r.append(text::signed_text(t.end_ms).as_str());
    }
    assert(r@ =~= head + time_part(key.time));
    r.append(".bin");
    r
}

} // verus!
