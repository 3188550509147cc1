//! Chunks: what flows along a link, together with the window it covers. A
//! pull's response carries its own grid, since snapping may have widened
//! the window.

use vstd::prelude::*;

use crate::caps::Crs;
use crate::error::{ChunkKind, Error};
use crate::json;
use crate::json::{Json, JsonModel};
use crate::number::Real;
use crate::window::Bbox;

verus! {

/// A place in the plane.
#[derive(Clone, Copy, Debug, PartialEq, Eq, Structural)]
pub struct Coord {
    pub x: Real,
    pub y: Real,
}

/// A polygon: its outer ring and its holes.
#[derive(Debug)]
pub struct Polygon {
    pub exterior: Vec<Coord>,
    pub interiors: Vec<Vec<Coord>>,
}

/// The geometry of a feature.
#[derive(Debug)]
pub enum FeatureGeometry {
    Point(Coord),
    MultiPoint(Vec<Coord>),
    LineString(Vec<Coord>),
    MultiLineString(Vec<Vec<Coord>>),
    Polygon(Polygon),
    MultiPolygon(Vec<Polygon>),
    GeometryCollection(Vec<FeatureGeometry>),
}

/// What a [`Polygon`] is.
#[verifier::ext_equal]
pub struct PolygonModel {
    pub exterior: Seq<Coord>,
    pub interiors: Seq<Seq<Coord>>,
}

/// What a [`FeatureGeometry`] is.
#[verifier::ext_equal]
pub enum GeometryModel {
    Point(Coord),
    MultiPoint(Seq<Coord>),
    LineString(Seq<Coord>),
    MultiLineString(Seq<Seq<Coord>>),
    Polygon(PolygonModel),
    MultiPolygon(Seq<PolygonModel>),
    GeometryCollection(Seq<GeometryModel>),
}

/// The lines behind a list of vectors.
pub open spec fn lines_model(lines: Seq<Vec<Coord>>) -> Seq<Seq<Coord>> {
    Seq::new(lines.len(), |i: int| lines[i]@)
}

impl View for Polygon {
    type V = PolygonModel;

    open spec fn view(&self) -> PolygonModel {
        PolygonModel { exterior: self.exterior@, interiors: lines_model(self.interiors@) }
    }
}

pub open spec fn polygons_model(polygons: Seq<Polygon>) -> Seq<PolygonModel> {
    Seq::new(polygons.len(), |i: int| polygons[i]@)
}

/// What a geometry is, members and all.
pub open spec fn geometry_model(g: FeatureGeometry) -> GeometryModel
    decreases g,
{
    match g {
        FeatureGeometry::Point(c) => GeometryModel::Point(c),
        FeatureGeometry::MultiPoint(cs) => GeometryModel::MultiPoint(cs@),
        FeatureGeometry::LineString(cs) => GeometryModel::LineString(cs@),
        FeatureGeometry::MultiLineString(ls) => GeometryModel::MultiLineString(lines_model(ls@)),
        FeatureGeometry::Polygon(p) => GeometryModel::Polygon(p@),
        FeatureGeometry::MultiPolygon(ps) => GeometryModel::MultiPolygon(polygons_model(ps@)),
        FeatureGeometry::GeometryCollection(ms) => GeometryModel::GeometryCollection(
            Seq::new(
                ms@.len(),
                |i: int|
                    if 0 <= i < ms@.len() {
                        geometry_model(ms@[i])
                    } else {
                        arbitrary()
                    },
            ),
        ),
    }
}

impl View for FeatureGeometry {
    type V = GeometryModel;

    open spec fn view(&self) -> GeometryModel {
        geometry_model(*self)
    }
}

/// The geometries behind a list.
pub open spec fn geometries_model(gs: Seq<FeatureGeometry>) -> Seq<GeometryModel> {
    Seq::new(gs.len(), |i: int| gs[i]@)
}

pub proof fn collection_model(ms: Vec<FeatureGeometry>)
    ensures
        FeatureGeometry::GeometryCollection(ms)@ == GeometryModel::GeometryCollection(
            geometries_model(ms@),
        ),
{
    let whole = geometry_model(FeatureGeometry::GeometryCollection(ms));
    if let GeometryModel::GeometryCollection(s) = whole {
        assert(s =~= geometries_model(ms@));
    }
}

/// One band of a raster, row by row from the top.
#[derive(Debug)]
pub struct Band {
    pub nodata: Real,
    pub data: Vec<Real>,
}

#[verifier::ext_equal]
pub struct BandModel {
    pub nodata: Real,
    pub data: Seq<Real>,
}

impl View for Band {
    type V = BandModel;

    open spec fn view(&self) -> BandModel {
        BandModel { nodata: self.nodata, data: self.data@ }
    }
}

/// Where a chunk lies: its window, its ground resolution and its reference
/// system.
#[derive(Clone, Copy, Debug, PartialEq, Eq, Structural)]
pub struct Placement {
    pub bbox: Bbox,
    pub resolution: Real,
    pub crs: Crs,
}

/// A raster over one window.
#[derive(Debug)]
pub struct RasterChunk {
    pub width: usize,
    pub height: usize,
    pub bands: Vec<Band>,
    pub place: Placement,
}

/// A measured point.
#[derive(Clone, Copy, Debug, PartialEq, Eq, Structural)]
pub struct Point3 {
    pub x: Real,
    pub y: Real,
    pub z: Real,
    pub intensity: u16,
    pub classification: u8,
}

/// The points inside one window, thinned for its resolution.
#[derive(Debug)]
pub struct PointChunk {
    pub points: Vec<Point3>,
    pub place: Placement,
}

/// The piece of a source feature inside one window. `id` is the feature's
/// own, shared by all of its pieces; `properties` are its JSON members.
#[derive(Debug)]
pub struct VectorFeature {
    pub id: u64,
    pub geometry: FeatureGeometry,
    pub properties: Vec<(String, Json)>,
}

/// Features clipped to one window and simplified for its resolution.
#[derive(Debug)]
pub struct VectorChunk {
    pub features: Vec<VectorFeature>,
    pub place: Placement,
}

/// A tensor over one window: channel by channel, each row by row from the
/// top. An element is the bit pattern of a single-precision number.
#[derive(Debug)]
pub struct TensorChunk {
    pub channels: u16,
    pub width: usize,
    pub height: usize,
    pub data: Vec<u32>,
    pub place: Placement,
}

/// What flows along a link.
#[derive(Debug)]
pub enum Chunk {
    Raster(RasterChunk),
    PointCloud(PointChunk),
    Vector(VectorChunk),
    Tensor(TensorChunk),
}

#[verifier::ext_equal]
pub struct FeatureModel {
    pub id: u64,
    pub geometry: GeometryModel,
    pub properties: Seq<(Seq<char>, JsonModel)>,
}

impl View for VectorFeature {
    type V = FeatureModel;

    open spec fn view(&self) -> FeatureModel {
        FeatureModel {
            id: self.id,
            geometry: self.geometry@,
            properties: json::members_model(self.properties@),
        }
    }
}

pub open spec fn features_model(features: Seq<VectorFeature>) -> Seq<FeatureModel> {
    Seq::new(features.len(), |i: int| features[i]@)
}

pub open spec fn bands_model(bands: Seq<Band>) -> Seq<BandModel> {
    Seq::new(bands.len(), |i: int| bands[i]@)
}

/// What a [`Chunk`] holds.
#[verifier::ext_equal]
#[allow(inconsistent_fields)]
pub enum ChunkModel {
    Raster { width: usize, height: usize, bands: Seq<BandModel>, place: Placement },
    PointCloud { points: Seq<Point3>, place: Placement },
    Vector { features: Seq<FeatureModel>, place: Placement },
    Tensor { channels: u16, width: usize, height: usize, data: Seq<u32>, place: Placement },
}

impl View for Chunk {
    type V = ChunkModel;

    open spec fn view(&self) -> ChunkModel {
        match *self {
            Chunk::Raster(r) => ChunkModel::Raster {
                width: r.width,
                height: r.height,
                bands: bands_model(r.bands@),
                place: r.place,
            },
            Chunk::PointCloud(p) => ChunkModel::PointCloud { points: p.points@, place: p.place },
            Chunk::Vector(v) => ChunkModel::Vector {
                features: features_model(v.features@),
                place: v.place,
            },
            Chunk::Tensor(t) => ChunkModel::Tensor {
                channels: t.channels,
                width: t.width,
                height: t.height,
                data: t.data@,
                place: t.place,
            },
        }
    }
}

impl RasterChunk {
    /// Every band covers the window.
    pub open spec fn wf(&self) -> bool {
        forall|i: int|
            0 <= i < self.bands@.len() ==> (#[trigger] self.bands@[i]).data@.len() == self.width
                * self.height
    }
}

impl TensorChunk {
    /// The data cover the window in every channel.
    pub open spec fn wf(&self) -> bool {
        self.data@.len() == self.channels * (self.width * self.height)
    }
}

impl Chunk {
    pub open spec fn wf(&self) -> bool {
        match *self {
            Chunk::Raster(r) => r.wf(),
            Chunk::Tensor(t) => t.wf(),
            _ => true,
        }
    }

    pub fn raster(&self) -> (r: Result<&RasterChunk, Error>)
        ensures
            match r {
                Ok(c) => *self == Chunk::Raster(*c),
                Err(e) => !(self is Raster) && e == Error::Kind(ChunkKind::Raster),
            },
    {
        match self {
            Chunk::Raster(r) => Ok(r),
            _ => Err(Error::Kind(ChunkKind::Raster)),
        }
    }

    pub fn into_raster(self) -> (r: Result<RasterChunk, Error>)
        ensures
            match r {
                Ok(c) => self == Chunk::Raster(c),
                Err(e) => !(self is Raster) && e == Error::Kind(ChunkKind::Raster),
            },
    {
        match self {
            Chunk::Raster(r) => Ok(r),
            _ => Err(Error::Kind(ChunkKind::Raster)),
        }
    }

    pub fn points(&self) -> (r: Result<&PointChunk, Error>)
        ensures
            match r {
                Ok(c) => *self == Chunk::PointCloud(*c),
                Err(e) => !(self is PointCloud) && e == Error::Kind(ChunkKind::PointCloud),
            },
    {
        match self {
            Chunk::PointCloud(p) => Ok(p),
            _ => Err(Error::Kind(ChunkKind::PointCloud)),
        }
    }

    pub fn into_points(self) -> (r: Result<PointChunk, Error>)
        ensures
            match r {
                Ok(c) => self == Chunk::PointCloud(c),
                Err(e) => !(self is PointCloud) && e == Error::Kind(ChunkKind::PointCloud),
            },
    {
        match self {
            Chunk::PointCloud(p) => Ok(p),
            _ => Err(Error::Kind(ChunkKind::PointCloud)),
        }
    }

    pub fn vector(&self) -> (r: Result<&VectorChunk, Error>)
        ensures
            match r {
                Ok(c) => *self == Chunk::Vector(*c),
                Err(e) => !(self is Vector) && e == Error::Kind(ChunkKind::Vector),
            },
    {
        match self {
            Chunk::Vector(v) => Ok(v),
            _ => Err(Error::Kind(ChunkKind::Vector)),
        }
    }

    pub fn into_vector(self) -> (r: Result<VectorChunk, Error>)
        ensures
            match r {
                Ok(c) => self == Chunk::Vector(c),
                Err(e) => !(self is Vector) && e == Error::Kind(ChunkKind::Vector),
            },
    {
        match self {
            Chunk::Vector(v) => Ok(v),
            _ => Err(Error::Kind(ChunkKind::Vector)),
        }
    }

    pub fn tensor(&self) -> (r: Result<&TensorChunk, Error>)
        ensures
            match r {
                Ok(c) => *self == Chunk::Tensor(*c),
                Err(e) => !(self is Tensor) && e == Error::Kind(ChunkKind::Tensor),
            },
    {
        match self {
            Chunk::Tensor(t) => Ok(t),
            _ => Err(Error::Kind(ChunkKind::Tensor)),
        }
    }

    pub fn into_tensor(self) -> (r: Result<TensorChunk, Error>)
        ensures
            match r {
                Ok(c) => self == Chunk::Tensor(c),
                Err(e) => !(self is Tensor) && e == Error::Kind(ChunkKind::Tensor),
            },
    {
        match self {
            Chunk::Tensor(t) => Ok(t),
            _ => Err(Error::Kind(ChunkKind::Tensor)),
        }
    }
}

} // verus!
