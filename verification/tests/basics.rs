use geoplumb::cache::{Action, ChunkCache, Slot};
use std::hash::{DefaultHasher, Hash, Hasher};

use geoplumb::caps::{
    Caps, CapsSet, Constraint, Crs, Dtype, PointCaps, RasterCaps, ResRange, TensorCaps, TensorDtype,
};
use geoplumb::chunk::{
    Band, Chunk, Coord, FeatureGeometry, Placement, Point3, PointChunk, RasterChunk, TensorChunk,
    VectorChunk, VectorFeature,
};
use geoplumb::elements::raster_source;
use geoplumb::error::{ChunkKind, Error};
use geoplumb::graph::{Graph, NodeId};
use geoplumb::json;
use geoplumb::json::Json;
use geoplumb::number::Real;
use geoplumb::ranks::{greatest_of, least_of, sort_total};
use geoplumb::text::{decimal_text, padded_text, same_text, signed_text};
use geoplumb::window::{Bbox, ChunkKey};

fn num(v: f64) -> Real {
    Real::from_bits(v.to_bits())
}

fn place() -> Placement {
    Placement {
        bbox: Bbox::new(num(0.0), num(0.0), num(1.0), num(1.0)),
        resolution: num(1.0),
        crs: Crs(4326),
    }
}

fn outside(j: &Json) -> serde_json::Value {
    match j {
        Json::Null => serde_json::Value::Null,
        Json::Bool(b) => serde_json::Value::from(*b),
        Json::Number(n) => match n.int {
            Some(i) => serde_json::Value::from(i),
            None => serde_json::Value::from(f64::from_bits(n.real.to_bits())),
        },
        Json::Text(t) => serde_json::Value::from(t.as_str()),
        Json::List(v) => serde_json::Value::Array(v.iter().map(outside).collect()),
        Json::Object(m) => {
            serde_json::Value::Object(m.iter().map(|(k, v)| (k.clone(), outside(v))).collect())
        }
    }
}

fn written(members: &Vec<(String, Json)>) -> Vec<u8> {
    let object: serde_json::Map<String, serde_json::Value> =
        members.iter().map(|(k, v)| (k.clone(), outside(v))).collect();
    serde_json::to_vec(&object).unwrap()
}

fn members(raw: &str) -> Vec<(String, Json)> {
    match json::parse(&raw.as_bytes().to_vec()) {
        Ok(Json::Object(m)) => m,
        other => panic!("unexpected {other:?}"),
    }
}

#[test]
fn numbers_compare_as_doubles_do() {
    let values = [
        f64::NEG_INFINITY,
        -2.5,
        -0.0,
        0.0,
        1.0,
        f64::MAX,
        f64::INFINITY,
        f64::NAN,
        -f64::NAN,
    ];
    for a in values {
        for b in values {
            let (x, y) = (num(a), num(b));
            assert_eq!(x.lt(y), a < b);
            assert_eq!(x.le(y), a <= b);
            assert_eq!(x.eq_num(y), a == b);
            assert_eq!(x.total_lt(y), a.total_cmp(&b).is_lt());
            assert_eq!(x.max(y).is_nan(), a.max(b).is_nan());
            assert_eq!(x.min(y).is_nan(), a.min(b).is_nan());
        }
        assert_eq!(num(a).is_nan(), a.is_nan());
        assert_eq!(num(a).is_finite(), a.is_finite());
        assert_eq!(num(a).neg().to_bits(), (-a).to_bits());
        assert_eq!(num(a).abs().to_bits(), a.abs().to_bits());
    }
    assert_eq!(num(1.0).max(num(2.0)), num(2.0));
    assert_eq!(num(1.0).min(num(f64::NAN)), num(1.0));
    assert!(Real::not_a_number().is_nan());
    assert_eq!(Real::infinity(), num(f64::INFINITY));
    assert_eq!(Real::neg_infinity(), num(f64::NEG_INFINITY));
    assert_eq!(Real::zero(), num(0.0));
}

#[test]
fn values_sort_in_the_total_order() {
    let v = vec![num(2.0), num(f64::NAN), num(-1.0), num(0.0), num(-0.0)];
    let sorted = sort_total(&v);
    assert_eq!(sorted[..4], [num(-1.0), num(-0.0), num(0.0), num(2.0)]);
    assert!(sorted[4].is_nan());
    assert_eq!(least_of(&v, num(f64::INFINITY)), num(-1.0));
    assert_eq!(greatest_of(&v, num(f64::NEG_INFINITY)), num(2.0));
}

#[test]
fn integers_are_written_out() {
    assert_eq!(decimal_text(0), "0");
    assert_eq!(decimal_text(u64::MAX), u64::MAX.to_string());
    assert_eq!(signed_text(i64::MIN), i64::MIN.to_string());
    assert_eq!(signed_text(17), "17");
    assert_eq!(padded_text(7, 3), "007");
    assert!(same_text("ab", "ab") && !same_text("ab", "abc"));
}

#[test]
fn a_walk_visits_parents_first() {
    let any = || Constraint::Identity(CapsSet::any_raster());
    let mut g = Graph::new();
    let a = g.add_source(raster_source(1, Crs(4326), num(1.0)));
    let b = g.add_transform(a, any());
    let c = g.add_source(raster_source(1, Crs(4326), num(1.0)));
    let d = g.add_fanin(vec![b, c], any());
    assert_eq!(g.topo_order(), [0, 1, 2, 3]);
    assert_eq!(g.children(a), [b.0]);
    assert_eq!(g.children(c), [d.0]);
    assert_eq!(g.parents(d), [b.0, c.0]);
    let put = g.splice(a, b, any());
    assert_eq!(put, NodeId(4));
    assert_eq!(g.parents(b), [4]);
    assert_eq!(g.parents(put), [0]);
    assert_eq!(g.topo_order(), [0, 2, 4, 1, 3]);
}

#[test]
fn caps_are_hashed_field_by_field() {
    let raster = |bands: u16| {
        Caps::Raster(RasterCaps {
            dtype: Dtype::F64,
            bands,
            crs: Crs(4326),
            resolution: ResRange::any(),
            chunk_px: 256,
        })
    };
    let points = Caps::PointCloud(PointCaps {
        crs: Crs(4326),
        resolution: ResRange::any(),
        chunk_px: 256,
    });
    assert_ne!(raster(1).fingerprint(), raster(2).fingerprint());
    assert_eq!(raster(1).fingerprint(), raster(1).fingerprint());
    assert_ne!(raster(1).fingerprint(), points.fingerprint());
    let mut h = DefaultHasher::new();
    0u8.hash(&mut h);
    Dtype::F64.hash(&mut h);
    7u16.hash(&mut h);
    Crs(4326).hash(&mut h);
    256u32.hash(&mut h);
    0.0f64.to_bits().hash(&mut h);
    f64::INFINITY.to_bits().hash(&mut h);
    assert_eq!(raster(7).fingerprint(), h.finish());
    let mut h = DefaultHasher::new();
    1u8.hash(&mut h);
    Crs(4326).hash(&mut h);
    256u32.hash(&mut h);
    0.0f64.to_bits().hash(&mut h);
    f64::INFINITY.to_bits().hash(&mut h);
    assert_eq!(points.fingerprint(), h.finish());
    let tensor = Caps::Tensor(TensorCaps {
        dtype: TensorDtype::F32,
        channels: 3,
        crs: Crs(1),
        resolution: ResRange::any(),
        chunk_px: 2,
    });
    let mut h = DefaultHasher::new();
    3u8.hash(&mut h);
    TensorDtype::F32.hash(&mut h);
    3u16.hash(&mut h);
    Crs(1).hash(&mut h);
    2u32.hash(&mut h);
    0.0f64.to_bits().hash(&mut h);
    f64::INFINITY.to_bits().hash(&mut h);
    assert_eq!(tensor.fingerprint(), h.finish());
}

#[test]
fn chunks_know_their_kind_and_size() {
    let raster = || {
        Chunk::Raster(RasterChunk {
            width: 2,
            height: 3,
            bands: vec![Band { nodata: num(0.0), data: vec![num(0.0); 6] }],
            place: place(),
        })
    };
    assert_eq!(raster().byte_size(24, &written), 48);
    assert!(raster().into_raster().is_ok());
    assert!(matches!(raster().into_points(), Err(Error::Kind(ChunkKind::PointCloud))));
    assert!(matches!(raster().into_vector(), Err(Error::Kind(ChunkKind::Vector))));
    assert!(matches!(raster().into_tensor(), Err(Error::Kind(ChunkKind::Tensor))));
    let tensor = Chunk::Tensor(TensorChunk {
        channels: 1,
        width: 2,
        height: 1,
        data: vec![0, 0],
        place: place(),
    });
    assert_eq!(tensor.byte_size(24, &written), 8);
    let points = Chunk::PointCloud(PointChunk { points: Vec::<Point3>::new(), place: place() });
    assert_eq!(points.byte_size(24, &written), 0);
}

#[test]
fn a_spilled_chunk_leaves_memory_for_the_disk() {
    let slot = |level: u8| Slot { node: 3, key: ChunkKey { level, ix: 0, iy: 0, time: None } };
    let mut cache: ChunkCache<u8, u32> = ChunkCache::new();
    cache.request(slot(0), 0);
    cache.finish_chunk(slot(0), 1, 60, false, 100, Some(1000));
    cache.mark_spilled(slot(0));
    cache.request(slot(2), 0);
    cache.finish_chunk(slot(2), 2, 60, false, 100, Some(1000));
    assert_eq!(cache.coarsest_level(3), 2);
    assert_eq!(cache.coarsest_level(4), 0);
    assert_eq!(cache.keys_of(3).len(), 2);
    assert_eq!(cache.request(slot(0), 0), Action::Load);
    assert_eq!(cache.request(slot(2), 0), Action::Hit);
}

#[test]
fn properties_are_accounted_as_they_are_written() {
    let chunk = |raw: &str| {
        Chunk::Vector(VectorChunk {
            features: vec![VectorFeature {
                id: 1,
                geometry: FeatureGeometry::Point(Coord { x: num(0.0), y: num(0.0) }),
                properties: members(raw),
            }],
            place: place(),
        })
    };
    assert_eq!(chunk("{\"a\":1}").byte_size(24, &written), 32 + 7);
    assert_eq!(chunk("{ \"a\" : 1 }").byte_size(24, &written), 32 + 7);
    assert_eq!(chunk("{\"a\":[1.5,null,true,\"t\"]}").byte_size(24, &written), 32 + 25);
    assert_eq!(chunk("{}").counted_size(24, &written), Some(34));
}
