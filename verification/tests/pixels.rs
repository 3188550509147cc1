use geoplumb::assemble;
use geoplumb::assemble::{assemble_points, assemble_raster, ChunkMap};
use geoplumb::caps::{Caps, Crs, Dtype, RasterCaps, ResRange};
use geoplumb::chunk::{
    Band, Chunk, Coord, FeatureGeometry, Placement, Point3, PointChunk, Polygon, RasterChunk,
    TensorChunk, VectorChunk, VectorFeature,
};
use geoplumb::elements::{Mosaic, QualityMask, ToRaster, ToTensor};
use geoplumb::encode::png_gray;
use geoplumb::error::{ChunkKind, Error};
use geoplumb::formula::plane;
use geoplumb::json;
use geoplumb::json::Json;
use geoplumb::number::Real;
use geoplumb::resample::{block_range, gather_block, sample, sample_level, Sample};
use geoplumb::spill;
use geoplumb::spill::SpillFault;
use geoplumb::tensor::{Offset, TensorConv};
use geoplumb::window::{Bbox, ChunkKey, TimeInterval};

fn num(v: f64) -> Real {
    Real::from_bits(v.to_bits())
}

fn nums(v: &[f64]) -> Vec<Real> {
    v.iter().map(|x| num(*x)).collect()
}

fn place() -> Placement {
    Placement {
        bbox: Bbox::new(num(0.0), num(0.0), num(2.0), num(2.0)),
        resolution: num(1.0),
        crs: Crs(3857),
    }
}

fn raster(width: usize, height: usize, data: &[f64]) -> RasterChunk {
    RasterChunk {
        width,
        height,
        bands: vec![Band { nodata: num(f64::NAN), data: nums(data) }],
        place: place(),
    }
}

#[test]
fn a_mask_keeps_listed_codes() {
    let bands = vec![
        Band { nodata: num(-9.0), data: nums(&[10.0, 20.0, 30.0, 40.0]) },
        Band { nodata: num(0.0), data: nums(&[4.0, 8.0, 0.0, 4.0]) },
    ];
    let flags = vec![vec![false, false, false, true], vec![false, false, true, false]];
    let mask = QualityMask::new(1, nums(&[4.0, 0.0]));
    let out = mask.compute(&bands, &flags, 4);
    assert_eq!(out[0].data[0], num(10.0));
    assert_eq!(out[1].data[0], num(4.0));
    for p in 1..4 {
        assert!(out[0].data[p].is_nan(), "{p}");
    }
    assert!(out[1].data[1].is_nan() && out[1].data[2].is_nan());
    assert_eq!(out[1].data[3], num(4.0));
    assert!(out[0].nodata.is_nan());
}

#[test]
fn the_first_input_with_a_value_wins() {
    let a = vec![Some(num(1.0)), None, None];
    let b = vec![Some(num(2.0)), Some(num(3.0)), None];
    assert_eq!(
        Mosaic.compute(&vec![a, b], num(-1.0), 3),
        nums(&[1.0, 3.0, -1.0])
    );
}

#[test]
fn a_value_between_cells_comes_from_what_is_there() {
    let data = nums(&[1.0, 2.0, 3.0, 4.0]);
    let none = vec![false; 4];
    let at = |r: i64, c: i64, nodata: &Vec<bool>| sample(&data, nodata, 2, 2, r, c);
    assert_eq!(at(0, 0, &none), Sample::Blend(num(1.0), num(2.0), num(3.0), num(4.0)));
    assert_eq!(at(-1, -1, &none), Sample::Take(num(1.0)));
    assert_eq!(at(1, 1, &none), Sample::Take(num(4.0)));
    assert_eq!(at(5, 5, &none), Sample::Nothing);
    assert_eq!(at(0, 0, &vec![true, false, false, false]), Sample::Take(num(2.0)));
}

#[test]
fn blocks_stay_inside_the_raster() {
    assert_eq!(block_range(-1, 3, 10), (0, 2));
    assert_eq!(block_range(8, 4, 10), (8, 10));
    assert_eq!(block_range(-5, 3, 10), (0, 0));
    let data = nums(&[1.0, 2.0, 3.0, f64::INFINITY, 5.0, 6.0]);
    let flags = vec![false, true, false, false, false, false];
    assert_eq!(gather_block(&data, &flags, 3, 2, (0, 2), (0, 2)), nums(&[1.0, 5.0]));
    assert!(gather_block(&data, &flags, 3, 2, (2, 2), (0, 3)).is_empty());
}

fn mix(sum: u32, v: u32, k: u32) -> u32 {
    (f32::from_bits(sum) + f32::from_bits(v) * f32::from_bits(k)).to_bits()
}

fn tensor(data: &[f32]) -> TensorChunk {
    TensorChunk {
        channels: 1,
        width: 3,
        height: 3,
        data: data.iter().map(|v| v.to_bits()).collect(),
        place: place(),
    }
}

#[test]
fn a_convolution_pads_with_nothing_and_keeps_holes() {
    let ones = TensorConv { kernel: vec![1.0f32.to_bits(); 9] };
    let whole = tensor(&[1.0, 1.0, 1.0, 1.0, f32::NAN, 1.0, 1.0, 1.0, 1.0]);
    let at = Offset { row0: 0, col0: 0, cols: 3, rows: 3 };
    let out = ones.compute(&mix, &whole, at, place());
    let values: Vec<f32> = out.data.iter().map(|b| f32::from_bits(*b)).collect();
    assert_eq!(values[0], 3.0);
    assert_eq!(values[1], 5.0 - 0.0);
    assert!(values[4].is_nan());
    let off = Offset { row0: 5, col0: 0, cols: 1, rows: 1 };
    assert!(f32::from_bits(ones.compute(&mix, &whole, off, place()).data[0]).is_nan());
    let shifted = TensorConv {
        kernel: [0.0f32, 0.0, 0.0, 1.0, 0.0, 0.0, 0.0, 0.0, 0.0].map(f32::to_bits).to_vec(),
    };
    let ramp = tensor(&[1.0, 2.0, 3.0, 4.0, 5.0, 6.0, 7.0, 8.0, 9.0]);
    let inner = Offset { row0: 1, col0: 1, cols: 1, rows: 1 };
    let out = shifted.compute(&mix, &ramp, inner, place());
    assert_eq!(f32::from_bits(out.data[0]), 4.0);
}

fn stretch(v: Real) -> u8 {
    f64::from_bits(v.to_bits()) as u8
}

#[test]
fn a_tile_is_a_png_with_holes() {
    let chunk = raster(2, 2, &[10.0, 20.0, f64::NAN, 30.0]);
    let file = png_gray(&chunk, &vec![false, false, false, true], &stretch).unwrap();
    assert_eq!(&file[..8], b"\x89PNG\r\n\x1a\n");
    let mut reader = png::Decoder::new(&file[..]).read_info().unwrap();
    let mut buf = vec![0; reader.output_buffer_size()];
    let info = reader.next_frame(&mut buf).unwrap();
    assert_eq!((info.width, info.height), (2, 2));
    assert_eq!(&buf[..info.buffer_size()], &[10, 255, 20, 255, 0, 0, 0, 0]);
}

#[test]
fn an_image_needs_a_band_and_a_size() {
    let mut none = raster(0, 2, &[]);
    let faulty = png_gray(&none, &Vec::new(), &stretch);
    assert!(format!("{faulty:?}").contains("png header: Zero width not allowed"));
    none.bands.clear();
    assert!(format!("{:?}", png_gray(&none, &Vec::new(), &stretch)).contains("empty chunk"));
    let short = raster(2, 2, &[1.0]);
    assert!(format!("{:?}", png_gray(&short, &vec![false], &stretch)).contains("png data"));
}

// Chunks on disk.

fn outside(j: &Json) -> serde_json::Value {
    match j {
        Json::Null => serde_json::Value::Null,
        Json::Bool(b) => serde_json::Value::from(*b),
        Json::Number(n) => match n.int {
            Some(i) => serde_json::Value::from(i),
            None => serde_json::Value::from(f64::from_bits(n.real.to_bits())),
        },
        Json::Text(t) => serde_json::Value::from(t.as_str()),
        Json::List(v) => serde_json::Value::Array(v.iter().map(outside).collect()),
        Json::Object(m) => {
            serde_json::Value::Object(m.iter().map(|(k, v)| (k.clone(), outside(v))).collect())
        }
    }
}

fn written(members: &Vec<(String, Json)>) -> Vec<u8> {
    let object: serde_json::Map<String, serde_json::Value> =
        members.iter().map(|(k, v)| (k.clone(), outside(v))).collect();
    serde_json::to_vec(&object).unwrap()
}

fn members(raw: &str) -> Vec<(String, Json)> {
    match json::parse(&raw.as_bytes().to_vec()) {
        Ok(Json::Object(m)) => m,
        other => panic!("unexpected {other:?}"),
    }
}

fn features() -> Chunk {
    let c = |x: f64, y: f64| Coord { x: num(x), y: num(y) };
    let ring = vec![c(0.0, 0.0), c(1.0, 0.0), c(1.0, 1.0), c(0.0, 0.0)];
    let area = Polygon { exterior: ring.clone(), interiors: vec![ring.clone()] };
    let one = |id: u64, geometry: FeatureGeometry| VectorFeature {
        id,
        geometry,
        properties: members(r#"{"a":1,"b":[0.5,{"c":null}]}"#),
    };
    Chunk::Vector(VectorChunk {
        features: vec![
            one(1, FeatureGeometry::Point(c(0.5, 0.5))),
            one(2, FeatureGeometry::MultiLineString(vec![ring.clone(), vec![]])),
            one(
                3,
                FeatureGeometry::GeometryCollection(vec![
                    FeatureGeometry::Polygon(area),
                    FeatureGeometry::MultiPoint(ring.clone()),
                    FeatureGeometry::LineString(ring),
                ]),
            ),
        ],
        place: place(),
    })
}

#[test]
fn written_chunks_read_back_bit_by_bit() {
    let mut rings = raster(2, 1, &[1.0, f64::NAN]);
    rings.bands.push(Band { nodata: num(-0.0), data: nums(&[f64::INFINITY, -0.0]) });
    let points = PointChunk {
        points: vec![Point3 {
            x: num(1.0),
            y: num(2.0),
            z: num(3.0),
            intensity: 7,
            classification: 2,
        }],
        place: place(),
    };
    let chunks = [
        Chunk::Raster(rings),
        Chunk::PointCloud(points),
        features(),
        Chunk::Tensor(TensorChunk { channels: 2, width: 1, height: 1, data: vec![1, 2], place: place() }),
    ];
    for chunk in chunks {
        let bytes = spill::write_chunk(&chunk, &written);
        let back = spill::read_chunk(&bytes).unwrap();
        assert_eq!(format!("{back:?}"), format!("{chunk:?}"));
    }
}

#[test]
fn foreign_bytes_are_refused() {
    let good = spill::write_chunk(&Chunk::Raster(raster(1, 1, &[1.0])), &written);
    assert_eq!(spill::read_chunk(&Vec::new()).unwrap_err(), SpillFault::Truncated);
    let mut magic = good.clone();
    magic[0] ^= 0xff;
    assert_eq!(spill::read_chunk(&magic).unwrap_err(), SpillFault::Magic);
    let mut version = good.clone();
    version[4] ^= 0xff;
    assert_eq!(spill::read_chunk(&version).unwrap_err(), SpillFault::Version);
    let mut kind = good.clone();
    kind[6] = 9;
    assert_eq!(spill::read_chunk(&kind).unwrap_err(), SpillFault::Kind);
    let cut = good[..good.len() - 1].to_vec();
    assert_eq!(spill::read_chunk(&cut).unwrap_err(), SpillFault::Truncated);
    let listing = |_: &Vec<(String, Json)>| b"[1]".to_vec();
    let no_object = spill::write_chunk(&features(), &listing);
    assert_eq!(spill::read_chunk(&no_object).unwrap_err(), SpillFault::Properties);
    let key = ChunkKey { level: 3, ix: -2, iy: 5, time: None };
    let timed = key.at_time(Some(TimeInterval::new(0, 1)));
    assert_eq!(spill::path(1, &key), "1_3_-2_5.bin");
    assert_eq!(spill::path(1, &timed), "1_3_-2_5_0_1.bin");
    assert_ne!(spill::path(1, &key), spill::path(2, &key));
}

#[test]
fn tiles_are_laid_side_by_side() {
    let left = raster(1, 2, &[1.0, 3.0]);
    let right = raster(1, 2, &[2.0, 4.0]);
    let map = |col: usize| ChunkMap { rows: vec![Some(0), Some(1)], cols: vec![Some(col)] };
    let caps = RasterCaps {
        dtype: Dtype::F64,
        bands: 1,
        crs: Crs(3857),
        resolution: ResRange::any(),
        chunk_px: 256,
    };
    let whole = assemble_raster(&vec![&left, &right], &vec![map(0), map(1)], 2, 2, &caps, place());
    assert_eq!(whole.bands[0].data, nums(&[1.0, 2.0, 3.0, 4.0]));
    let none = assemble_raster(&Vec::new(), &Vec::new(), 2, 1, &caps, place());
    assert!(none.bands[0].data.iter().all(|v| v.is_nan()));
}

#[test]
fn points_stay_inside_the_window() {
    let p = |x: f64| Point3 { x: num(x), y: num(1.0), z: num(0.0), intensity: 0, classification: 0 };
    let cloud = PointChunk { points: vec![p(0.0), p(1.0), p(2.0), p(3.0)], place: place() };
    let out = assemble_points(&vec![&cloud], place());
    let xs: Vec<f64> = out.points.iter().map(|p| f64::from_bits(p.x.to_bits())).collect();
    assert_eq!(xs, [0.0, 1.0]);
    assert_eq!(cloud.crop_to(&place().bbox).points.len(), 2);
}

#[test]
fn a_resident_raster_is_thinned_block_by_block() {
    let mean = |values: Vec<Real>| {
        let sum: f64 = values.iter().map(|v| f64::from_bits(v.to_bits())).sum();
        num(sum / values.len() as f64)
    };
    let data = nums(&[1.0, 3.0, 5.0, 7.0, 9.0, 11.0]);
    let flags = vec![false, false, true, false, false, false];
    let r = sample_level(&mean, &data, &flags, 3, 2, &vec![0], &vec![-1, 1, 8], 2, num(-9.0));
    assert_eq!(r, nums(&[4.0, 23.0 / 3.0, -9.0]));
}

#[test]
fn bands_become_channels_and_come_back() {
    let scale = |v: Real, a: u32, b: u32| {
        (f64::from_bits(v.to_bits()) as f32 * f32::from_bits(a) + f32::from_bits(b)).to_bits()
    };
    let element = ToTensor {
        scales: vec![2.0f32.to_bits(), 1.0f32.to_bits()],
        offsets: vec![1.0f32.to_bits(), 0.0f32.to_bits()],
    };
    let mut two = raster(2, 1, &[1.0, 2.0]);
    two.bands.push(Band { nodata: num(f64::NAN), data: nums(&[5.0, 6.0]) });
    let t = element.compute(&scale, &two).unwrap();
    let values: Vec<f32> = t.data.iter().map(|v| f32::from_bits(*v)).collect();
    assert_eq!(values, [3.0, 5.0, 5.0, 6.0]);
    assert_eq!((t.channels, t.width, t.height), (2, 2, 1));
    match element.compute(&scale, &raster(2, 1, &[1.0, 2.0])) {
        Err(Error::Source(m)) => assert_eq!(m, "to tensor: 1 bands into 2 channels"),
        other => panic!("unexpected {other:?}"),
    }
    let back = ToRaster.compute(&|v: u32| num(f64::from(f32::from_bits(v))), &t);
    assert_eq!(back.bands[0].data, nums(&[3.0, 5.0]));
    assert_eq!(back.bands[1].data, nums(&[5.0, 6.0]));
}

#[test]
fn an_expression_reads_no_number_where_there_is_no_value() {
    let r = plane(&nums(&[1.0, 2.0]), &vec![false, true]);
    assert_eq!(r[0], num(1.0));
    assert!(r[1].is_nan());
}

#[test]
fn chunks_of_one_kind_make_up_a_window() {
    let caps = Caps::Raster(RasterCaps {
        dtype: Dtype::F64,
        bands: 1,
        crs: Crs(3857),
        resolution: ResRange::any(),
        chunk_px: 1,
    });
    let (a, b) = (Chunk::Raster(raster(1, 1, &[1.0])), Chunk::Raster(raster(1, 1, &[2.0])));
    let map = |k: usize, w: usize, h: usize| ChunkMap {
        rows: vec![Some(0); h],
        cols: vec![Some(1 - k); w],
    };
    let cut = |_: &Bbox, _: &Vec<Coord>, _: bool| Vec::new();
    let whole = assemble::assemble(&map, &cut, &vec![&a, &b], 2, 1, &caps, place()).unwrap();
    assert_eq!(whole.raster().unwrap().bands[0].data, nums(&[2.0, 1.0]));
    let odd = Chunk::Tensor(tensor(&[0.0; 9]));
    let mixed = assemble::assemble(&map, &cut, &vec![&a, &odd], 2, 1, &caps, place());
    assert!(matches!(mixed, Err(Error::Kind(ChunkKind::Raster))));
}

#[test]
fn a_part_with_its_neighbours_convolves_as_the_whole_does() {
    let values: Vec<f32> = (0..12).map(|v| (v * v) as f32).collect();
    let whole = TensorChunk {
        channels: 1,
        width: 4,
        height: 3,
        data: values.iter().map(|v| v.to_bits()).collect(),
        place: place(),
    };
    let part = TensorChunk {
        channels: 1,
        width: 3,
        height: 3,
        data: [0, 1, 2, 4, 5, 6, 8, 9, 10].iter().map(|i| values[*i].to_bits()).collect(),
        place: place(),
    };
    let taps = TensorConv { kernel: (1..10).map(|v| (v as f32).to_bits()).collect() };
    let at = Offset { row0: 0, col0: 0, cols: 2, rows: 3 };
    let a = taps.compute(&mix, &whole, at, place());
    let b = taps.compute(&mix, &part, at, place());
    assert_eq!(a.data, b.data);
}
