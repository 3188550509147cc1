use geoplumb::caps::Crs;
use geoplumb::chunk::{Band, Coord, FeatureGeometry, Placement, RasterChunk, VectorFeature};
use geoplumb::elements::{Reproject, VecReproject};
use geoplumb::geometry::all_coords;
use geoplumb::number::Real;
use geoplumb::reproject::ProjectFault;
use geoplumb::sampling::{resample_to_grid, sample_bands};
use geoplumb::window::Bbox;

fn num(v: f64) -> Real {
    Real::from_bits(v.to_bits())
}

fn value(v: Real) -> f64 {
    f64::from_bits(v.to_bits())
}

fn c(x: f64, y: f64) -> Coord {
    Coord { x: num(x), y: num(y) }
}

fn bounds(min_x: f64, min_y: f64, max_x: f64, max_y: f64) -> Bbox {
    Bbox::new(num(min_x), num(min_y), num(max_x), num(max_y))
}

fn place(b: Bbox) -> Placement {
    Placement { bbox: b, resolution: num(1.0), crs: Crs(3857) }
}

/// Two by two cells, the lower right one without a value.
fn raster() -> RasterChunk {
    RasterChunk {
        width: 2,
        height: 2,
        bands: vec![Band {
            nodata: num(-9.0),
            data: [1.0, 2.0, 3.0, -9.0].iter().map(|v| num(*v)).collect(),
        }],
        place: place(bounds(0.0, 0.0, 2.0, 2.0)),
    }
}

fn from_first(on: &Placement, at: Coord) -> (f64, f64) {
    (value(at.x) - value(on.bbox.min_x) - 0.5, value(on.bbox.max_y) - value(at.y) - 0.5)
}

fn locate(on: &Placement, at: Coord) -> (i64, i64) {
    let (x, y) = from_first(on, at);
    (y.floor() as i64, x.floor() as i64)
}

fn blend(on: &Placement, at: Coord, (a, b, c, d): (Real, Real, Real, Real)) -> Real {
    let (x, y) = from_first(on, at);
    let (s, t) = (x - x.floor(), y - y.floor());
    let upper = value(a) * (1.0 - s) + value(b) * s;
    let lower = value(c) * (1.0 - s) + value(d) * s;
    num(upper * (1.0 - t) + lower * t)
}

fn values(v: &[Real]) -> Vec<f64> {
    v.iter().map(|x| value(*x)).collect()
}

#[test]
fn four_cells_blend_and_fewer_do_not() {
    let mut full = raster();
    full.bands[0].data[3] = num(4.0);
    let places = vec![c(1.0, 1.0), c(0.75, 1.5), c(-3.0, 1.0), c(f64::INFINITY, 1.0)];
    let all = vec![vec![false; 4]];
    let whole = sample_bands(&locate, &blend, &full, &all, &places);
    assert_eq!(whole.len(), 1);
    assert_eq!(whole[0], [Some(num(2.5)), Some(num(1.25)), None, None]);
    let holed = vec![vec![false, false, false, true]];
    let part = sample_bands(&locate, &blend, &raster(), &holed, &places);
    assert_eq!(part[0][0], Some(num(1.0)));
}

#[test]
fn a_grid_is_filled_with_no_data_where_there_is_nothing() {
    let flags = vec![vec![false, false, false, true]];
    let centers = vec![c(0.5, 1.5), c(9.0, 9.0)];
    let at = place(bounds(0.0, 1.0, 2.0, 2.0));
    let out = resample_to_grid(&locate, &blend, &raster(), &flags, &centers, 2, 1, at);
    assert_eq!(values(&out.bands[0].data), [1.0, -9.0]);
    assert_eq!(out.bands[0].nodata, num(-9.0));
    assert_eq!((out.width, out.height), (2, 1));
    assert_eq!(out.place, at);
}

#[test]
fn a_raster_is_read_where_its_pixels_come_from() {
    let flags = vec![vec![false, false, false, true]];
    let back = |v: &Vec<Coord>| -> Result<Vec<Coord>, String> {
        Ok(v.iter().map(|p| c(value(p.x) - 100.0, value(p.y))).collect())
    };
    let centers = vec![c(100.5, 1.5), c(101.5, 1.5)];
    let window = bounds(100.0, 1.0, 102.0, 2.0);
    let there = Reproject::new(Crs(4326));
    let out = there
        .compute(&back, &locate, &blend, &raster(), &flags, &centers, 2, 1, window, num(1.0))
        .unwrap();
    assert_eq!(values(&out.bands[0].data), [1.0, 2.0]);
    assert_eq!(out.place.crs, Crs(4326));
    assert_eq!(out.place.bbox, window);
    let lost = |_: &Vec<Coord>| -> Result<Vec<Coord>, String> { Ok(Vec::new()) };
    let short = there
        .compute(&lost, &locate, &blend, &raster(), &flags, &centers, 2, 1, window, num(1.0));
    assert!(matches!(short, Err(ProjectFault::Short)));
    let none = |_: &Vec<Coord>| -> Result<Vec<Coord>, String> { Err("off".to_string()) };
    let off = there
        .compute(&none, &locate, &blend, &raster(), &flags, &centers, 2, 1, window, num(1.0));
    assert!(matches!(off, Err(ProjectFault::Outside(e)) if e == "off"));
}

#[test]
fn features_are_projected_before_they_are_cut() {
    let feature = |id: u64, geometry: FeatureGeometry| VectorFeature {
        id,
        geometry,
        properties: Vec::new(),
    };
    let features = vec![
        feature(3, FeatureGeometry::Point(c(0.5, 0.5))),
        feature(7, FeatureGeometry::LineString(vec![c(0.0, 0.5), c(0.5, 0.5)])),
        feature(9, FeatureGeometry::Point(c(5.0, 0.5))),
    ];
    let east = |v: &Vec<Coord>| -> Result<Vec<Coord>, String> {
        Ok(v.iter().map(|p| c(value(p.x) + 10.0, value(p.y))).collect())
    };
    let uncut = |_: &Bbox, line: &Vec<Coord>, _: bool| vec![line.clone()];
    let window = bounds(10.0, 0.0, 11.0, 1.0);
    let there = VecReproject::new(Crs(32632));
    let out = there.compute(&east, &uncut, &features, window, num(0.5)).unwrap();
    assert_eq!(out.features.iter().map(|f| f.id).collect::<Vec<_>>(), [3, 7]);
    assert_eq!(all_coords(&out.features[1].geometry), [c(10.0, 0.5), c(10.5, 0.5)]);
    assert_eq!(out.place.crs, Crs(32632));
    let lost = |_: &Vec<Coord>| -> Result<Vec<Coord>, String> { Ok(Vec::new()) };
    let short = there.compute(&lost, &uncut, &features, window, num(0.5));
    assert!(matches!(short, Err(ProjectFault::Short)));
}
