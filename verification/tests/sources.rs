use geoplumb::caps::Crs;
use geoplumb::chunk::{Coord, FeatureGeometry, Point3, Polygon};
use geoplumb::cutting::{clip, cut_features, mark_rings};
use geoplumb::error::Error;
use geoplumb::geometry::all_coords;
use geoplumb::json::Json;
use geoplumb::las_source::LasSrc;
use geoplumb::number::Real;
use geoplumb::vec_source::VecSrc;
use geoplumb::window::Bbox;

fn num(v: f64) -> Real {
    Real::from_bits(v.to_bits())
}

fn value(v: Real) -> f64 {
    f64::from_bits(v.to_bits())
}

fn c(x: f64, y: f64) -> Coord {
    Coord { x: num(x), y: num(y) }
}

fn bounds(min_x: f64, min_y: f64, max_x: f64, max_y: f64) -> Bbox {
    Bbox::new(num(min_x), num(min_y), num(max_x), num(max_y))
}

fn length(a: Coord, b: Coord) -> Real {
    num((value(b.x) - value(a.x)).hypot(value(b.y) - value(a.y)))
}

fn fallback(b: &Bbox) -> Real {
    num(value(b.max_x) - value(b.min_x) + 0.25)
}

type Item = (Option<FeatureGeometry>, Vec<(String, Json)>);

fn bare(g: FeatureGeometry) -> Item {
    (Some(g), Vec::new())
}

fn line(xs: &[f64]) -> FeatureGeometry {
    FeatureGeometry::LineString(xs.iter().map(|x| c(*x, 0.5)).collect())
}

/// The coordinates inside a window, as one piece.
fn within(b: &Bbox, line: &Vec<Coord>, ring: bool) -> Vec<Vec<Coord>> {
    let left: Vec<Coord> = line
        .iter()
        .filter(|p| value(p.x) >= value(b.min_x) && value(p.x) <= value(b.max_x))
        .copied()
        .collect();
    if ring || left.len() > 1 {
        vec![left]
    } else {
        Vec::new()
    }
}

fn ends(line: &Vec<Coord>, _: Real) -> Vec<Coord> {
    vec![line[0], line[line.len() - 1]]
}

fn narrow(b: &Bbox, res: Real) -> bool {
    value(b.max_x) - value(b.min_x) < value(res)
}

#[test]
fn a_collection_opens_on_its_middle_length() {
    let items = vec![
        bare(line(&[0.0, 1.0, 4.0])),
        (None, Vec::new()),
        bare(line(&[4.0, 4.0, 9.0])),
    ];
    let src = VecSrc::new(&length, &fallback, &items, Crs(3857)).unwrap();
    assert_eq!(src.features.iter().map(|f| f.id).collect::<Vec<_>>(), [0, 1]);
    assert_eq!((value(src.origin_x), value(src.origin_y)), (0.0, 0.5));
    assert_eq!(value(src.base_resolution), 3.0);
    assert_eq!(src.crs, Crs(3857));
    assert_eq!(src.grid().chunk_px, 256);
    assert_eq!(value(src.grid().base_resolution), 3.0);
    let dots = vec![bare(FeatureGeometry::Point(c(2.0, 1.0)))];
    let dot = VecSrc::new(&length, &fallback, &dots, Crs(3857)).unwrap();
    assert_eq!(value(dot.base_resolution), 0.25);
    let none = VecSrc::new(&length, &fallback, &vec![(None, Vec::new())], Crs(3857));
    assert!(matches!(none, Err(Error::Source(t)) if t == "empty feature collection"));
}

#[test]
fn a_coarse_window_is_simplified_before_it_is_cut() {
    let items = vec![
        bare(line(&[0.0, 1.0, 2.0, 3.0])),
        bare(line(&[1.0, 1.5])),
        bare(FeatureGeometry::Point(c(1.0, 0.5))),
    ];
    let src = VecSrc::new(&length, &fallback, &items, Crs(3857)).unwrap();
    let window = bounds(0.0, 0.0, 3.5, 1.0);
    let fine = src.read(&ends, &narrow, &within, window, num(1.0));
    assert_eq!(fine.features.len(), 3);
    assert_eq!(all_coords(&fine.features[0].geometry).len(), 4);
    let coarse = src.read(&ends, &narrow, &within, window, num(2.0));
    assert_eq!(coarse.features.iter().map(|f| f.id).collect::<Vec<_>>(), [0, 2]);
    assert_eq!(all_coords(&coarse.features[0].geometry), [c(0.0, 0.5), c(3.0, 0.5)]);
    assert_eq!(coarse.place.bbox, window);
    assert_eq!(coarse.place.resolution, num(2.0));
    let left = src.read(&ends, &narrow, &within, bounds(0.0, 0.0, 2.0, 1.0), num(2.0));
    assert_eq!(left.features.iter().map(|f| f.id).collect::<Vec<_>>(), [2]);
}

#[test]
fn rings_and_lines_are_cut_in_order() {
    let ring = |x: f64| vec![c(x, 0.0), c(x + 1.0, 0.0), c(x + 1.0, 1.0), c(x, 0.0)];
    let area = Polygon { exterior: ring(0.0), interiors: vec![ring(5.0)] };
    let mixed = FeatureGeometry::GeometryCollection(vec![
        FeatureGeometry::MultiPoint(vec![c(0.5, 0.5)]),
        line(&[0.0, 1.0]),
        FeatureGeometry::MultiPolygon(vec![area]),
        FeatureGeometry::MultiLineString(vec![vec![c(0.0, 0.0), c(7.0, 0.0)]]),
    ]);
    let mut rings = Vec::new();
    mark_rings(&mixed, &mut rings);
    assert_eq!(rings, [false, true, true, false]);
    let src = VecSrc::new(&length, &fallback, &vec![bare(mixed)], Crs(3857)).unwrap();
    let pieces = cut_features(&within, &bounds(0.0, 0.0, 4.0, 4.0), &src.features);
    let counts: Vec<usize> = pieces.iter().map(|p| p.len()).collect();
    assert_eq!(counts, [1, 1, 1, 0]);
    assert_eq!(pieces[1][0], ring(0.0));
    assert!(pieces[2][0].is_empty());
    let left = clip(&within, &src.features, &bounds(0.0, 0.0, 4.0, 4.0));
    assert_eq!(left.len(), 1);
    assert_eq!(all_coords(&left[0].geometry).len(), 1 + 2 + 4);
}

#[test]
fn a_cloud_is_thinned_where_it_is_coarse() {
    let p = |x: f64| Point3 {
        x: num(x),
        y: num(1.0 - x),
        z: num(0.0),
        intensity: 0,
        classification: 0,
    };
    let spacing = |b: &Bbox, n: usize| num((value(b.max_x) - value(b.min_x)) / n as f64);
    let points: Vec<Point3> = (0..8).map(|i| p(f64::from(i) / 8.0)).collect();
    let src = LasSrc::new(&spacing, points, Crs(25832)).unwrap();
    assert_eq!((value(src.origin_x), value(src.origin_y)), (0.0, 1.0));
    assert_eq!(value(src.base_resolution), 0.875 / 8.0);
    assert_eq!(value(src.grid().origin_y), 1.0);
    let halved = |v: &Vec<Point3>, _: Real| v.iter().step_by(2).copied().collect::<Vec<_>>();
    let left = bounds(0.0, 0.0, 0.5, 1.0);
    let raw = src.read(&halved, left, num(0.1));
    let thin = src.read(&halved, left, num(0.2));
    assert_eq!(raw.points.len(), 4);
    assert_eq!(thin.points, [raw.points[0], raw.points[2]]);
    assert_eq!(thin.place.crs, Crs(25832));
    let none = LasSrc::new(&spacing, Vec::new(), Crs(25832));
    assert!(matches!(none, Err(Error::Source(t)) if t == "empty point cloud"));
}
