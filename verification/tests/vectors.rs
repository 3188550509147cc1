use geoplumb::caps::Crs;
use geoplumb::chunk::{
    Coord, FeatureGeometry, Placement, Polygon, VectorChunk, VectorFeature,
};
use geoplumb::dissolve::merge_fragments;
use geoplumb::fragments::{
    class, join_chain, merge_lineal, merge_puntal, sort_by_id, stitch, Class,
};
use geoplumb::geometry::{
    all_coords, clip_geometry, collect_cuts, geometry_coord_count, geometry_envelope, rebuild,
};
use geoplumb::json;
use geoplumb::json::Json;
use geoplumb::number::Real;
use geoplumb::vec_ops::{flip_rows, Burn, Rasterize, VecClip, VecFilter, VecSchema};
use geoplumb::vector::{
    assemble_vectors, clip_features, collection_envelope, copy_geometry, gather_features,
    median_length, number_features, rebuild_features, segments, simplify_geometry,
};
use geoplumb::window::Bbox;

fn num(v: f64) -> Real {
    Real::from_bits(v.to_bits())
}

fn c(x: f64, y: f64) -> Coord {
    Coord { x: num(x), y: num(y) }
}

fn unit() -> Bbox {
    Bbox::new(num(0.0), num(0.0), num(1.0), num(1.0))
}

fn ring() -> Vec<Coord> {
    vec![c(0.0, 0.0), c(1.0, 0.0), c(1.0, 1.0), c(0.0, 0.0)]
}

fn area() -> Polygon {
    Polygon { exterior: ring(), interiors: vec![ring()] }
}

fn feature(id: u64, geometry: FeatureGeometry, properties: &str) -> VectorFeature {
    VectorFeature { id, geometry, properties: members(properties) }
}

fn point(id: u64, x: f64, properties: &str) -> VectorFeature {
    feature(id, FeatureGeometry::Point(c(x, 0.5)), properties)
}

fn read(raw: &str) -> Json {
    json::parse(&raw.as_bytes().to_vec()).unwrap()
}

fn near(a: Real, b: Real) -> bool {
    (f64::from_bits(a.to_bits()) - f64::from_bits(b.to_bits())).abs() < f64::EPSILON
}

fn ids(v: &[VectorFeature]) -> Vec<u64> {
    v.iter().map(|f| f.id).collect()
}

#[test]
fn features_are_kept_by_a_property() {
    let all = || {
        vec![
            point(0, 0.0, r#"{"kind":"road","lanes":2,"paved":true,"w":0.5}"#),
            point(1, 0.0, r#"{"kind":"rail","lanes":2.0,"paved":false}"#),
            point(2, 0.0, r#"{"lanes":"2","w":0.5000000000000001}"#),
        ]
    };
    let kept = |field: &str, equals: &str| {
        ids(&VecFilter::new(field.to_string(), read(equals)).compute(all(), &near))
    };
    assert_eq!(kept("kind", "\"road\""), [0]);
    assert_eq!(kept("lanes", "2"), [0]);
    assert_eq!(kept("lanes", "2.0"), [1]);
    assert_eq!(kept("paved", "true"), [0]);
    assert_eq!(kept("w", "0.5"), [0, 2]);
    assert!(kept("missing", "1").is_empty());
    assert!(kept("lanes", "null").is_empty());
}

fn members(raw: &str) -> Vec<(String, Json)> {
    match read(raw) {
        Json::Object(m) => m,
        other => panic!("unexpected {other:?}"),
    }
}

fn names(v: &[(String, Json)]) -> Vec<&str> {
    v.iter().map(|m| m.0.as_str()).collect()
}

#[test]
fn properties_are_dropped_renamed_and_filled() {
    let schema = VecSchema {
        rename: vec![("a".to_string(), "x".to_string()), ("gone".to_string(), "y".to_string())],
        drop: vec!["gone".to_string()],
        add: members(r#"{"b":9,"z":{"deep":[1]}}"#),
    };
    let out = schema.map(&members(r#"{"a":1,"b":2,"gone":3}"#));
    assert_eq!(names(&out), ["x", "b", "z"]);
    assert!(matches!(&out[0].1, Json::Number(n) if n.int == Some(1)));
    assert!(matches!(&out[1].1, Json::Number(n) if n.int == Some(2)));
    assert!(matches!(&out[2].1, Json::Object(_)));
    let clash = VecSchema {
        rename: vec![("a".to_string(), "b".to_string())],
        drop: Vec::new(),
        add: Vec::new(),
    };
    assert_eq!(names(&clash.map(&members(r#"{"a":1,"b":2}"#))), ["b"]);
}

#[test]
fn features_are_burned_with_a_constant_or_a_property() {
    let constant = Rasterize { burn: Burn::Constant(num(3.0)) };
    assert_eq!(constant.value(&members("{}")), Some(num(3.0)));
    let depth = Rasterize { burn: Burn::Property("depth".to_string()) };
    assert_eq!(depth.value(&members(r#"{"depth":4}"#)), Some(num(4.0)));
    assert_eq!(depth.value(&members(r#"{"depth":"4"}"#)), None);
    assert_eq!(depth.value(&members("{}")), None);
}

#[test]
fn rows_turn_over_and_back() {
    let data: Vec<Real> = (0..6).map(|v| num(v as f64)).collect();
    let over = flip_rows(&data, 2, 3);
    let want: Vec<Real> = [4, 5, 2, 3, 0, 1].iter().map(|v| num(*v as f64)).collect();
    assert_eq!(over, want);
    assert_eq!(flip_rows(&over, 2, 3), data);
}

#[test]
fn ids_count_the_features_with_a_geometry() {
    let items = vec![
        (Some(FeatureGeometry::Point(c(2.0, 3.0))), members("{}")),
        (None, members("{}")),
        (Some(FeatureGeometry::LineString(vec![c(0.0, 0.0), c(1.0, 9.0)])), members("{}")),
    ];
    let features = number_features(&items);
    assert_eq!(ids(&features), [0, 1]);
    assert_eq!(
        collection_envelope(&features),
        Some(Bbox::new(num(0.0), num(0.0), num(2.0), num(9.0)))
    );
    assert_eq!(collection_envelope(&Vec::new()), None);
}

#[test]
fn the_base_resolution_is_the_middle_length() {
    let lengths: Vec<Real> = [5.0, 0.0, 1.0, 3.0, f64::NAN].iter().map(|v| num(*v)).collect();
    assert_eq!(median_length(&lengths), Some(num(3.0)));
    let even: Vec<Real> = [4.0, 1.0].iter().map(|v| num(*v)).collect();
    assert_eq!(median_length(&even), Some(num(4.0)));
    assert_eq!(median_length(&vec![num(0.0)]), None);
    assert_eq!(segments(&FeatureGeometry::Polygon(area())).len(), 6);
    assert!(segments(&FeatureGeometry::Point(c(0.0, 0.0))).is_empty());
}

#[test]
fn features_below_a_pixel_and_flat_rings_go() {
    let polygon = FeatureGeometry::Polygon(area());
    let same = vec![vec![ring()], vec![vec![c(0.0, 0.0), c(0.0, 0.0)]]];
    match simplify_geometry(&polygon, false, &same) {
        Some(FeatureGeometry::Polygon(p)) => {
            assert_eq!(p.exterior, ring());
            assert!(p.interiors.is_empty());
        }
        other => panic!("unexpected {other:?}"),
    }
    assert!(simplify_geometry(&polygon, true, &same).is_none());
    let flat = vec![vec![vec![c(0.0, 0.0)]], vec![ring()]];
    assert!(simplify_geometry(&polygon, false, &flat).is_none());
    let dot = FeatureGeometry::Point(c(0.0, 0.0));
    assert!(simplify_geometry(&dot, true, &Vec::new()).is_some());
}

#[test]
fn coordinates_come_out_and_go_back_in_order() {
    let mixed = FeatureGeometry::GeometryCollection(vec![
        FeatureGeometry::MultiPoint(vec![c(1.0, 1.0), c(2.0, 2.0)]),
        FeatureGeometry::MultiPolygon(vec![area()]),
    ]);
    let coords = all_coords(&mixed);
    assert_eq!(coords.len(), geometry_coord_count(&mixed));
    assert_eq!(coords.len(), 10);
    let (back, end) = rebuild(&mixed, &coords, 0);
    assert_eq!(end, 10);
    assert_eq!(format!("{back:?}"), format!("{mixed:?}"));
    assert_eq!(format!("{:?}", copy_geometry(&mixed)), format!("{mixed:?}"));
    assert_eq!(
        geometry_envelope(&mixed),
        Bbox::new(num(0.0), num(0.0), num(2.0), num(2.0))
    );
    let features = vec![feature(4, mixed, "{}"), point(5, 3.0, "{}")];
    let moved: Vec<Coord> = (0..11).map(|i| c(i as f64, 0.0)).collect();
    let out = rebuild_features(&features, &moved);
    assert_eq!(ids(&out), [4, 5]);
    assert_eq!(all_coords(&out[1].geometry), [c(10.0, 0.0)]);
}

#[test]
fn tiles_keep_what_lies_in_them() {
    let line = FeatureGeometry::LineString(vec![c(-1.0, 0.5), c(2.0, 0.5)]);
    let mut cuts = Vec::new();
    collect_cuts(&line, &mut cuts);
    assert_eq!(cuts.len(), 1);
    let inner = vec![vec![vec![c(0.0, 0.5), c(1.0, 0.5)]]];
    let (parts, used) = clip_geometry(&line, &unit(), &inner, 0);
    assert_eq!((parts.len(), used), (1, 1));
    let features = vec![point(1, 0.5, "{}"), feature(2, line, "{}"), point(3, 7.0, "{}")];
    let kept = clip_features(&features, &unit(), &inner);
    assert_eq!(ids(&kept), [1, 2]);
}

#[test]
fn a_window_lists_fragments_by_id() {
    let place = Placement { bbox: unit(), resolution: num(1.0), crs: Crs(4326) };
    let left = VectorChunk { features: vec![point(2, 0.1, "{}"), point(0, 0.2, "{}")], place };
    let right = VectorChunk { features: vec![point(2, 0.6, "{}"), point(1, 0.7, "{}")], place };
    let gathered = gather_features(&vec![&left, &right]);
    let whole = assemble_vectors(&gathered, &Vec::new(), place);
    assert_eq!(ids(&whole.features), [0, 1, 2, 2]);
    let xs: Vec<Coord> = whole.features[2..].iter().map(|f| all_coords(&f.geometry)[0]).collect();
    assert_eq!(xs, [c(0.1, 0.5), c(0.6, 0.5)]);
    let narrow = Bbox::new(num(0.5), num(0.0), num(1.0), num(1.0));
    assert_eq!(ids(&whole.crop_to(&|_: &Bbox, l: &Vec<Coord>, _: bool| vec![l.clone()], narrow).features), [1, 2]);
}

#[test]
fn fragments_are_joined() {
    let features = vec![point(3, 0.1, "{}"), point(1, 0.2, "{}"), point(3, 0.3, "{}")];
    let parts: Vec<&FeatureGeometry> = vec![&features[0].geometry, &features[2].geometry];
    assert!(matches!(merge_puntal(&parts), Some(FeatureGeometry::MultiPoint(v)) if v.len() == 2));
    assert_eq!(class(parts[0]), Class::Point);
    let pieces = vec![
        vec![c(2.0, 0.0), c(3.0, 0.0)],
        vec![c(0.0, 0.0), c(1.0, 0.0), c(2.0, 0.0)],
        vec![c(9.0, 0.0), c(8.0, 0.0)],
    ];
    let meets: Vec<Vec<bool>> = pieces
        .iter()
        .map(|a| pieces.iter().map(|b| a.last() == b.first()).collect())
        .collect();
    let chains = stitch(&meets);
    let joined: Vec<Vec<Coord>> = chains.iter().map(|k| join_chain(&pieces, k)).collect();
    assert_eq!(joined.len(), 2);
    assert_eq!(joined[0], [c(0.0, 0.0), c(1.0, 0.0), c(2.0, 0.0), c(3.0, 0.0)]);
    assert!(matches!(merge_lineal(joined), Some(FeatureGeometry::MultiLineString(_))));
    assert_eq!(ids(&sort_by_id(features)), [1, 3, 3]);
}

fn touching(a: Coord, b: Coord) -> bool {
    a == b
}

/// Keeps the outline of each polygon that has another one yet.
fn outlines(mut merged: Vec<Polygon>, p: Polygon) -> Vec<Polygon> {
    if merged.iter().all(|m| m.exterior != p.exterior) {
        merged.push(Polygon { exterior: p.exterior, interiors: Vec::new() });
    }
    merged
}

fn line(xs: &[f64]) -> FeatureGeometry {
    FeatureGeometry::LineString(xs.iter().map(|x| c(*x, 0.0)).collect())
}

#[test]
fn a_dissolve_merges_the_fragments_of_each_feature() {
    let place = Placement { bbox: unit(), resolution: num(1.0), crs: Crs(4326) };
    let features = vec![
        feature(7, line(&[2.0, 3.0]), "{\"first\":1}"),
        feature(2, FeatureGeometry::Polygon(area()), "{}"),
        feature(7, line(&[0.0, 1.0, 2.0]), "{\"second\":2}"),
        feature(5, FeatureGeometry::MultiPoint(Vec::new()), "{}"),
        feature(5, FeatureGeometry::MultiPoint(Vec::new()), "{}"),
        feature(4, FeatureGeometry::Polygon(area()), "{}"),
        feature(4, FeatureGeometry::MultiPolygon(vec![area(), area()]), "{}"),
    ];
    let whole = VectorChunk { features, place }.dissolve(&outlines, &touching);
    assert_eq!(ids(&whole.features), [2, 4, 7]);
    match &whole.features[0].geometry {
        FeatureGeometry::Polygon(p) => assert_eq!(p.interiors.len(), 1),
        other => panic!("unexpected {other:?}"),
    }
    match &whole.features[1].geometry {
        FeatureGeometry::Polygon(p) => assert_eq!(p.exterior, ring()),
        other => panic!("unexpected {other:?}"),
    }
    match &whole.features[2].geometry {
        FeatureGeometry::LineString(l) => {
            assert_eq!(*l, [c(0.0, 0.0), c(1.0, 0.0), c(2.0, 0.0), c(3.0, 0.0)])
        }
        other => panic!("unexpected {other:?}"),
    }
    assert_eq!(names(&whole.features[2].properties), ["first"]);
    let again = whole.dissolve(&outlines, &touching);
    assert_eq!(ids(&again.features), ids(&whole.features));
    for (a, b) in again.features.iter().zip(&whole.features) {
        assert_eq!(all_coords(&a.geometry), all_coords(&b.geometry));
        assert_eq!(names(&a.properties), names(&b.properties));
    }
}

#[test]
fn collections_merge_class_by_class() {
    let dot = |x: f64| FeatureGeometry::Point(c(x, 0.5));
    let left = FeatureGeometry::GeometryCollection(vec![line(&[0.0, 1.0]), dot(0.1)]);
    let right = FeatureGeometry::GeometryCollection(vec![
        dot(0.9),
        line(&[1.0, 2.0]),
        FeatureGeometry::GeometryCollection(vec![dot(0.5)]),
    ]);
    let merged = merge_fragments(&outlines, &touching, &vec![&left, &right]).unwrap();
    let members = match merged {
        FeatureGeometry::GeometryCollection(ms) => ms,
        other => panic!("unexpected {other:?}"),
    };
    assert_eq!(members.len(), 3);
    assert!(matches!(&members[0], FeatureGeometry::LineString(l) if l.len() == 3));
    assert!(matches!(&members[1], FeatureGeometry::MultiPoint(p) if p.len() == 2));
    assert!(matches!(&members[2], FeatureGeometry::GeometryCollection(ms) if ms.len() == 1));
    assert!(merge_fragments(&outlines, &touching, &Vec::new()).is_none());
    let empty = FeatureGeometry::GeometryCollection(Vec::new());
    assert!(merge_fragments(&outlines, &touching, &vec![&empty, &empty]).is_none());
    assert!(merge_fragments(&outlines, &touching, &vec![&empty]).is_some());
}

#[test]
fn only_features_with_the_property_are_burned() {
    let features = vec![point(0, 0.1, "{\"h\":2.5}"), point(1, 0.2, "{}"), point(2, 0.3, "{\"h\":null}")];
    let by_name = Rasterize { burn: Burn::Property("h".to_string()) };
    let shapes = by_name.shapes(&features);
    assert_eq!(shapes.len(), 1);
    assert_eq!(shapes[0].1, num(2.5));
    assert_eq!(all_coords(&shapes[0].0), [c(0.1, 0.5)]);
    let flat = Rasterize { burn: Burn::Constant(num(1.0)) };
    assert_eq!(flat.shapes(&features).len(), 3);
}

#[test]
fn a_cut_drops_what_it_leaves_nothing_of() {
    let clip = VecClip { boundary: vec![area()] };
    let features = vec![point(4, 0.1, "{}"), point(5, 0.9, "{\"k\":1}")];
    let right = |g: FeatureGeometry| match &g {
        FeatureGeometry::Point(p) if f64::from_bits(p.x.to_bits()) > 0.5 => Some(g),
        _ => None,
    };
    let left = clip.compute(&right, &features);
    assert_eq!(ids(&left), [5]);
    assert_eq!(names(&left[0].properties), ["k"]);
}

#[test]
fn what_follows_a_schema_sees_the_new_names() {
    let schema = VecSchema {
        drop: vec!["a".to_string()],
        rename: vec![("b".to_string(), "c".to_string())],
        add: members("{\"c\":7,\"d\":8}"),
    };
    let features = vec![point(1, 0.1, "{\"a\":1,\"b\":2}"), point(2, 0.2, "{\"a\":2}")];
    let kept = |field: &str, equals: &str| {
        let mapped = schema.compute(&features);
        ids(&VecFilter::new(field.to_string(), read(equals)).compute(mapped, &near))
    };
    assert_eq!(kept("c", "2"), [1]);
    assert_eq!(kept("c", "7"), [2]);
    assert_eq!(kept("d", "8"), [1, 2]);
    assert!(kept("a", "2").is_empty());
    assert!(kept("b", "2").is_empty());
    let burn = Rasterize { burn: Burn::Property("c".to_string()) };
    let burned: Vec<Real> =
        burn.shapes(&schema.compute(&features)).into_iter().map(|(_, v)| v).collect();
    assert_eq!(burned, [num(2.0), num(7.0)]);
}

#[test]
fn tiled_points_come_back() {
    let cs = vec![c(0.5, 0.5), c(0.1, 0.2), c(0.9, 0.2), c(0.5, 0.5), c(1.0, 0.5)];
    let g = FeatureGeometry::MultiPoint(cs);
    let left = Bbox::new(num(0.0), num(0.0), num(0.5), num(1.0));
    let right = Bbox::new(num(0.5), num(0.0), num(1.0), num(1.0));
    let (a, _) = clip_geometry(&g, &left, &Vec::new(), 0);
    let (b, _) = clip_geometry(&g, &right, &Vec::new(), 0);
    let parts: Vec<&FeatureGeometry> = a.iter().chain(&b).collect();
    assert_eq!(parts.len(), 2);
    let merged = merge_fragments(&outlines, &touching, &parts).unwrap();
    let back = [c(0.1, 0.2), c(0.5, 0.5), c(0.9, 0.2), c(0.5, 0.5)];
    assert_eq!(all_coords(&merged), back);
}

#[test]
fn a_schema_keeps_everything_but_the_properties() {
    let schema = VecSchema {
        drop: vec!["a".to_string()],
        rename: vec![("b".to_string(), "c".to_string())],
        add: Vec::new(),
    };
    let features = vec![point(9, 0.1, "{\"a\":1,\"b\":2}"), point(4, 0.2, "{\"d\":1}")];
    let mapped = schema.compute(&features);
    assert_eq!(ids(&mapped), [9, 4]);
    assert_eq!(names(&mapped[0].properties), ["c"]);
    assert_eq!(names(&mapped[1].properties), ["d"]);
    assert_eq!(all_coords(&mapped[0].geometry), [c(0.1, 0.5)]);
}
