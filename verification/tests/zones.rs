use geoplumb::chunk::{Coord, FeatureGeometry};
use geoplumb::json;
use geoplumb::json::Json;
use geoplumb::messages::{plan_message, zone_message, Words};
use geoplumb::number::Real;
use geoplumb::table::Table;
use geoplumb::window::Bbox;
use geoplumb::zonal::{
    accumulate_zones, feature_rows, intersection, reduce_band, PixelStatistics, Statistic,
};
use geoplumb::zones::{
    check_degrees, check_request, finite, parse_zones, plan_request, window_bbox, zone_rows,
    zones_envelope, PlanFault, RequestFault, WindowFault, ZoneFault,
};

fn num(v: f64) -> Real {
    Real::from_bits(v.to_bits())
}

fn double(v: Real) -> f64 {
    f64::from_bits(v.to_bits())
}

fn plus(a: Real, b: Real) -> Real {
    num(double(a) + double(b))
}

fn over(a: Real, n: usize) -> Real {
    num(double(a) / n as f64)
}

fn whole(n: usize) -> Real {
    num(n as f64)
}

fn nums(v: &[f64]) -> Vec<Real> {
    v.iter().map(|x| num(*x)).collect()
}

#[test]
fn a_band_reduces_to_four_numbers() {
    let s = reduce_band(&nums(&[4.0, -1.0, 99.0]), &vec![false, false, true], &plus);
    assert_eq!(s.count, 2);
    let value = |k: Statistic| double(s.value(k, &over, &whole));
    assert_eq!(value(Statistic::Sum), 3.0);
    assert_eq!(value(Statistic::Mean), 1.5);
    assert_eq!(value(Statistic::Minimum), -1.0);
    assert_eq!(value(Statistic::Maximum), 4.0);
    assert_eq!(value(Statistic::Count), 2.0);
    let none = PixelStatistics::default();
    assert!(none.mean(&over).is_nan() && none.minimum.is_nan());
}

#[test]
fn an_empty_part_merges_without_a_trace() {
    let mut s = reduce_band(&nums(&[4.0, -1.0]), &vec![false, false], &plus);
    let before = s;
    s.merge(&PixelStatistics::default(), &plus);
    assert_eq!(s, before);
    let mut e = PixelStatistics::default();
    e.merge(&before, &plus);
    assert_eq!(e, before);
}

#[test]
fn tiles_add_up_zone_by_zone() {
    let mut merged: Table<u64, PixelStatistics> = Table::new();
    let labels = vec![Some(7), Some(2), None, Some(7)];
    let flags = vec![false, false, false, true];
    accumulate_zones(&nums(&[1.0, 2.0, 3.0, 4.0]), &flags, &labels, &mut merged, &plus);
    accumulate_zones(&nums(&[5.0]), &vec![false], &vec![Some(7)], &mut merged, &plus);
    let rows = feature_rows(&merged);
    assert_eq!(rows.iter().map(|r| r.feature_id).collect::<Vec<_>>(), [2, 7]);
    assert_eq!((rows[1].statistics.count, double(rows[1].statistics.sum)), (2, 6.0));
    let all = zone_rows(&rows, 3);
    assert_eq!(all.iter().map(|s| s.count).collect::<Vec<_>>(), [0, 0, 1]);
    assert_eq!(finite(all[0].minimum), None);
    assert_eq!(finite(all[2].minimum), Some(num(2.0)));
}

#[test]
fn boxes_share_a_part_with_an_area() {
    let b = |x0: f64, x1: f64| Bbox::new(num(x0), num(0.0), num(x1), num(1.0));
    assert_eq!(intersection(&b(0.0, 2.0), &b(1.0, 3.0)), Some(b(1.0, 2.0)));
    assert_eq!(intersection(&b(0.0, 1.0), &b(1.0, 3.0)), None);
}

fn flat(lon: Real, lat: Real) -> Option<Coord> {
    Some(Coord { x: lon, y: lat })
}

fn features(raw: &str) -> Vec<Json> {
    match json::parse(&raw.as_bytes().to_vec()).unwrap() {
        Json::List(v) => v,
        other => panic!("unexpected {other:?}"),
    }
}

fn fault(raw: &str) -> (usize, ZoneFault) {
    parse_zones(&flat, &features(raw)).unwrap_err()
}

fn shaped(geometry: &str) -> String {
    format!(r#"[{{"type":"Feature","properties":{{}},"geometry":{geometry}}}]"#)
}

const RING: &str = "[[7.0,46.0],[8.0,46.0],[8.0,47.0],[7.0,46.0]]";

#[test]
fn zones_are_polygons() {
    let one = shaped(&format!(r#"{{"type":"Polygon","coordinates":[{RING},{RING}]}}"#));
    let zones = parse_zones(&flat, &features(&one)).unwrap();
    match &zones[0] {
        FeatureGeometry::Polygon(p) => {
            assert_eq!((p.exterior.len(), p.interiors.len()), (4, 1));
            assert_eq!(p.exterior[1], Coord { x: num(8.0), y: num(46.0) });
        }
        other => panic!("unexpected {other:?}"),
    }
    assert_eq!(
        zones_envelope(&zones),
        Ok(Bbox::new(num(7.0), num(46.0), num(8.0), num(47.0)))
    );
    let many = shaped(&format!(r#"{{"type":"MultiPolygon","coordinates":[[{RING}],[{RING}]]}}"#));
    assert!(matches!(
        &parse_zones(&flat, &features(&many)).unwrap()[0],
        FeatureGeometry::MultiPolygon(v) if v.len() == 2
    ));
}

#[test]
fn malformed_zones_are_refused() {
    assert_eq!(fault(r#"[{"type":"Polygon"}]"#), (0, ZoneFault::NotFeature));
    assert_eq!(fault(&shaped("null")), (0, ZoneFault::NoGeometry));
    assert_eq!(fault(r#"[{"type":"Feature"}]"#), (0, ZoneFault::NoGeometry));
    assert_eq!(fault(&shaped("{}")), (0, ZoneFault::NoType));
    assert_eq!(fault(&shaped(r#"{"type":"Polygon"}"#)), (0, ZoneFault::NoCoordinates));
    assert_eq!(
        fault(&shaped(r#"{"type":"Point","coordinates":[0.0,0.0]}"#)),
        (0, ZoneFault::NotArea)
    );
    assert_eq!(
        fault(&shaped(r#"{"type":"LineString","coordinates":[[0.0,0.0],[1.0,1.0]]}"#)),
        (0, ZoneFault::NotArea)
    );
    let polygon = |c: &str| shaped(&format!(r#"{{"type":"Polygon","coordinates":{c}}}"#));
    assert_eq!(fault(&polygon("1")), (0, ZoneFault::PolygonNotArray));
    assert_eq!(fault(&polygon("[]")), (0, ZoneFault::NoRing));
    assert_eq!(fault(&polygon("[1]")), (0, ZoneFault::RingNotArray));
    assert_eq!(
        fault(&polygon("[[[0.0,0.0],[1.0,0.0],[0.0,0.0]]]")),
        (0, ZoneFault::OpenRing(3))
    );
    assert_eq!(
        fault(&polygon("[[[0.0,0.0],[1.0],[1.0,1.0],[0.0,0.0]]]")),
        (0, ZoneFault::NotTwoNumbers)
    );
    assert_eq!(fault(&polygon("[[1,2,3,4]]")), (0, ZoneFault::PositionNotArray));
    assert_eq!(
        fault(&polygon("[[[180.4,46.0],[0,0],[0,0],[0,0]]]")),
        (0, ZoneFault::NotLongitude(num(180.4)))
    );
    assert_eq!(
        fault(&polygon("[[[0,91],[0,0],[0,0],[0,0]]]")),
        (0, ZoneFault::NotLatitude(num(91.0)))
    );
    assert_eq!(
        fault(&polygon("[[[7.0,85.1],[0,0],[0,0],[0,0]]]")),
        (0, ZoneFault::PastMercator(num(85.1)))
    );
    let multi = |c: &str| shaped(&format!(r#"{{"type":"MultiPolygon","coordinates":{c}}}"#));
    assert_eq!(fault(&multi("[]")), (0, ZoneFault::NoPolygon));
    assert_eq!(fault(&multi("{}")), (0, ZoneFault::PolygonsNotArray));
}

#[test]
fn the_position_cap_spans_the_request() {
    let ring: Vec<String> = (0..10_001).map(|_| "[7.0,46.7]".to_string()).collect();
    let ring = ring.join(",");
    let one = format!(
        r#"{{"type":"Feature","geometry":{{"type":"Polygon","coordinates":[[{ring}]]}}}}"#
    );
    assert!(parse_zones(&flat, &features(&format!("[{one}]"))).is_ok());
    assert_eq!(fault(&format!("[{one},{one}]")), (1, ZoneFault::TooManyPositions));
}

fn lost(_: Real, _: Real) -> Option<Coord> {
    None
}

fn far(_: Real, _: Real) -> Option<Coord> {
    Some(Coord { x: num(f64::INFINITY), y: num(0.0) })
}

#[test]
fn a_place_off_the_grid_is_refused() {
    let raw = shaped(&format!(r#"{{"type":"Polygon","coordinates":[{RING}]}}"#));
    assert_eq!(
        parse_zones(&lost, &features(&raw)).unwrap_err(),
        (0, ZoneFault::Unprojected(num(7.0), num(46.0)))
    );
    assert_eq!(
        parse_zones(&far, &features(&raw)).unwrap_err(),
        (0, ZoneFault::OffGrid(num(7.0), num(46.0)))
    );
    assert!(check_degrees(num(-180.0), num(-85.0)).is_ok());
    assert!(check_degrees(num(f64::NAN), num(0.0)).is_err());
}

#[test]
fn a_window_has_an_area_on_the_grid() {
    let b = |a: f64, b: f64, c: f64, d: f64| Bbox::new(num(a), num(b), num(c), num(d));
    let good = b(7.05, 46.65, 7.25, 46.85);
    assert_eq!(window_bbox(&flat, &good), Ok(good));
    assert_eq!(window_bbox(&flat, &b(1.0, 1.0, 0.0, 0.0)), Err(WindowFault::NoArea));
    assert_eq!(
        window_bbox(&flat, &b(7.05, 46.65, 7.25, 88.0)),
        Err(WindowFault::Corner(ZoneFault::PastMercator(num(88.0))))
    );
    assert_eq!(
        window_bbox(&flat, &b(780000.0, 5900000.0, 800000.0, 5920000.0)),
        Err(WindowFault::Corner(ZoneFault::NotLongitude(num(780000.0))))
    );
    assert_eq!(zones_envelope(&Vec::new()), Err(WindowFault::NoZones));
    let dot = FeatureGeometry::Point(Coord { x: num(1.0), y: num(1.0) });
    assert_eq!(zones_envelope(&vec![dot]), Err(WindowFault::FlatZones));
    let none = FeatureGeometry::MultiPoint(Vec::new());
    assert_eq!(zones_envelope(&vec![none]), Err(WindowFault::NoCoordinates));
}

#[test]
fn a_request_keeps_its_caps() {
    assert_eq!(check_request(256, num(500.0)), Ok(()));
    assert_eq!(check_request(257, num(500.0)), Err(RequestFault::TooManyFeatures(257)));
    assert_eq!(check_request(1, num(0.0)), Err(RequestFault::BadResolution(num(0.0))));
    assert_eq!(check_request(1, num(-30.0)), Err(RequestFault::BadResolution(num(-30.0))));
    assert!(check_request(1, num(f64::INFINITY)).is_err());
}

#[test]
fn a_request_is_planned_caps_first() {
    let one = features(&shaped(&format!(r#"{{"type":"Polygon","coordinates":[{RING}]}}"#)));
    let plan = plan_request(&flat, &one, None, num(500.0)).unwrap();
    assert_eq!(plan.zones.len(), 1);
    assert_eq!(plan.window, Bbox::new(num(7.0), num(46.0), num(8.0), num(47.0)));
    let corners = Bbox::new(num(7.2), num(46.2), num(7.4), num(46.4));
    let plan = plan_request(&flat, &one, Some(corners), num(500.0)).unwrap();
    assert_eq!(plan.window, corners);
    let whole = plan_request(&flat, &Vec::new(), Some(corners), num(500.0)).unwrap();
    assert!(whole.zones.is_empty());
    let odd = features(r#"[{"type":"Feature"}]"#);
    let bad = |v: &Vec<Json>, r: f64| plan_request(&flat, v, None, num(r)).unwrap_err();
    assert_eq!(
        bad(&odd, 0.0),
        PlanFault::Request(RequestFault::BadResolution(num(0.0)))
    );
    assert_eq!(bad(&odd, 1.0), PlanFault::Zone(0, ZoneFault::NoGeometry));
    assert_eq!(bad(&Vec::new(), 1.0), PlanFault::Window(WindowFault::NoZones));
}

#[test]
fn a_refused_request_is_told_why() {
    let words = |a: &str, b: &str, why: &str| Words {
        first: a.to_string(),
        second: b.to_string(),
        why: why.to_string(),
    };
    let none = words("", "", "");
    let told = |f: PlanFault, w: &Words| plan_message(&f, &Vec::new(), w);
    assert_eq!(
        told(PlanFault::Request(RequestFault::TooManyFeatures(257)), &none),
        "257 features is past the 256 cap"
    );
    assert_eq!(
        told(PlanFault::Request(RequestFault::BadResolution(num(0.0))), &words("0", "", "")),
        "resolution 0 is not a positive number"
    );
    assert_eq!(
        told(PlanFault::Window(WindowFault::NoZones), &none),
        "a request with no features needs a bbox"
    );
    assert_eq!(
        told(
            PlanFault::Window(WindowFault::Corner(ZoneFault::PastMercator(num(88.0)))),
            &words("88", "", "")
        ),
        "latitude 88 is past the 85.06 web mercator limit"
    );
    let line = features(&shaped(r#"{"type":"LineString","coordinates":[]}"#));
    assert_eq!(
        plan_message(&PlanFault::Zone(0, ZoneFault::NotArea), &line, &none),
        "feature 0: a zone cannot be a LineString"
    );
    assert_eq!(
        plan_message(&PlanFault::Zone(0, ZoneFault::NoGeometry), &line, &none),
        "feature 0 has no geometry"
    );
    assert_eq!(
        zone_message(&ZoneFault::Unprojected(num(1.0), num(2.0)), "", &words("1", "2", "why")),
        "lon 1 lat 2 does not project: why"
    );
    assert_eq!(
        zone_message(&ZoneFault::OffGrid(num(1.0), num(2.0)), "", &words("1", "2", "why")),
        "lon 1 lat 2 does not project: it leaves the grid"
    );
    assert_eq!(
        zone_message(&ZoneFault::TooManyPositions, "", &none),
        "the features hold more than the 20000 position cap"
    );
    assert_eq!(zone_message(&ZoneFault::OpenRing(3), "", &none), "a ring of 3 positions cannot close");
}
