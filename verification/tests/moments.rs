use geoplumb::caps::{CapsSet, Constraint, Crs};
use geoplumb::elements::raster_source;
use geoplumb::engine::{
    dirty_inputs, dirty_regions, finest_grid, join_dirty, node_grids, stamped, time_varying,
};
use geoplumb::error::Error;
use geoplumb::graph::Graph;
use geoplumb::number::Real;
use geoplumb::pyramid::next_tile;
use geoplumb::rfc3339::{format_rfc3339, parse_ms, parse_rfc3339};
use geoplumb::solver::solve;
use geoplumb::time::{civil_from_days, days_from_civil, days_in_month};
use geoplumb::window::{cover_range, Bbox, ChunkKey, GridSpec, TimeInterval, WindowReq};

fn num(v: f64) -> Real {
    Real::from_bits(v.to_bits())
}

#[test]
fn timestamps_read_and_write() {
    assert_eq!(parse_ms("1970-01-01T00:00:00Z"), Some(0));
    assert_eq!(parse_ms("2024-02-29t12:30:15.25z"), Some(1_709_209_815_250));
    assert_eq!(parse_ms("1970-01-01T01:00:00+01:00"), Some(0));
    assert_eq!(parse_ms("1969-12-31T23:00:00-01:00"), Some(0));
    assert_eq!(parse_ms("1970-01-01T00:00:00.1239Z"), Some(123));
    assert_eq!(format_rfc3339(0), "1970-01-01T00:00:00Z");
    assert_eq!(format_rfc3339(-1), "1969-12-31T23:59:59.999Z");
    assert_eq!(format_rfc3339(1_709_209_815_250), "2024-02-29T12:30:15.250Z");
    for bad in [
        "2023-02-29T00:00:00Z",
        "2024-13-01T00:00:00Z",
        "2024-01-01T24:00:00Z",
        "2024-01-01T00:60:00Z",
        "2024-01-01 00:00:00Z",
        "2024-01-01T00:00:00",
        "2024-01-01T00:00:00.Z",
        "2024-01-01",
        "",
    ] {
        match parse_rfc3339(bad) {
            Err(Error::Source(m)) => assert_eq!(m, format!("not an rfc 3339 timestamp: {bad}")),
            other => panic!("{bad}: {other:?}"),
        }
    }
}

#[test]
fn the_calendar_goes_both_ways() {
    assert_eq!(days_from_civil(1970, 1, 1), 0);
    assert_eq!(days_from_civil(2000, 3, 1), 11_017);
    assert_eq!(civil_from_days(11_017), (2000, 3, 1));
    assert_eq!(civil_from_days(-1), (1969, 12, 31));
    assert_eq!(days_in_month(1900, 2), 28);
    assert_eq!(days_in_month(2000, 2), 29);
    assert_eq!(days_in_month(-4, 2), 29);
    assert_eq!(days_in_month(-100, 2), 28);
    assert_eq!(days_in_month(i64::MIN, 4), 30);
    for day in [-800_000, -1, 0, 59, 60, 365, 146_097, 800_000] {
        let (y, m, d) = civil_from_days(day);
        assert_eq!(days_from_civil(y, m, d), day);
    }
}

#[test]
fn intervals_go_out_as_they_came_in() {
    let text = "2024-06-01T00:00:00Z/2024-07-01T00:00:00.500Z";
    let interval = TimeInterval::parse(text).unwrap();
    assert_eq!(interval.to_stac_datetime(), text);
    let key = ChunkKey { level: 2, ix: 3, iy: -4, time: None };
    assert_eq!(key.at_time(Some(interval)).time, Some(interval));
    assert!(key.precedes(&key.at_time(Some(interval))));
}

fn b(x0: f64, x1: f64) -> Bbox {
    Bbox::new(num(x0), num(0.0), num(x1), num(1.0))
}

#[test]
fn a_range_is_covered_row_by_row() {
    let keys = cover_range(1, -1, 0, 5, 6);
    let at: Vec<(i64, i64)> = keys.iter().map(|k| (k.ix, k.iy)).collect();
    assert_eq!(at, [(-1, 5), (0, 5), (-1, 6), (0, 6)]);
    assert!(cover_range(0, 1, 0, 0, 5).is_empty());
    let req = WindowReq { bbox: b(0.0, 1.0), resolution: num(1.0), time: None };
    let timed = req.with_time(Some(TimeInterval::new(0, 1)));
    assert!(timed.with_window(b(2.0, 3.0), num(2.0)).time.is_some());
}

#[test]
fn dirt_spreads_from_the_inputs() {
    let dirty = vec![Some(b(0.0, 1.0)), None, Some(b(3.0, 4.0))];
    let spread = dirty_inputs(&vec![0, 1, 2], &dirty);
    assert_eq!(spread, [b(0.0, 1.0), b(3.0, 4.0)]);
    assert_eq!(join_dirty(None, &spread), Some(b(0.0, 4.0)));
    assert_eq!(join_dirty(None, &Vec::new()), None);
    assert!(b(0.0, 1.0).intersects(&b(0.5, 2.0)));
    let grid = |r: f64| GridSpec {
        origin_x: num(0.0),
        origin_y: num(0.0),
        base_resolution: num(r),
        chunk_px: 256,
    };
    assert_eq!(finest_grid(&vec![grid(4.0), grid(2.0), grid(3.0)]), grid(2.0));
}

/// Two sources, one joined with what is made of the other.
fn diamond() -> Graph {
    let any = || Constraint::Identity(CapsSet::any_raster());
    let mut g = Graph::new();
    let left = g.add_source(raster_source(1, Crs(4326), num(1.0)));
    let right = g.add_source(raster_source(1, Crs(4326), num(1.0)));
    let blurred = g.add_transform(left, any());
    g.add_fanin(vec![blurred, right], any());
    g
}

#[test]
fn dirt_reaches_what_lies_downstream() {
    let g = diamond();
    let left = geoplumb::graph::NodeId(0);
    let right = geoplumb::graph::NodeId(1);
    let wider = |node: usize, d: Bbox| {
        if node == 2 {
            b(f64::from_bits(d.min_x.to_bits()) - 1.0, f64::from_bits(d.max_x.to_bits()) + 1.0)
        } else {
            d
        }
    };
    assert_eq!(
        dirty_regions(&g, left, b(2.0, 3.0), &wider),
        [Some(b(2.0, 3.0)), None, Some(b(1.0, 4.0)), Some(b(1.0, 4.0))]
    );
    assert_eq!(
        dirty_regions(&g, right, b(2.0, 3.0), &wider),
        [None, Some(b(2.0, 3.0)), None, Some(b(2.0, 3.0))]
    );
}

#[test]
fn only_what_varies_is_kept_by_time() {
    let g = diamond();
    assert_eq!(time_varying(&g, &vec![false, true, false, false]), [false, true, false, true]);
    assert_eq!(time_varying(&g, &vec![true, false, false, false]), [true, false, true, true]);
    let key = ChunkKey { level: 1, ix: 2, iy: 3, time: None };
    let moment = Some(TimeInterval::new(0, 10));
    assert_eq!(stamped(&key, true, moment).time, moment);
    assert_eq!(stamped(&key, false, moment), key);
}

#[test]
fn grids_follow_the_inputs() {
    let grid = |r: f64| GridSpec {
        origin_x: num(0.0),
        origin_y: num(0.0),
        base_resolution: num(r),
        chunk_px: 1,
    };
    let g = diamond();
    let caps = solve(&g).unwrap();
    let found = node_grids(&g, &caps, &|i: usize, inputs: Vec<GridSpec>| match i {
        0 => grid(2.0),
        1 => grid(3.0),
        2 => GridSpec { base_resolution: num(8.0), ..inputs[0] },
        _ => finest_grid(&inputs),
    });
    let steps: Vec<Real> = found.iter().map(|g| g.base_resolution).collect();
    assert_eq!(steps, [num(2.0), num(3.0), num(8.0), num(3.0)]);
    assert!(found.iter().zip(&caps).all(|(g, c)| g.chunk_px == c.chunk_px()));
    let own = node_grids(&g, &caps, &|i: usize, inputs: Vec<GridSpec>| match i {
        0 | 1 => grid(2.0),
        2 => inputs[0],
        _ => GridSpec { origin_x: num(inputs.len() as f64), ..grid(100.0) },
    });
    assert_eq!(own[3].base_resolution, num(100.0));
    assert_eq!(own[3].origin_x, num(2.0));
}

#[test]
fn a_pyramid_is_walked_level_by_level() {
    let walk = |counts: &Vec<usize>, max: u8| {
        let mut seen = Vec::new();
        let mut at = None;
        while let Some(tile) = next_tile(at, counts, max) {
            seen.push(tile);
            at = Some(tile);
        }
        seen
    };
    assert_eq!(walk(&vec![2, 0, 1], 2), [(0, 0), (0, 1), (2, 0)]);
    assert_eq!(walk(&vec![2, 0, 1], 1), [(0, 0), (0, 1)]);
    assert!(walk(&vec![0, 0], 1).is_empty());
    assert_eq!(walk(&vec![1; 256], 255).len(), 256);
}
