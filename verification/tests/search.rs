use geoplumb::composite;
use geoplumb::composite::{next_wave, reduce_values, Reduced};
use geoplumb::caps::Crs;
use geoplumb::chunk::{Band, Placement, RasterChunk};
use geoplumb::folding::{fold_wave, folds, start_plane, Folded};
use geoplumb::json;
use geoplumb::number::Real;
use geoplumb::search_cache::{
    Kept, SearchCache, SearchKey, MAX_CACHED_SEARCHES, MAX_CACHED_SEARCH_MATCHES,
};
use geoplumb::stac::{
    parse_found, s3_to_https, search_url, Composite, Found, PageFault, SearchState, StacSearch,
    MAX_SEARCH_ITEMS,
};
use geoplumb::stac_items::{
    anchor_order, anchor_place, check_asset_bands, keep, newest_first, odd_pixel_size, plan_blocks,
    pull_items, select_items, settle, total_bands, ItemCard, OpenFault,
};
use geoplumb::error::Error;
use geoplumb::strips::plan_strips;
use geoplumb::window::{Bbox, TimeInterval, WindowReq};

fn num(v: f64) -> Real {
    Real::from_bits(v.to_bits())
}

fn square(a: f64, b: f64) -> Bbox {
    Bbox::new(num(a), num(a), num(b), num(b))
}

fn key(ix: i32) -> SearchKey {
    SearchKey { ix, iy: 0, time: None }
}

#[test]
fn search_cache_evicts_the_least_recently_used_entry() {
    let mut cache: SearchCache<usize> = SearchCache::new();
    for index in 0..MAX_CACHED_SEARCHES {
        assert_eq!(*cache.insert(key(index as i32), index, 0).get(), index);
    }
    assert!(cache.get(&key(0)).is_some());
    cache.insert(key(MAX_CACHED_SEARCHES as i32), MAX_CACHED_SEARCHES, 0);

    assert_eq!(cache.len(), MAX_CACHED_SEARCHES);
    assert!(cache.contains_key(&key(0)));
    assert!(!cache.contains_key(&key(1)));
}

#[test]
fn search_cache_bounds_match_references() {
    let mut cache: SearchCache<usize> = SearchCache::new();
    let matches_per_search = MAX_SEARCH_ITEMS;
    let searches = MAX_CACHED_SEARCH_MATCHES / matches_per_search + 1;
    for index in 0..searches {
        cache.insert(key(index as i32), index, matches_per_search);
    }

    assert!(cache.match_references() <= MAX_CACHED_SEARCH_MATCHES);
    assert_eq!(cache.match_references(), cache.len() * matches_per_search);
}

#[test]
fn active_result_survives_eviction_and_releases_its_item() {
    let active = std::sync::Arc::new(vec!["https://example.test/0.tif".to_string()]);
    let watch = std::sync::Arc::downgrade(&active);
    let mut cache = SearchCache::new();
    cache.insert(key(0), active.clone(), 1);
    for index in 1..=MAX_CACHED_SEARCHES {
        cache.insert(key(index as i32), std::sync::Arc::new(Vec::new()), 0);
    }

    assert!(!cache.contains_key(&key(0)));
    assert_eq!(active.len(), 1);
    drop(active);
    assert!(watch.upgrade().is_none());
}

#[test]
fn the_first_result_of_a_block_is_kept() {
    let mut cache: SearchCache<&str> = SearchCache::new();
    assert_eq!(*cache.insert(key(3), "first", 2).get(), "first");
    assert_eq!(*cache.insert(key(3), "second", 9).get(), "first");
    assert_eq!(cache.get(&key(3)), Some(&"first"));
    assert_eq!(cache.peek(&key(3)), Some(&"first"));
    assert_eq!(cache.peek(&key(9)), None);
    assert_eq!(cache.match_references(), 2);
    let huge = cache.insert(key(4), "huge", MAX_CACHED_SEARCH_MATCHES + 1);
    assert!(matches!(huge, Kept::Left("huge")));
    assert_eq!((cache.len(), cache.match_references()), (0, 0));
}

#[test]
fn buckets_are_read_over_https() {
    assert_eq!(
        s3_to_https("s3://bucket/a/b.tif"),
        "https://bucket.s3.amazonaws.com/a/b.tif"
    );
    assert_eq!(s3_to_https("https://example.test/a.tif"), "https://example.test/a.tif");
    assert_eq!(s3_to_https("s3://bucket"), "s3://bucket");
    assert_eq!(s3_to_https("s3://bucket/"), "https://bucket.s3.amazonaws.com/");
    assert_eq!(s3_to_https("s3"), "s3");
}

fn corners() -> Vec<String> {
    ["7", "46.3", "8", "46.9"].iter().map(|s| s.to_string()).collect()
}

#[test]
fn a_pull_sends_its_own_interval() {
    let mut search = StacSearch::new("https://api.test/v1", "dem", "data", square(0.0, 1.0));
    assert_eq!(
        search_url(&search, &corners(), None),
        "https://api.test/v1/search?collections=dem&bbox=7,46.3,8,46.9&limit=100"
    );
    search.datetime = Some("2020-01-01T00:00:00Z".to_string());
    assert!(search_url(&search, &corners(), None).ends_with("&limit=100&datetime=2020-01-01T00:00:00Z"));
    let pulled = TimeInterval::new(0, 1_000);
    assert!(search_url(&search, &corners(), Some(pulled))
        .ends_with("&datetime=1970-01-01T00:00:00Z/1970-01-01T00:00:01Z"));
}

fn body(raw: &str) -> Vec<u8> {
    raw.as_bytes().to_vec()
}

const FEATURE: &str = r#"{"assets":{"red":{"href":"s3://b/red.tif","raster:bands":[{}]},"nir":{"href":"https://h/nir.tif","proj:epsg":32632,"eo:bands":[{},{}]}},"properties":{"datetime":"2024-06-01T00:00:00Z"},"bbox":[7.0,46.0,"x",8.0,47.0]}"#;

#[test]
fn a_feature_needs_every_asset_and_a_footprint() {
    let assets = vec!["red".to_string(), "nir".to_string()];
    let feature = json::parse(&body(FEATURE)).unwrap();
    let found = parse_found(&feature, &assets).unwrap();
    assert_eq!(found.hrefs, ["https://b.s3.amazonaws.com/red.tif", "https://h/nir.tif"]);
    assert_eq!(found.datetime, "2024-06-01T00:00:00Z");
    assert_eq!(found.bbox, Bbox::new(num(7.0), num(46.0), num(8.0), num(47.0)));
    assert_eq!(found.epsg, 32632);
    assert_eq!(found.bands, [Some(1), Some(2)]);
    let swir = vec!["red".to_string(), "swir".to_string()];
    assert!(parse_found(&feature, &swir).is_none());
    let flat = json::parse(&body(r#"{"assets":{"red":{"href":"a"}},"bbox":[1,2,3]}"#)).unwrap();
    assert!(parse_found(&flat, &vec!["red".to_string()]).is_none());
}

#[test]
fn pages_are_followed_to_the_end() {
    let assets = vec!["red".to_string()];
    let mut state = SearchState::new();
    let first = format!(
        r#"{{"features":[{FEATURE}],"links":[{{"rel":"self","href":"a"}},{{"rel":"next","href":"https://api/p2"}}]}}"#
    );
    assert_eq!(
        state.take_answer(&body(&first), &assets).unwrap(),
        Some("https://api/p2".to_string())
    );
    let last = format!(r#"{{"features":[{FEATURE},{{}}]}}"#);
    assert_eq!(state.take_answer(&body(&last), &assets).unwrap(), None);
    assert_eq!(state.found.len(), 2);
    assert_eq!(state.seen, 3);
}

#[test]
fn a_broken_page_ends_the_search() {
    let assets = vec!["red".to_string()];
    let mut state = SearchState::new();
    assert!(matches!(state.take_answer(&body("{"), &assets), Err(PageFault::InvalidJson(_))));
    assert!(matches!(state.take_answer(&body("{}"), &assets), Err(PageFault::NoFeatures)));
    let thousand = format!(r#"{{"features":[{}]}}"#, vec!["{}"; 1000].join(","));
    assert_eq!(state.take_answer(&body(&thousand), &assets).unwrap(), None);
    let one = r#"{"features":[{}]}"#;
    assert!(matches!(state.take_answer(&body(one), &assets), Err(PageFault::TooMany)));
    assert_eq!(state.seen, 1000);
}

fn item(href: &str, epsg: u32, bands: Vec<Option<u16>>) -> Found {
    Found {
        hrefs: vec![href.to_string()],
        datetime: String::new(),
        bbox: square(0.0, 1.0),
        epsg,
        bands,
    }
}

#[test]
fn items_are_held_to_the_anchor() {
    let found = vec![
        item("a", 4326, vec![None]),
        item("b", 0, vec![None]),
        item("c", 32632, vec![Some(2)]),
        item("d", 32632, vec![Some(3)]),
        item("a", 4326, vec![Some(3)]),
    ];
    let kept = keep(&found, &vec![3]);
    assert_eq!(kept, [0, 3]);
    assert_eq!(anchor_place(&found, &kept), Some(0));
    let odd = vec![item("x", 4326, vec![Some(1)]), item("y", 4326, vec![None])];
    let kept = keep(&odd, &vec![3]);
    assert_eq!(kept, [1]);
    assert_eq!(anchor_place(&odd, &kept), None);
}

#[test]
fn assets_stack_on_one_pixel_size() {
    assert_eq!(odd_pixel_size(&vec![num(10.0), num(10.0)]), None);
    assert_eq!(odd_pixel_size(&vec![num(10.0), num(10.0), num(20.0)]), Some(2));
    assert_eq!(odd_pixel_size(&vec![num(f64::NAN)]), Some(0));
    assert_eq!(total_bands(&vec![1, 2, 3]), Some(6));
    assert_eq!(total_bands(&vec![65535, 1]), None);
    assert!(check_asset_bands("h", 3, 3).is_ok());
    match check_asset_bands("https://h/a.tif", 1, 3) {
        Err(Error::Source(m)) => assert_eq!(
            m,
            "stac item asset https://h/a.tif has 1 bands, the anchor item has 3"
        ),
        other => panic!("unexpected {other:?}"),
    }
}

#[test]
fn the_newest_goes_first_and_ties_keep_their_order() {
    let dates = ["2024-01-01", "2024-06-01", "2024-01-01", "", "2024-06-02"];
    let dates: Vec<String> = dates.iter().map(|d| d.to_string()).collect();
    assert_eq!(newest_first(&dates), [4, 1, 0, 2, 3]);
}

#[test]
fn a_pull_takes_each_item_once_newest_first() {
    let card = |href: &str, date: &str, b: Bbox| ItemCard {
        href: href.to_string(),
        datetime: date.to_string(),
        bbox: b,
    };
    let cards = vec![
        card("a", "2024-01-01", square(0.0, 2.0)),
        card("b", "2024-02-01", square(5.0, 6.0)),
        card("a", "2024-03-01", square(0.0, 2.0)),
        card("c", "2024-02-01", square(1.0, 3.0)),
    ];
    assert_eq!(select_items(&cards, &square(1.0, 2.0)), [3, 0]);
}

#[test]
fn cold_blocks_are_capped() {
    let mut cache: SearchCache<u8> = SearchCache::new();
    cache.insert(SearchKey { ix: 1, iy: 0, time: None }, 7, 0);
    let plan = plan_blocks(&mut cache, 0, 2, 0, 1, None).unwrap();
    assert_eq!(plan.known, [SearchKey { ix: 1, iy: 0, time: None }]);
    let missing: Vec<(i32, i32)> = plan.missing.iter().map(|k| (k.ix, k.iy)).collect();
    assert_eq!(missing, [(0, 0), (2, 0), (0, 1), (1, 1), (2, 1)]);
    assert_eq!(plan_blocks(&mut cache, -2, 5, 0, 4, None).unwrap_err(), 39);
    assert_eq!(plan_blocks(&mut cache, 0, 7, 0, 3, None).unwrap().missing.len(), 31);
    assert!(plan_blocks(&mut cache, 3, 2, 0, 0, None).unwrap().missing.is_empty());
}

fn chunk(values: &[f64]) -> RasterChunk {
    RasterChunk {
        width: values.len(),
        height: 1,
        bands: vec![Band {
            nodata: num(f64::NAN),
            data: values.iter().map(|v| num(*v)).collect(),
        }],
        place: Placement { bbox: square(0.0, 1.0), resolution: num(1.0), crs: Crs(4326) },
    }
}

fn values(c: &RasterChunk) -> Vec<f64> {
    c.bands[0].data.iter().map(|v| f64::from_bits(v.to_bits())).collect()
}

const GAP: f64 = f64::NAN;

#[test]
fn older_items_fill_what_newer_ones_left() {
    let newest = chunk(&[1.0, GAP, GAP]);
    let older = chunk(&[9.0, 2.0, GAP]);
    let merged = composite::fill_latest(None, vec![newest, older]).unwrap();
    assert_eq!(values(&merged)[..2], [1.0, 2.0]);
    assert!(!composite::complete(&merged));
    let whole = composite::fill_latest(Some(merged), vec![chunk(&[7.0, 7.0, 3.0])]).unwrap();
    assert_eq!(values(&whole), [1.0, 2.0, 3.0]);
    assert!(composite::complete(&whole));
    assert!(composite::fill_latest(None, Vec::new()).is_none());
}

#[test]
fn waves_stop_at_a_complete_raster() {
    let open = chunk(&[1.0, GAP]);
    let done = chunk(&[1.0, 2.0]);
    assert_eq!(next_wave(0, 150, None), Some((0, 64)));
    assert_eq!(next_wave(64, 150, Some(&open)), Some((64, 128)));
    assert_eq!(next_wave(128, 150, Some(&open)), Some((128, 150)));
    assert_eq!(next_wave(64, 150, Some(&done)), None);
    assert_eq!(next_wave(0, 0, None), None);
}

#[test]
fn a_window_without_items_has_no_value() {
    let place = Placement { bbox: square(0.0, 2.0), resolution: num(1.0), crs: Crs(3857) };
    let r = composite::empty(2, 2, 3, place);
    assert_eq!((r.width, r.height, r.bands.len()), (2, 2, 3));
    assert!(r.bands.iter().all(|b| b.data.len() == 4 && b.data.iter().all(|v| v.is_nan())));
}

fn stack(values: &[f64]) -> Vec<Real> {
    values.iter().map(|v| num(*v)).collect()
}

#[test]
fn a_stack_reduces_to_one_of_its_values() {
    let one = |v: &[f64], op: Composite| match reduce_values(stack(v), op) {
        Reduced::Value(r) => f64::from_bits(r.to_bits()),
        other => panic!("unexpected {other:?}"),
    };
    let v = [3.0, -1.0, 2.0];
    assert_eq!(one(&v, Composite::Latest), 3.0);
    assert_eq!(one(&v, Composite::Min), -1.0);
    assert_eq!(one(&v, Composite::Max), 3.0);
    assert_eq!(one(&v, Composite::Median), 2.0);
    assert!(one(&[], Composite::Count).is_nan());
    match reduce_values(stack(&[4.0, 1.0, 3.0, 2.0]), Composite::Median) {
        Reduced::Halfway(a, b) => assert_eq!((a, b), (num(2.0), num(3.0))),
        other => panic!("unexpected {other:?}"),
    }
    assert!(matches!(reduce_values(stack(&v), Composite::Count), Reduced::Count(3)));
    match reduce_values(stack(&v), Composite::Percentile(num(90.0))) {
        Reduced::Percentile(s, p) => {
            assert_eq!(s, stack(&[-1.0, 2.0, 3.0]));
            assert_eq!(p, num(90.0));
        }
        other => panic!("unexpected {other:?}"),
    }
    for (asked, given) in [(-5.0, 0.0), (0.0, 0.0), (100.0, 100.0), (130.0, 100.0)] {
        match reduce_values(stack(&v), Composite::Percentile(num(asked))) {
            Reduced::Percentile(_, p) => assert_eq!(p, num(given)),
            other => panic!("unexpected {other:?}"),
        }
    }
    assert!(matches!(reduce_values(stack(&v), Composite::Mean), Reduced::Mean(s) if s == stack(&v)));
    assert!(matches!(reduce_values(stack(&v), Composite::StdDev), Reduced::StdDev(_)));
}

#[test]
fn items_without_a_value_leave_the_stack() {
    let chunks = vec![chunk(&[1.0, GAP]), chunk(&[3.0, f64::INFINITY])];
    let r = composite::reduce_chunks(&chunks, 1, Composite::Count);
    assert!(matches!(r[0][0], Reduced::Count(2)));
    assert!(matches!(r[0][1], Reduced::Value(v) if v.is_nan()));
}

#[test]
fn a_source_settles_on_its_newest_item() {
    let dates = vec!["2024-01-01".to_string(), "2024-06-01".to_string()];
    assert_eq!(anchor_order(2, &dates), Ok(vec![1, 0]));
    assert_eq!(anchor_order(0, &dates), Err(OpenFault::NoAssets));
    assert_eq!(anchor_order(2, &Vec::new()), Err(OpenFault::NothingFound));
    let two = |href: &str, bands: Vec<Option<u16>>| Found {
        hrefs: vec![href.to_string(), "second".to_string()],
        ..item(href, 4326, bands)
    };
    let found = vec![
        two("a", vec![Some(1), Some(3)]),
        two("b", vec![Some(3), Some(1)]),
        two("c", vec![None, None]),
    ];
    let sizes = vec![num(10.0), num(10.0)];
    let opening = settle(&found, &sizes, &vec![Some(1), Some(3)]).unwrap();
    assert_eq!((opening.bands, opening.anchor), (4, 0));
    assert_eq!(opening.asset_bands, [1, 3]);
    assert_eq!(opening.kept, [0, 2]);
}

#[test]
fn an_anchor_that_cannot_serve_is_refused() {
    let found = vec![item("a", 4326, vec![Some(1)])];
    let fault = |sizes: Vec<Real>, samples: Vec<Option<u64>>| {
        settle(&found, &sizes, &samples).unwrap_err()
    };
    let same = || vec![num(10.0), num(10.0)];
    let odd = vec![num(10.0), num(20.0)];
    assert_eq!(fault(odd, vec![None, None]), OpenFault::PixelSize(1));
    assert_eq!(fault(same(), vec![Some(1), None]), OpenFault::Samples(1));
    assert_eq!(fault(same(), vec![Some(65536), Some(1)]), OpenFault::Samples(0));
    assert_eq!(fault(same(), vec![Some(65535), Some(1)]), OpenFault::TooManyBands);
    assert_eq!(fault(same(), vec![Some(2), Some(1)]), OpenFault::OddAnchor);
}

#[test]
fn a_pull_with_its_own_time_leaves_the_anchor_search_out() {
    let card = |href: &str, date: &str| ItemCard {
        href: href.to_string(),
        datetime: date.to_string(),
        bbox: square(0.0, 1.0),
    };
    let req = WindowReq { bbox: square(0.0, 1.0), resolution: num(1.0), time: None };
    let anchors = || vec![card("a", "2024-01-01"), card("b", "2024-03-01")];
    let found = || vec![card("b", "2024-03-01"), card("c", "2024-02-01")];
    assert_eq!(pull_items(anchors(), found(), &req), [1, 3, 0]);
    let timed = req.with_time(Some(TimeInterval::new(0, 1)));
    assert_eq!(pull_items(anchors(), found(), &timed), [0, 1]);
}

#[test]
fn folding_wave_by_wave_gives_what_the_stack_gives() {
    let chunk = |v: &[f64]| RasterChunk {
        width: 2,
        height: 1,
        bands: vec![Band { nodata: num(f64::NAN), data: v.iter().map(|x| num(*x)).collect() }],
        place: Placement { bbox: square(0.0, 1.0), resolution: num(1.0), crs: Crs(4326) },
    };
    let double = |v: Real| f64::from_bits(v.to_bits());
    let plus = |a: Real, b: Real| num(double(a) + double(b));
    let step = |n: usize, s: (Real, Real), v: Real| {
        let (v, mean) = (double(v), double(s.0));
        let moved = mean + (v - mean) / n as f64;
        (num(moved), num(double(s.1) + (v - mean) * (v - moved)))
    };
    let mut plane = start_plane(2);
    let first = vec![chunk(&[4.0, f64::NAN]), chunk(&[2.0, f64::NAN])];
    let second = vec![chunk(&[9.0, f64::NAN])];
    fold_wave(&mut plane, &first, 0, &plus, &step);
    fold_wave(&mut plane, &second, 0, &plus, &step);
    let mut whole = start_plane(2);
    let all = vec![chunk(&[4.0, f64::NAN]), chunk(&[2.0, f64::NAN]), chunk(&[9.0, f64::NAN])];
    fold_wave(&mut whole, &all, 0, &plus, &step);
    assert_eq!(plane[0].statistics, whole[0].statistics);
    let at = |p: usize, op: Composite| plane[p].finish(op);
    assert_eq!(at(0, Composite::Min), Some(Folded::Value(num(2.0))));
    assert_eq!(at(0, Composite::Max), Some(Folded::Value(num(9.0))));
    assert_eq!(at(0, Composite::Count), Some(Folded::Count(3)));
    assert_eq!(at(0, Composite::Mean), Some(Folded::Mean(num(15.0), 3)));
    match at(0, Composite::StdDev) {
        Some(Folded::StdDev(squares, 3)) => assert!((double(squares) - 26.0).abs() < 1e-9),
        other => panic!("unexpected {other:?}"),
    }
    assert!(matches!(at(1, Composite::Mean), Some(Folded::Value(v)) if v.is_nan()));
    assert_eq!(at(0, Composite::Median), None);
    assert!(folds(Composite::StdDev) && !folds(Composite::Latest));
}

#[test]
fn a_deep_stack_is_reduced_strip_by_strip() {
    assert_eq!(plan_strips(10, 4, 5, 2, 120), [(0, 3), (3, 6), (6, 9), (9, 10)]);
    assert_eq!(plan_strips(3, 4, 5, 2, 39), [(0, 1), (1, 2), (2, 3)]);
    assert_eq!(plan_strips(3, 4, 5, 2, 1000), [(0, 3)]);
    assert_eq!(plan_strips(2, usize::MAX, usize::MAX, 2, 1000), [(0, 1), (1, 2)]);
    assert_eq!(plan_strips(7, 4, 0, 2, 10), [(0, 7)]);
    assert!(plan_strips(0, 4, 5, 2, 10).is_empty());
}
