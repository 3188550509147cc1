use geoplumb::cache::{after_load, Action, AfterLoad, ChunkCache, Slot};
use geoplumb::cog::{
    after_failure, answer, band_count, check_body, decimate, file_window, pad_block, range_header,
    window_bands, Answer, FileWindow, HttpRange, Plane,
};
use geoplumb::number::Real;
use geoplumb::range_cache::{Probe, RangeCache, RANGE_CACHE_BUDGET};
use geoplumb::window::{Bbox, ChunkKey};

fn num(v: f64) -> Real {
    Real::from_bits(v.to_bits())
}

fn slot(ix: i64) -> Slot {
    Slot { node: 0, key: ChunkKey { level: 0, ix, iy: 0, time: None } }
}

#[test]
fn one_caller_computes_and_the_others_wait() {
    let mut cache: ChunkCache<&str, u32> = ChunkCache::new();
    assert_eq!(cache.request(slot(0), 1), Action::Compute);
    assert_eq!(cache.request(slot(0), 2), Action::Wait);
    assert_eq!(cache.request(slot(1), 3), Action::Compute);
    let (woken, gone) = cache.finish_chunk(slot(0), "tile", 10, false, 100, None);
    assert_eq!(woken, [2]);
    assert!(gone.is_empty());
    assert_eq!(cache.request(slot(0), 4), Action::Hit);
    assert_eq!(cache.ready(&slot(0)), Some(&"tile"));
}

#[test]
fn a_cancelled_computation_is_taken_over() {
    let mut cache: ChunkCache<&str, u32> = ChunkCache::new();
    cache.request(slot(0), 1);
    cache.request(slot(0), 2);
    assert_eq!(cache.cancel(slot(0)), [2]);
    assert_eq!(cache.request(slot(0), 2), Action::Compute);
}

#[test]
fn memory_evicts_the_least_recently_used() {
    let mut cache: ChunkCache<u8, u32> = ChunkCache::new();
    for ix in 0..3 {
        cache.request(slot(ix), 0);
        cache.finish_chunk(slot(ix), ix as u8, 40, false, 120, None);
    }
    cache.request(slot(0), 0);
    cache.request(slot(3), 0);
    cache.finish_chunk(slot(3), 3, 40, false, 120, None);
    assert!(cache.ready(&slot(0)).is_some());
    assert!(cache.ready(&slot(1)).is_none());
    assert!(cache.ready(&slot(3)).is_some());
}

#[test]
fn a_spilled_chunk_is_loaded_back() {
    let mut cache: ChunkCache<u8, u32> = ChunkCache::new();
    cache.request(slot(0), 0);
    cache.finish_chunk(slot(0), 0, 80, true, 100, Some(1000));
    cache.request(slot(1), 0);
    cache.finish_chunk(slot(1), 1, 80, true, 100, Some(1000));
    assert!(cache.ready(&slot(0)).is_none());
    assert_eq!(cache.request(slot(0), 0), Action::Load);
}

#[test]
fn invalidation_drops_what_the_window_meets() {
    let mut cache: ChunkCache<u8, u32> = ChunkCache::new();
    let tile = |ix: i64| {
        let x = ix as f64;
        Bbox::new(num(x), num(0.0), num(x + 1.0), num(1.0))
    };
    for ix in 0..3 {
        cache.request(slot(ix), 0);
        cache.finish_chunk(slot(ix), 0, 1, false, 100, None);
    }
    let boxes: Vec<(ChunkKey, Bbox)> = cache
        .keys_of(0)
        .into_iter()
        .map(|k| (k, tile(k.ix)))
        .collect();
    let dirty = Bbox::new(num(1.2), num(0.2), num(1.8), num(0.8));
    cache.invalidate(0, &boxes, &dirty);
    assert!(cache.ready(&slot(0)).is_some());
    assert!(cache.ready(&slot(1)).is_none());
    assert!(cache.ready(&slot(2)).is_some());
}

// Byte ranges.

#[test]
fn one_caller_fetches_a_range() {
    let mut cache = RangeCache::new();
    let file = HttpRange::new("https://h/a.tif".to_string());
    let key = file.key(0, 16);
    assert!(matches!(cache.probe(&key), Probe::Claimed));
    assert!(matches!(cache.probe(&key), Probe::InFlight));
    assert!(matches!(cache.get_or_claim(&key), Probe::InFlight));
    cache.publish(&key, Some(vec![1, 2, 3]));
    assert!(matches!(cache.probe(&key), Probe::Ready(b) if b == [1, 2, 3]));
    assert_eq!(cache.bytes(), 3);
}

#[test]
fn a_failed_fetch_is_claimed_by_the_next() {
    let mut cache = RangeCache::new();
    let file = HttpRange::new("u".to_string());
    let key = file.key(8, 8);
    cache.probe(&key);
    let failed = file.fetch_claimed(&mut cache, &key, Err("gone".to_string()));
    assert_eq!(failed, Err("gone".to_string()));
    assert!(matches!(cache.get_or_claim(&key), Probe::Claimed));
    let fetched = file.fetch_claimed(&mut cache, &key, Ok(vec![9]));
    assert_eq!(fetched, Ok(vec![9]));
    assert!(matches!(cache.probe(&key), Probe::Ready(b) if b == [9]));
}

#[test]
fn ranges_leave_when_the_budget_is_passed() {
    let mut cache = RangeCache::new();
    let file = HttpRange::new("u".to_string());
    let half = RANGE_CACHE_BUDGET / 2;
    for i in 0..2u64 {
        cache.probe(&file.key(i, 1));
        cache.publish(&file.key(i, 1), Some(vec![0; half]));
    }
    cache.probe(&file.key(0, 1));
    cache.probe(&file.key(9, 9));
    cache.probe(&file.key(2, 1));
    cache.publish(&file.key(2, 1), Some(vec![0; 1]));
    assert_eq!(cache.bytes(), half + 1);
    assert!(matches!(cache.probe(&file.key(0, 1)), Probe::Ready(_)));
    assert!(matches!(cache.probe(&file.key(1, 1)), Probe::Claimed));
    assert!(matches!(cache.probe(&file.key(9, 9)), Probe::InFlight));
}

#[test]
fn a_read_accounts_for_every_range() {
    let mut cache = RangeCache::new();
    let file = HttpRange::new("u".to_string());
    cache.probe(&file.key(0, 4));
    cache.publish(&file.key(0, 4), Some(vec![7; 4]));
    cache.probe(&file.key(4, 4));
    let plan = file.plan_ranges(&mut cache, &vec![(0, 4), (4, 4), (8, 4), (8, 4)]);
    assert_eq!(plan.out, [Some(vec![7; 4]), None, None, None]);
    assert_eq!(plan.mine, [2]);
    assert_eq!(plan.theirs, [1, 3]);
}

#[test]
fn faults_are_retried_while_they_may_pass() {
    assert_eq!(range_header(10, 5), "bytes=10-14");
    assert_eq!(answer(206), Answer::Partial);
    assert_eq!(answer(200), Answer::Ignored);
    assert_eq!(answer(503), Answer::Transient);
    assert_eq!(answer(429), Answer::Transient);
    assert_eq!(answer(404), Answer::Refused);
    assert_eq!(check_body(4, 4), Ok(()));
    assert_eq!(check_body(3, 4), Err("range returned 3 bytes, wanted 4".to_string()));
    assert_eq!(after_failure(1, true), Some(200));
    assert_eq!(after_failure(2, true), Some(800));
    assert_eq!(after_failure(3, true), None);
    assert_eq!(after_failure(1, false), None);
}

#[test]
fn a_file_says_how_many_bands_it_has() {
    assert_eq!(band_count(Some(3)).unwrap(), 3);
    assert!(format!("{:?}", band_count(None)).contains("cog has no levels"));
    assert!(format!("{:?}", band_count(Some(65536))).contains("cog has 65536 bands"));
}

#[test]
fn a_window_may_start_before_the_file() {
    assert_eq!(
        file_window(-1, 2, 3, 2),
        Some(FileWindow { col: 0, row: 2, width: 2, height: 2, skip_cols: 1, skip_rows: 0 })
    );
    assert_eq!(file_window(-3, 0, 3, 2), None);
    let block: Vec<Real> = [1.0, 2.0, 3.0, 4.0].iter().map(|v| num(*v)).collect();
    let plane = pad_block(3, 2, 1, 0, 2, 2, &block);
    assert!(plane[0].is_nan() && plane[3].is_nan());
    assert_eq!(plane[1..3], [num(1.0), num(2.0)]);
    assert_eq!(plane[4..6], [num(3.0), num(4.0)]);
}

#[test]
fn a_coarser_cell_averages_its_block() {
    let fine: Vec<Real> = [1.0, 2.0, 5.0, 6.0, 3.0, f64::NAN, 7.0, 8.0]
        .iter()
        .map(|v| num(*v))
        .collect();
    let blocks = decimate(&fine, 2, 1, 2);
    assert_eq!(blocks[0], [num(1.0), num(2.0), num(3.0)]);
    assert_eq!(blocks[1], [num(5.0), num(6.0), num(7.0), num(8.0)]);
}

#[test]
fn a_window_has_a_band_per_sample() {
    let nums = |v: &[f64]| -> Vec<Real> { v.iter().map(|x| num(*x)).collect() };
    let mean = |values: Vec<Real>| {
        let sum: f64 = values.iter().map(|v| f64::from_bits(v.to_bits())).sum();
        num(sum / values.len() as f64)
    };
    let planes = vec![Plane { width: 3, height: 2, data: nums(&[1.0, 2.0, 6.0, 3.0, 4.0, 8.0]) }];
    let window = file_window(-1, 0, 4, 2);
    let bands = window_bands(&mean, window, &planes, 2, 2, 1, 2);
    assert_eq!(bands.len(), 2);
    assert_eq!(bands[0].data, nums(&[2.0, 5.0]));
    assert!(bands[1].data.iter().all(|v| v.is_nan()));
    let plain = window_bands(&mean, window, &planes, 1, 4, 2, 1);
    assert_eq!(plain[0].data.len(), 8);
    assert!(plain[0].data[0].is_nan());
    assert_eq!(plain[0].data[1..4], nums(&[1.0, 2.0, 6.0]));
    let beside = window_bands(&mean, file_window(-9, 0, 4, 2), &planes, 1, 2, 1, 2);
    assert!(beside[0].data.iter().all(|v| v.is_nan()));
}

#[test]
fn a_copy_that_cannot_be_read_is_computed_again() {
    assert!(matches!(after_load(Some(7)), AfterLoad::Store(7)));
    assert!(matches!(after_load::<u8>(None), AfterLoad::Recompute));
}
