//! Which of the items found serve a source, and a pull of it.

use vstd::prelude::*;

use crate::cog;
use crate::error::Error;
use crate::number::Real;
use crate::search_cache;
use crate::search_cache::{CachedSearch, SearchCache, SearchKey};
use crate::stac;
use crate::stac::{Found, FoundModel, MAX_BLOCK_SEARCHES};
use crate::text;
use crate::window;
use crate::window::{Bbox, TimeInterval, WindowReq};

verus! {

// Newest first.

/// Item `a` comes before item `b`: it is newer, or as old and listed
/// earlier.
pub open spec fn goes_first(dates: Seq<Seq<char>>, a: usize, b: usize) -> bool {
    text::text_before(dates[b as int], dates[a as int]) || (dates[a as int] == dates[b as int] && a
        < b)
}

/// A list of places goes newest first.
pub open spec fn newest_ordered(dates: Seq<Seq<char>>, order: Seq<usize>) -> bool {
    forall|i: int, j: int|
        0 <= i < j < order.len() ==> goes_first(dates, #[trigger] order[i], #[trigger] order[j])
}

/// A list holds each place below `n` once.
pub open spec fn lists_all(order: Seq<usize>, n: int) -> bool {
    &&& order.len() == n
    &&& forall|i: int| 0 <= i < order.len() ==> 0 <= #[trigger] order[i] < n
    &&& forall|k: usize| k < n ==> #[trigger] order.contains(k)
}

proof fn goes_first_trans(dates: Seq<Seq<char>>, a: usize, b: usize, c: usize)
    requires
        goes_first(dates, a, b),
        goes_first(dates, b, c),
    ensures
        goes_first(dates, a, c),
{
    text::texts_are_ordered(dates[c as int], dates[b as int], dates[a as int]);
}

/// Put a later place where it belongs.
fn place_newest(dates: &Vec<String>, order: &mut Vec<usize>, i: usize)
    requires
        i < dates@.len(),
        forall|k: int| 0 <= k < old(order)@.len() ==> #[trigger] old(order)@[k] < i,
        newest_ordered(stac::texts(dates@), old(order)@),
    ensures
        final(order)@.len() == old(order)@.len() + 1,
        forall|k: int| 0 <= k < final(order)@.len() ==> #[trigger] final(order)@[k] <= i,
        newest_ordered(stac::texts(dates@), final(order)@),
        forall|k: usize| #[trigger]
            final(order)@.contains(k) == (old(order)@.contains(k) || k == i),
{
    let ghost ds = stac::texts(dates@);
    let mut p: usize = 0;
    while p < order.len() && !text::precedes(dates[order[p]].as_str(), dates[i].as_str())
        invariant
            i < dates@.len(),
            ds == stac::texts(dates@),
            forall|k: int| 0 <= k < order@.len() ==> #[trigger] order@[k] < i,
            p <= order@.len(),
            forall|k: int| 0 <= k < p ==> goes_first(ds, #[trigger] order@[k], i),
        decreases order@.len() - p,
    {
        proof {
            text::texts_are_ordered(ds[order@[p as int] as int], ds[i as int], ds[i as int]);
        }
        p = p + 1;
    }
    let ghost before = order@;
    order.insert(p, i);
    proof {
        assert forall|a: int, b: int| 0 <= a < b < order@.len() implies goes_first(
            ds,
            #[trigger] order@[a],
            #[trigger] order@[b],
        ) by {
            if a == p {
                assert(goes_first(ds, i, before[p as int]));
                if b - 1 > p {
                    goes_first_trans(ds, i, before[p as int], before[b - 1]);
                }
            }
        }
        assert forall|k: usize| #[trigger] order@.contains(k) == (before.contains(k) || k == i) by {
            if before.contains(k) {
                let q = choose|q: int| 0 <= q < before.len() && before[q] == k;
                if q < p {
                    assert(order@[q] == k);
                } else {
                    assert(order@[q + 1] == k);
                }
            } else if k == i {
                assert(order@[p as int] == k);
            } else if order@.contains(k) {
                let q = choose|q: int| 0 <= q < order@.len() && order@[q] == k;
                if q < p {
                    assert(before[q] == k);
                } else if q > p {
                    assert(before[q - 1] == k);
                }
            }
        }
    }
}

/// The places of a list of dates, newest first; of one date, in their
/// order.
pub fn newest_first(dates: &Vec<String>) -> (order: Vec<usize>)
    ensures
        lists_all(order@, dates@.len() as int),
        newest_ordered(stac::texts(dates@), order@),
{
    let n: usize = dates.len();
    let mut order: Vec<usize> = Vec::new();
    for i in 0..n
        invariant
            n == dates@.len(),
            lists_all(order@, i as int),
            newest_ordered(stac::texts(dates@), order@),
    {
        place_newest(dates, &mut order, i);
    }
    order
}

/// There is one order that goes newest first.
pub proof fn the_newest_order_is_one(dates: Seq<Seq<char>>, a: Seq<usize>, b: Seq<usize>)
    requires
        lists_all(a, dates.len() as int),
        lists_all(b, dates.len() as int),
        newest_ordered(dates, a),
        newest_ordered(dates, b),
    ensures
        a == b,
{
    assert forall|i: int| 0 <= i < a.len() implies a[i] == b[i] by {
        orders_agree(dates, a, b, i);
    }
    assert(a =~= b);
}

proof fn orders_agree(dates: Seq<Seq<char>>, a: Seq<usize>, b: Seq<usize>, i: int)
    requires
        lists_all(a, dates.len() as int),
        lists_all(b, dates.len() as int),
        newest_ordered(dates, a),
        newest_ordered(dates, b),
        0 <= i < a.len(),
    ensures
        forall|k: int| 0 <= k <= i ==> a[k] == b[k],
    decreases i,
{
    if i > 0 {
        orders_agree(dates, a, b, i - 1);
    }
    if a[i] != b[i] {
        assert(b.contains(a[i]));
        assert(a.contains(b[i]));
        let p = choose|p: int| 0 <= p < b.len() && b[p] == a[i];
        let q = choose|q: int| 0 <= q < a.len() && a[q] == b[i];
        text::texts_are_ordered(dates[a[i] as int], dates[b[i] as int], dates[a[i] as int]);
        text::texts_are_ordered(dates[b[i] as int], dates[a[i] as int], dates[b[i] as int]);
        if p < i {
            assert(a[p] == b[p]);
            assert(goes_first(dates, a[p], a[i]));
        } else if q < i {
            assert(a[q] == b[q]);
            assert(goes_first(dates, b[q], b[i]));
        } else {
            assert(goes_first(dates, b[i], b[p]));
            assert(goes_first(dates, a[i], a[q]));
        }
    }
}

// The items that a source keeps.

/// No asset declares another band count than the anchor's has.
pub open spec fn bands_agree(declared: Seq<Option<u16>>, anchor: Seq<u16>) -> bool {
    forall|k: int|
        0 <= k < declared.len() && k < anchor.len() && #[trigger] declared[k] is Some
            ==> declared[k] == Some(anchor[k])
}

/// An item can serve beside the anchor.
pub open spec fn serves(f: FoundModel, anchor: Seq<u16>) -> bool {
    f.epsg != 0 && bands_agree(f.bands, anchor)
}

/// The first item that can serve under its address.
pub open spec fn is_kept(fs: Seq<FoundModel>, anchor: Seq<u16>, i: int) -> bool {
    &&& serves(fs[i], anchor)
    &&& forall|j: int|
        0 <= j < i && serves(#[trigger] fs[j], anchor) ==> fs[j].hrefs[0] != fs[i].hrefs[0]
}

/// The places of the items kept among the first `n`.
pub open spec fn kept(fs: Seq<FoundModel>, anchor: Seq<u16>, n: int) -> Seq<usize>
    decreases n,
{
    if n <= 0 {
        Seq::empty()
    } else if is_kept(fs, anchor, n - 1) {
        kept(fs, anchor, n - 1).push((n - 1) as usize)
    } else {
        kept(fs, anchor, n - 1)
    }
}

fn agree(declared: &Vec<Option<u16>>, anchor: &Vec<u16>) -> (r: bool)
    ensures
        r == bands_agree(declared@, anchor@),
{
    let mut k: usize = 0;
    while k < declared.len() && k < anchor.len()
        invariant
            k <= declared@.len(),
            forall|j: int|
                0 <= j < k && j < anchor@.len() && #[trigger] declared@[j] is Some ==> declared@[j]
                    == Some(anchor@[j]),
        decreases declared@.len() - k,
    {
        if let Some(b) = declared[k] {
            if b != anchor[k] {
                assert(declared@[k as int] is Some);
                return false;
            }
        }
        k = k + 1;
    }
    true
}

/// The places of the items that a source keeps: those on a reference
/// system, with the anchor's bands as far as they declare any, one per
/// first address.
pub fn keep(found: &Vec<Found>, anchor: &Vec<u16>) -> (r: Vec<usize>)
    requires
        forall|i: int| 0 <= i < found@.len() ==> (#[trigger] found@[i]).hrefs@.len() > 0,
    ensures
        r@ == kept(stac::founds(found@), anchor@, found@.len() as int),
{
    let ghost fs = stac::founds(found@);
    let n: usize = found.len();
    let mut r: Vec<usize> = Vec::new();
    for i in 0..n
        invariant
            n == found@.len(),
            fs == stac::founds(found@),
            forall|i: int| 0 <= i < found@.len() ==> (#[trigger] found@[i]).hrefs@.len() > 0,
            r@ == kept(fs, anchor@, i as int),
    {
        assert(fs[i as int] == found@[i as int]@);
        if found[i].epsg != 0 && agree(&found[i].bands, anchor) {
            let mut fresh: bool = true;
            let mut j: usize = 0;
            while j < i && fresh
                invariant
                    i < n,
                    j <= i,
                    n == found@.len(),
                    fs == stac::founds(found@),
                    forall|i: int|
                        0 <= i < found@.len() ==> (#[trigger] found@[i]).hrefs@.len() > 0,
                    fresh ==> forall|k: int|
                        0 <= k < j && serves(#[trigger] fs[k], anchor@) ==> fs[k].hrefs[0]
                            != fs[i as int].hrefs[0],
                    !fresh ==> !is_kept(fs, anchor@, i as int),
                decreases i - j,
            {
                assert(fs[j as int] == found@[j as int]@);
                if found[j].epsg != 0 && agree(&found[j].bands, anchor) && text::same_text(
                    found[j].hrefs[0].as_str(),
                    found[i].hrefs[0].as_str(),
                ) {
                    assert(serves(fs[j as int], anchor@));
                    fresh = false;
                }
                j = j + 1;
            }
            if fresh {
                r.push(i);
            }
        }
    }
    r
}

/// The anchor's own place among the items kept: the first item with the
/// address of the first item found.
pub fn anchor_place(found: &Vec<Found>, kept: &Vec<usize>) -> (r: Option<usize>)
    requires
        found@.len() > 0,
        forall|i: int| 0 <= i < found@.len() ==> (#[trigger] found@[i]).hrefs@.len() > 0,
        forall|k: int| 0 <= k < kept@.len() ==> 0 <= #[trigger] kept@[k] < found@.len(),
    ensures
        match r {
            Some(p) => {
                &&& p < kept@.len()
                &&& found@[kept@[p as int] as int].hrefs@[0]@ == found@[0].hrefs@[0]@
                &&& forall|k: int|
                    0 <= k < p ==> found@[#[trigger] kept@[k] as int].hrefs@[0]@
                        != found@[0].hrefs@[0]@
            },
            None => forall|k: int|
                0 <= k < kept@.len() ==> found@[#[trigger] kept@[k] as int].hrefs@[0]@
                    != found@[0].hrefs@[0]@,
        },
{
    for p in 0..kept.len()
        invariant
            found@.len() > 0,
            forall|i: int| 0 <= i < found@.len() ==> (#[trigger] found@[i]).hrefs@.len() > 0,
            forall|k: int| 0 <= k < kept@.len() ==> 0 <= #[trigger] kept@[k] < found@.len(),
            forall|k: int|
                0 <= k < p ==> found@[#[trigger] kept@[k] as int].hrefs@[0]@
                    != found@[0].hrefs@[0]@,
    {
        if text::same_text(found[kept[p]].hrefs[0].as_str(), found[0].hrefs[0].as_str()) {
            return Some(p);
        }
    }
    None
}

/// An anchor that can serve is among the items kept, and stands first.
pub proof fn a_serving_anchor_is_kept(fs: Seq<FoundModel>, anchor: Seq<u16>, n: int)
    requires
        0 < n <= fs.len() <= usize::MAX,
        serves(fs[0], anchor),
    ensures
        kept(fs, anchor, n).len() > 0,
        kept(fs, anchor, n)[0] == 0,
    decreases n,
{
    if n == 1 {
        assert(kept(fs, anchor, 0) =~= Seq::empty());
        assert(is_kept(fs, anchor, 0));
        assert(kept(fs, anchor, 1) =~= seq![0usize]);
    } else {
        a_serving_anchor_is_kept(fs, anchor, n - 1);
    }
}

/// The first place whose pixel size is not that of the first asset.
pub fn odd_pixel_size(sizes: &Vec<Real>) -> (r: Option<usize>)
    requires
        sizes@.len() > 0,
    ensures
        match r {
            Some(p) => {
                &&& p < sizes@.len()
                &&& !sizes@[p as int].equals(sizes@[0])
                &&& forall|k: int| 0 <= k < p ==> (#[trigger] sizes@[k]).equals(sizes@[0])
            },
            None => forall|k: int|
                0 <= k < sizes@.len() ==> (#[trigger] sizes@[k]).equals(sizes@[0]),
        },
{
    for p in 0..sizes.len()
        invariant
            sizes@.len() > 0,
            forall|k: int| 0 <= k < p ==> (#[trigger] sizes@[k]).equals(sizes@[0]),
    {
        if !sizes[p].eq_num(sizes[0]) {
            return Some(p);
        }
    }
    None
}

/// The bands of all assets together.
pub open spec fn band_sum(bands: Seq<u16>) -> nat
    decreases bands.len(),
{
    if bands.len() == 0 {
        0
    } else {
        band_sum(bands.drop_last()) + bands.last() as nat
    }
}

proof fn sum_grows(bands: Seq<u16>, i: int)
    requires
        0 <= i <= bands.len(),
    ensures
        band_sum(bands.take(i)) <= band_sum(bands),
    decreases bands.len() - i,
{
    if i < bands.len() {
        sum_grows(bands, i + 1);
        assert(bands.take(i + 1).drop_last() =~= bands.take(i));
    } else {
        assert(bands.take(i) =~= bands);
    }
}

/// How many bands a pull produces, where a band count can say so.
pub fn total_bands(bands: &Vec<u16>) -> (r: Option<u16>)
    ensures
        r == (if band_sum(bands@) <= u16::MAX {
            Some(band_sum(bands@) as u16)
        } else {
            None
        }),
{
    let mut sum: u16 = 0;
    assert(bands@.take(0) =~= Seq::empty());
    for i in 0..bands.len()
        invariant
            sum == band_sum(bands@.take(i as int)),
    {
        proof {
            assert(bands@.take(i + 1).drop_last() =~= bands@.take(i as int));
            sum_grows(bands@, i + 1);
        }
        if bands[i] > u16::MAX - sum {
            return None;
        }
        sum = sum + bands[i];
    }
    assert(bands@.take(bands@.len() as int) =~= bands@);
    Some(sum)
}

// Opening.

/// Why a source cannot be opened.
#[derive(Clone, Copy, Debug, PartialEq, Eq, Structural)]
pub enum OpenFault {
    NoAssets,
    NothingFound,
    /// The asset at this place has another pixel size than the first.
    PixelSize(usize),
    /// The asset at this place has no levels, or more samples a pixel than a
    /// count of bands can say.
    Samples(usize),
    /// The assets have more bands than a count can say.
    TooManyBands,
    /// The anchor declares other bands than it has.
    OddAnchor,
}

/// The order in which found items are taken: newest first, the first one
/// anchoring the source.
pub fn anchor_order(assets: usize, dates: &Vec<String>) -> (r: Result<Vec<usize>, OpenFault>)
    ensures
        if assets == 0 {
            r == Err::<Vec<usize>, OpenFault>(OpenFault::NoAssets)
        } else if dates@.len() == 0 {
            r == Err::<Vec<usize>, OpenFault>(OpenFault::NothingFound)
        } else {
            r matches Ok(order) && lists_all(order@, dates@.len() as int) && newest_ordered(
                stac::texts(dates@),
                order@,
            )
        },
{
    if assets == 0 {
        return Err(OpenFault::NoAssets);
    }
    if dates.len() == 0 {
        return Err(OpenFault::NothingFound);
    }
    Ok(newest_first(dates))
}

/// What an opened source holds on to.
#[derive(Debug)]
pub struct Opening {
    /// The bands of each asset.
    pub asset_bands: Vec<u16>,
    /// The bands of a pull.
    pub bands: u16,
    /// The places of the items kept.
    pub kept: Vec<usize>,
    /// The anchor's place among them.
    pub anchor: usize,
}

/// Among the items kept, the first with the address of the first item.
pub open spec fn is_anchor_place(fs: Seq<FoundModel>, kept: Seq<usize>, p: int) -> bool {
    &&& 0 <= p < kept.len()
    &&& fs[kept[p] as int].hrefs[0] == fs[0].hrefs[0]
    &&& forall|k: int| 0 <= k < p ==> fs[#[trigger] kept[k] as int].hrefs[0] != fs[0].hrefs[0]
}

proof fn kept_in_range(fs: Seq<FoundModel>, anchor: Seq<u16>, n: int)
    requires
        0 <= n <= fs.len() <= usize::MAX,
    ensures
        forall|k: int|
            0 <= k < kept(fs, anchor, n).len() ==> 0 <= #[trigger] kept(fs, anchor, n)[k] < n,
    decreases n,
{
    if n > 0 {
        kept_in_range(fs, anchor, n - 1);
        let before = kept(fs, anchor, n - 1);
        let all = kept(fs, anchor, n);
        assert forall|k: int| 0 <= k < all.len() implies 0 <= #[trigger] all[k] < n by {
            if k < before.len() {
                assert(all[k] == before[k]);
            }
        }
    }
}

/// A file with this many samples a pixel has a band count.
pub open spec fn countable(samples: Option<u64>) -> bool {
    samples matches Some(n) && n <= u16::MAX
}

/// The band counts of files, all of which have one.
pub open spec fn counts(samples: Seq<Option<u64>>) -> Seq<u16> {
    Seq::new(samples.len(), |i: int| samples[i]->0 as u16)
}

/// Settle a source on its anchor, the first of the items found: its files'
/// pixel sizes and samples a pixel, an asset each, are what the others are
/// held to.
pub fn settle(found: &Vec<Found>, sizes: &Vec<Real>, samples: &Vec<Option<u64>>) -> (r: Result<
    Opening,
    OpenFault,
>)
    requires
        found@.len() > 0,
        forall|i: int| 0 <= i < found@.len() ==> (#[trigger] found@[i]).hrefs@.len() > 0,
        sizes@.len() > 0,
    ensures
        ({
            let fs = stac::founds(found@);
            let bands = counts(samples@);
            let chosen = kept(fs, bands, found@.len() as int);
            let one_size = forall|k: int|
                0 <= k < sizes@.len() ==> (#[trigger] sizes@[k]).equals(sizes@[0]);
            let all_count = forall|k: int|
                0 <= k < samples@.len() ==> countable(#[trigger] samples@[k]);
            match r {
                Err(OpenFault::PixelSize(p)) => {
                    &&& p < sizes@.len()
                    &&& !sizes@[p as int].equals(sizes@[0])
                    &&& forall|k: int| 0 <= k < p ==> (#[trigger] sizes@[k]).equals(sizes@[0])
                },
                Err(OpenFault::Samples(p)) => {
                    &&& one_size
                    &&& p < samples@.len()
                    &&& !countable(samples@[p as int])
                    &&& forall|k: int| 0 <= k < p ==> countable(#[trigger] samples@[k])
                },
                Err(e) => {
                    &&& one_size
                    &&& all_count
                    &&& if band_sum(bands) > u16::MAX {
                        e == OpenFault::TooManyBands
                    } else {
                        e == OpenFault::OddAnchor && forall|p: int|
                            !#[trigger] is_anchor_place(fs, chosen, p)
                    }
                },
                Ok(o) => {
                    &&& one_size
                    &&& all_count
                    &&& o.asset_bands@ == bands
                    &&& o.bands == band_sum(bands)
                    &&& o.kept@ == chosen
                    &&& is_anchor_place(fs, chosen, o.anchor as int)
                },
            }
        }),
{
    if let Some(p) = odd_pixel_size(sizes) {
        return Err(OpenFault::PixelSize(p));
    }
    let mut bands: Vec<u16> = Vec::new();
    for i in 0..samples.len()
        invariant
            forall|k: int| 0 <= k < i ==> countable(#[trigger] samples@[k]),
            bands@ == counts(samples@.take(i as int)),
            forall|k: int| 0 <= k < sizes@.len() ==> (#[trigger] sizes@[k]).equals(sizes@[0]),
    {
        match cog::band_count(samples[i]) {
            Ok(n) => {
                bands.push(n);
                assert(bands@ =~= counts(samples@.take(i + 1)));
            },
            Err(_) => {
                return Err(OpenFault::Samples(i));
            },
        }
    }
    assert(samples@.take(samples@.len() as int) =~= samples@);
    let total: u16 = match total_bands(&bands) {
        Some(n) => n,
        None => {
            return Err(OpenFault::TooManyBands);
        },
    };
    let chosen = keep(found, &bands);
    let n: usize = found.len();
    let ghost fs = stac::founds(found@);
    proof {
        kept_in_range(fs, bands@, n as int);
        assert forall|i: int| 0 <= i < fs.len() implies (#[trigger] fs[i]).hrefs[0]
            == found@[i].hrefs@[0]@ by {
            assert(found@[i].hrefs@.len() > 0);
        }
    }
    match anchor_place(found, &chosen) {
        Some(p) => Ok(Opening { asset_bands: bands, bands: total, kept: chosen, anchor: p }),
        None => {
            assert forall|p: int| !#[trigger] is_anchor_place(fs, chosen@, p) by {
                if 0 <= p < chosen@.len() {
                    assert(found@[chosen@[p] as int].hrefs@[0]@ != found@[0].hrefs@[0]@);
                }
            }
            Err(OpenFault::OddAnchor)
        },
    }
}

// The blocks that a window touches.

/// The key of a block at a place of an inclusive range, row by row.
pub open spec fn block_at(
    ix0: i32,
    ix1: i32,
    iy0: i32,
    time: Option<TimeInterval>,
    place: int,
) -> SearchKey {
    let w = window::span(ix0 as i64, ix1 as i64) as int;
    SearchKey { ix: (ix0 + place % w) as i32, iy: (iy0 + place / w) as i32, time }
}

/// The keys of the blocks of an inclusive range, row by row.
pub open spec fn blocks(
    ix0: i32,
    ix1: i32,
    iy0: i32,
    iy1: i32,
    time: Option<TimeInterval>,
) -> Seq<SearchKey> {
    Seq::new(
        window::span(ix0 as i64, ix1 as i64) * window::span(iy0 as i64, iy1 as i64),
        |place: int| block_at(ix0, ix1, iy0, time, place),
    )
}

/// The cache once the first `n` keys have been looked up, from a tick on.
pub open spec fn touched<R>(
    m: Map<SearchKey, CachedSearch<R>>,
    keys: Seq<SearchKey>,
    tick: nat,
    n: int,
) -> Map<SearchKey, CachedSearch<R>>
    decreases n,
{
    if n <= 0 {
        m
    } else {
        let before = touched(m, keys, tick, n - 1);
        let k = keys[n - 1];
        if m.contains_key(k) {
            before.insert(
                k,
                CachedSearch {
                    result: m[k].result,
                    matches: m[k].matches,
                    last_used: (tick + n) as u64,
                },
            )
        } else {
            before
        }
    }
}

proof fn touching_keeps<R>(
    m: Map<SearchKey, CachedSearch<R>>,
    keys: Seq<SearchKey>,
    tick: nat,
    n: int,
)
    ensures
        touched(m, keys, tick, n).dom() == m.dom(),
        forall|k: SearchKey| #[trigger]
            m.contains_key(k) ==> touched(m, keys, tick, n)[k].result == m[k].result && touched(
                m,
                keys,
                tick,
                n,
            )[k].matches == m[k].matches,
    decreases n,
{
    if n > 0 {
        touching_keeps(m, keys, tick, n - 1);
        assert(touched(m, keys, tick, n).dom() =~= m.dom());
    }
}

/// The keys that are kept, or are not, among the first `n`.
pub open spec fn looked_up<R>(
    m: Map<SearchKey, CachedSearch<R>>,
    keys: Seq<SearchKey>,
    kept: bool,
    n: int,
) -> Seq<SearchKey>
    decreases n,
{
    if n <= 0 {
        Seq::empty()
    } else if m.contains_key(keys[n - 1]) == kept {
        looked_up(m, keys, kept, n - 1).push(keys[n - 1])
    } else {
        looked_up(m, keys, kept, n - 1)
    }
}

/// Which blocks of a window are kept and which have to be searched.
#[derive(Debug)]
pub struct BlockPlan {
    pub known: Vec<SearchKey>,
    pub missing: Vec<SearchKey>,
}

fn block_keys(
    ix0: i32,
    ix1: i32,
    iy0: i32,
    iy1: i32,
    time: Option<TimeInterval>,
) -> (r: Vec<SearchKey>)
    requires
        window::span(ix0 as i64, ix1 as i64) * window::span(iy0 as i64, iy1 as i64) <= usize::MAX,
    ensures
        r@ == blocks(ix0, ix1, iy0, iy1, time),
{
    let tiles = window::cover_range(0, ix0 as i64, ix1 as i64, iy0 as i64, iy1 as i64);
    let ghost w = window::span(ix0 as i64, ix1 as i64) as int;
    let ghost h = window::span(iy0 as i64, iy1 as i64) as int;
    let mut r: Vec<SearchKey> = Vec::new();
    let n: usize = tiles.len();
    for p in 0..n
        invariant
            n == tiles@.len(),
            w == window::span(ix0 as i64, ix1 as i64),
            h == window::span(iy0 as i64, iy1 as i64),
            tiles@ == Seq::new(
                (w * h) as nat,
                |place: int|
                    window::tile_at(0, ix0 as i64, ix1 as i64, iy0 as i64, place),
            ),
            n == w * h,
            r@ == blocks(ix0, ix1, iy0, iy1, time).take(p as int),
    {
        proof {
            assert(w > 0) by (nonlinear_arith)
                requires
                    w * h > p,
                    p >= 0,
                    w >= 0,
            ;
            vstd::arithmetic::div_mod::lemma_fundamental_div_mod(p as int, w);
            vstd::arithmetic::div_mod::lemma_mod_bound(p as int, w);
            let q = p as int / w;
            assert(q < h && q >= 0) by (nonlinear_arith)
                requires
                    w * q + (p as int % w) == p,
                    0 <= p as int % w < w,
                    0 <= p < w * h,
                    w > 0,
            ;
        }
        r.push(SearchKey { ix: tiles[p].ix as i32, iy: tiles[p].iy as i32, time });
        assert(r@ =~= blocks(ix0, ix1, iy0, iy1, time).take(p + 1));
    }
    assert(r@ =~= blocks(ix0, ix1, iy0, iy1, time));
    r
}

/// Look the blocks of a window up, row by row. More cold blocks than one
/// pull may search are an error, which says how many there are.
pub fn plan_blocks<R>(
    cache: &mut SearchCache<R>,
    ix0: i32,
    ix1: i32,
    iy0: i32,
    iy1: i32,
    time: Option<TimeInterval>,
) -> (r: Result<BlockPlan, usize>)
    requires
        old(cache).wf(),
        window::span(ix0 as i64, ix1 as i64) * window::span(iy0 as i64, iy1 as i64) <= usize::MAX,
        old(cache).tick() + window::span(ix0 as i64, ix1 as i64) * window::span(
            iy0 as i64,
            iy1 as i64,
        ) <= u64::MAX,
    ensures
        final(cache).wf(),
        ({
            let keys = blocks(ix0, ix1, iy0, iy1, time);
            let n = keys.len() as int;
            let m = old(cache).entries();
            let missing = looked_up(m, keys, false, n);
            &&& final(cache).entries() == touched(m, keys, old(cache).tick(), n)
            &&& final(cache).tick() == old(cache).tick() + n
            &&& if missing.len() > MAX_BLOCK_SEARCHES {
                r == Err::<BlockPlan, usize>(missing.len() as usize)
            } else {
                r matches Ok(p) && p.known@ == looked_up(m, keys, true, n) && p.missing@ == missing
            }
        }),
{
    let keys = block_keys(ix0, ix1, iy0, iy1, time);
    let ghost m = cache.entries();
    let ghost tick = cache.tick();
    let n: usize = keys.len();
    let mut known: Vec<SearchKey> = Vec::new();
    let mut missing: Vec<SearchKey> = Vec::new();
    for i in 0..n
        invariant
            n == keys@.len(),
            tick + n <= u64::MAX,
            cache.wf(),
            cache.tick() == tick + i,
            cache.entries() == touched(m, keys@, tick, i as int),
            known@ == looked_up(m, keys@, true, i as int),
            missing@ == looked_up(m, keys@, false, i as int),
    {
        proof {
            touching_keeps(m, keys@, tick, i as int);
            assert(cache.entries().dom().contains(keys@[i as int]) == m.dom().contains(
                keys@[i as int],
            ));
        }
        let hit: bool = cache.get(&keys[i]).is_some();
        if hit {
            known.push(keys[i]);
        } else {
            missing.push(keys[i]);
        }
    }
    if missing.len() > MAX_BLOCK_SEARCHES {
        Err(missing.len())
    } else {
        Ok(BlockPlan { known, missing })
    }
}

/// Looking blocks up keeps every search that is kept, with its result.
pub proof fn looking_up_keeps_searches<R>(
    m: Map<SearchKey, CachedSearch<R>>,
    keys: Seq<SearchKey>,
    tick: nat,
    k: SearchKey,
)
    ensures
        touched(m, keys, tick, keys.len() as int).contains_key(k) == m.contains_key(k),
        m.contains_key(k) ==> touched(m, keys, tick, keys.len() as int)[k].result == m[k].result,
{
    touching_keeps(m, keys, tick, keys.len() as int);
    let t = touched(m, keys, tick, keys.len() as int);
    assert(t.dom().contains(k) == m.dom().contains(k));
}

/// Every block that a window touches is looked up.
pub proof fn every_block_is_looked_up(
    ix0: i32,
    ix1: i32,
    iy0: i32,
    iy1: i32,
    time: Option<TimeInterval>,
    ix: i32,
    iy: i32,
)
    requires
        ix0 <= ix <= ix1,
        iy0 <= iy <= iy1,
    ensures
        blocks(ix0, ix1, iy0, iy1, time).contains(SearchKey { ix, iy, time }),
{
    let w = ix1 - ix0 + 1;
    let h = iy1 - iy0 + 1;
    let c = ix - ix0;
    let q = iy - iy0;
    let p = q * w + c;
    assert(0 <= p < w * h) by (nonlinear_arith)
        requires
            0 <= c < w,
            0 <= q < h,
            p == q * w + c,
    ;
    vstd::arithmetic::div_mod::lemma_fundamental_div_mod_converse(p, w, q, c);
    assert(blocks(ix0, ix1, iy0, iy1, time)[p] == (SearchKey { ix, iy, time }));
}

// The items of a pull.

/// What selecting an item asks of it.
#[derive(Debug)]
pub struct ItemCard {
    pub href: String,
    pub datetime: String,
    /// The footprint on the anchor's reference system.
    pub bbox: Bbox,
}

/// The first item under its address whose footprint meets a window.
pub open spec fn is_chosen(cards: Seq<ItemCard>, wanted: Bbox, i: int) -> bool {
    &&& cards[i].bbox.meets(wanted)
    &&& forall|j: int|
        0 <= j < i && (#[trigger] cards[j]).bbox.meets(wanted) ==> cards[j].href@ != cards[i].href@
}

/// The dates of a list of items.
pub open spec fn dates_of(cards: Seq<ItemCard>) -> Seq<Seq<char>> {
    Seq::new(cards.len(), |i: int| cards[i].datetime@)
}

/// The items of a pull, by their places: those whose footprint meets the
/// window, one per address, newest first.
pub fn select_items(cards: &Vec<ItemCard>, wanted: &Bbox) -> (r: Vec<usize>)
    ensures
        forall|k: usize| #[trigger]
            r@.contains(k) == (k < cards@.len() && is_chosen(cards@, *wanted, k as int)),
        newest_ordered(dates_of(cards@), r@),
{
    let n: usize = cards.len();
    let mut dates: Vec<String> = Vec::new();
    for i in 0..n
        invariant
            n == cards@.len(),
            dates@.len() == i,
            forall|k: int| 0 <= k < i ==> (#[trigger] dates@[k])@ == cards@[k].datetime@,
    {
        dates.push(String::from_str(cards[i].datetime.as_str()));
    }
    assert(stac::texts(dates@) =~= dates_of(cards@));
    let mut r: Vec<usize> = Vec::new();
    for i in 0..n
        invariant
            n == cards@.len(),
            n == dates@.len(),
            forall|k: int| 0 <= k < r@.len() ==> #[trigger] r@[k] < i,
            forall|k: usize| #[trigger]
                r@.contains(k) == (k < i && is_chosen(cards@, *wanted, k as int)),
            newest_ordered(stac::texts(dates@), r@),
    {
        if cards[i].bbox.intersects(wanted) {
            let mut fresh: bool = true;
            let mut j: usize = 0;
            while j < i && fresh
                invariant
                    i < n,
                    j <= i,
                    n == cards@.len(),
                    fresh ==> forall|k: int|
                        0 <= k < j && (#[trigger] cards@[k]).bbox.meets(*wanted)
                            ==> cards@[k].href@ != cards@[i as int].href@,
                    !fresh ==> !is_chosen(cards@, *wanted, i as int),
                decreases i - j,
            {
                if cards[j].bbox.intersects(wanted) && text::same_text(
                    cards[j].href.as_str(),
                    cards[i].href.as_str(),
                ) {
                    assert(cards@[j as int].bbox.meets(*wanted));
                    fresh = false;
                }
                j = j + 1;
            }
            if fresh {
                place_newest(&dates, &mut r, i);
            }
        }
    }
    r
}

/// The message on an asset whose bands are not the anchor's.
pub open spec fn odd_bands_text(href: Seq<char>, have: u16, want: u16) -> Seq<char> {
    "stac item asset "@ + href + " has "@ + text::decimal(have as nat)
        + " bands, the anchor item has "@ + text::decimal(want as nat)
}

/// Hold an asset's band count to the anchor's.
pub fn check_asset_bands(href: &str, have: u16, want: u16) -> (r: Result<(), Error>)
    ensures
        have == want ==> r is Ok,
        have != want ==> (r matches Err(Error::Source(m)) && m@ == odd_bands_text(
            href@,
            have,
            want,
        )),
{
    if have == want {
        return Ok(());
    }
    let mut m = text::joined("stac item asset ", href);
    m.append(" has ");
    m.append(text::decimal_text(have as u64).as_str());
    m.append(" bands, the anchor item has ");
    m.append(text::decimal_text(want as u64).as_str());
    Err(Error::Source(m))
}

/// The items that a pull chooses from: the anchor search's, unless the pull
/// names a time of its own, then those of its blocks.
pub open spec fn offered(
    anchors: Seq<ItemCard>,
    found: Seq<ItemCard>,
    time: Option<TimeInterval>,
) -> Seq<ItemCard> {
    if time is None {
        anchors + found
    } else {
        found
    }
}

/// The items of a pull, by their places among those offered.
pub fn pull_items(anchors: Vec<ItemCard>, found: Vec<ItemCard>, req: &WindowReq) -> (r: Vec<usize>)
    ensures
        ({
            let cards = offered(anchors@, found@, req.time);
            &&& forall|k: usize| #[trigger]
                r@.contains(k) == (k < cards.len() && is_chosen(cards, req.bbox, k as int))
            &&& newest_ordered(dates_of(cards), r@)
        }),
{
    let mut cards: Vec<ItemCard> = Vec::new();
    let mut first = anchors;
    let mut rest = found;
    if req.time.is_none() {
        cards.append(&mut first);
    }
    cards.append(&mut rest);
    assert(cards@ =~= offered(anchors@, found@, req.time));
    select_items(&cards, &req.bbox)
}

} // verus!
