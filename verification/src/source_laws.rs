//! What is read of catalogues and files.

use vstd::prelude::*;

use crate::cog;
use crate::cog::{FileWindow, Plane};
use crate::composite;
use crate::folding;
use crate::folding::{Folded, Running};
use crate::json;
use crate::json::JsonModel;
use crate::number::Real;
use crate::range_cache;
use crate::range_cache::{RangeModel, RangeName};
use crate::resample;
use crate::rfc3339;
use crate::search_cache::{CachedSearch, SearchKey};
use crate::stac;
use crate::stac::{Composite, FoundModel, StacSearch};
use crate::stac_items;
use crate::stac_items::ItemCard;
use crate::text;
use crate::window::{Bbox, TimeInterval};
use crate::zonal;

verus! {

// Catalogues.

proof fn a_stroke_is_found(a: Seq<char>, b: Seq<char>, from: int)
    requires
        0 <= from <= a.len(),
        forall|i: int| 0 <= i < a.len() ==> #[trigger] a[i] != '/',
    ensures
        rfc3339::place_of(a + seq!['/'] + b, '/', from) == a.len(),
    decreases a.len() - from,
{
    let s = a + seq!['/'] + b;
    if from < a.len() {
        assert(s[from] == a[from]);
        a_stroke_is_found(a, b, from + 1);
    } else {
        assert(s[a.len() as int] == '/');
    }
}

/// An object of a bucket is read from the bucket's own host, and any other
/// address is left as it is.
pub proof fn objects_are_read_from_their_bucket(
    bucket: Seq<char>,
    key: Seq<char>,
    other: Seq<char>,
)
    requires
        forall|i: int| 0 <= i < bucket.len() ==> #[trigger] bucket[i] != '/',
        other.len() < 5 || other.take(5) != "s3://"@,
    ensures
        stac::https_of("s3://"@ + bucket + seq!['/'] + key) == "https://"@ + bucket
            + ".s3.amazonaws.com/"@ + key,
        stac::https_of(other) == other,
{
    reveal_strlit("s3://");
    let href = "s3://"@ + bucket + seq!['/'] + key;
    let rest = href.skip(5);
    assert(href.take(5) =~= "s3://"@);
    assert(rest =~= bucket + seq!['/'] + key);
    a_stroke_is_found(bucket, key, 0);
    assert(rest.take(bucket.len() as int) =~= bucket);
    assert(rest.skip(bucket.len() as int + 1) =~= key);
}

/// A search names its collection, the least longitude and latitude before
/// the greatest, its limit, and the time where it has one.
pub proof fn a_search_names_its_corners_in_order(
    api: Seq<char>,
    collection: Seq<char>,
    west: Seq<char>,
    south: Seq<char>,
    east: Seq<char>,
    north: Seq<char>,
    limit: u32,
    time: Seq<char>,
)
    ensures
        ({
            let plain = api + "/search?collections="@ + collection + "&bbox="@ + west + ","@ + south
                + ","@ + east + ","@ + north + "&limit="@ + text::decimal(limit as nat);
            let corners = seq![west, south, east, north];
            &&& stac::query(api, collection, corners, limit, None) == plain
            &&& stac::query(api, collection, corners, limit, Some(time)) == plain + "&datetime="@
                + time
        }),
{
    let plain = api + "/search?collections="@ + collection + "&bbox="@ + west + ","@ + south + ","@
        + east + ","@ + north + "&limit="@ + text::decimal(limit as nat);
    let corners = seq![west, south, east, north];
    assert(stac::query(api, collection, corners, limit, None) =~= plain);
    assert(stac::query(api, collection, corners, limit, Some(time)) =~= plain + "&datetime="@
        + time);
}

/// The addresses of an item's assets stand in the order of the assets, each
/// as it is read; an item that lacks one of them is no item.
pub proof fn every_asset_has_its_address(f: JsonModel, assets: Seq<Seq<char>>, n: int, i: int)
    requires
        0 <= i < n <= assets.len(),
    ensures
        stac::href_of(f, assets[i]) is None ==> stac::hrefs_of(f, assets, n) is None,
        stac::hrefs_of(f, assets, n) matches Some(hs) ==> hs.len() == n && stac::href_of(
            f,
            assets[i],
        ) is Some && hs[i] == stac::https_of(stac::href_of(f, assets[i])->Some_0),
    decreases n,
{
    if i < n - 1 {
        every_asset_has_its_address(f, assets, n - 1, i);
    } else if n > 1 {
        every_asset_has_its_address(f, assets, n - 1, 0);
    }
}

/// A footprint is four numbers: the least longitude and latitude, then the
/// greatest. An item has one, every asset, and a date where it is given.
pub proof fn an_item_is_read_as_it_is_written(
    f: JsonModel,
    assets: Seq<Seq<char>>,
    a: json::JsonNumber,
    b: json::JsonNumber,
    c: json::JsonNumber,
    d: json::JsonNumber,
)
    requires
        f.member("bbox"@) == Some(
            JsonModel::List(
                seq![
                    JsonModel::Number(a),
                    JsonModel::Number(b),
                    JsonModel::Number(c),
                    JsonModel::Number(d),
                ],
            ),
        ),
        stac::hrefs_of(f, assets, assets.len() as int) is Some,
    ensures
        stac::found_in(f, assets) matches Some(m) && m.hrefs == stac::hrefs_of(
            f,
            assets,
            assets.len() as int,
        )->Some_0 && m.bbox.min_x == a.real && m.bbox.min_y == b.real && m.bbox.max_x == c.real
            && m.bbox.max_y == d.real && m.bands.len() == assets.len() && (json::text_of(
            json::member_of(f.member("properties"@), "datetime"@),
        ) matches Some(t) ==> m.datetime == t),
{
    let v = seq![
        JsonModel::Number(a),
        JsonModel::Number(b),
        JsonModel::Number(c),
        JsonModel::Number(d),
    ];
    assert(v[0] == JsonModel::Number(a) && v[1] == JsonModel::Number(b) && v[2]
        == JsonModel::Number(c) && v[3] == JsonModel::Number(d));
    reveal_with_fuel(stac::numbers_of, 5);
    assert(stac::numbers_of(v, 4) =~= seq![a.real, b.real, c.real, d.real]);
    assert(stac::footprint_of(f) == stac::numbers_of(v, 4));
}

/// The code of an item's reference system is its own where it names one, and
/// else that of the first asset that does.
pub proof fn an_item_has_its_own_code_first(
    f: JsonModel,
    assets: Seq<Seq<char>>,
    n: u64,
    i: int,
)
    ensures
        json::uint_of(json::member_of(f.member("properties"@), "proj:epsg"@)) == Some(n)
            ==> stac::epsg_of(f, assets) == n as u32,
        json::uint_of(json::member_of(f.member("properties"@), "proj:epsg"@)) is None && 0 <= i
            < assets.len() && json::uint_of(
            json::member_of(stac::asset_of(f, assets[i]), "proj:epsg"@),
        ) == Some(n) && (forall|j: int|
            0 <= j < i ==> json::uint_of(
                json::member_of(stac::asset_of(f, #[trigger] assets[j]), "proj:epsg"@),
            ) is None) ==> stac::epsg_of(f, assets) == n as u32,
{
    if 0 <= i < assets.len() && json::uint_of(
        json::member_of(stac::asset_of(f, assets[i]), "proj:epsg"@),
    ) == Some(n) && (forall|j: int|
        0 <= j < i ==> json::uint_of(
            json::member_of(stac::asset_of(f, #[trigger] assets[j]), "proj:epsg"@),
        ) is None) {
        first_code(f, assets, n, i, 0);
    }
}

proof fn first_code(f: JsonModel, assets: Seq<Seq<char>>, n: u64, i: int, from: int)
    requires
        0 <= from <= i < assets.len(),
        json::uint_of(json::member_of(stac::asset_of(f, assets[i]), "proj:epsg"@)) == Some(n),
        forall|j: int|
            0 <= j < i ==> json::uint_of(
                json::member_of(stac::asset_of(f, #[trigger] assets[j]), "proj:epsg"@),
            ) is None,
    ensures
        stac::asset_epsg(f, assets, from) == Some(n),
    decreases i - from,
{
    if from < i {
        assert(json::uint_of(
            json::member_of(stac::asset_of(f, assets[from]), "proj:epsg"@),
        ) is None);
        first_code(f, assets, n, i, from + 1);
    }
}

/// How many of the first `n` features of a page are items.
pub open spec fn items_among(fs: Seq<JsonModel>, assets: Seq<Seq<char>>, n: int) -> nat
    decreases n,
{
    if n <= 0 {
        0
    } else {
        items_among(fs, assets, n - 1) + (if stac::found_in(fs[n - 1], assets) is Some {
            1nat
        } else {
            0
        })
    }
}

/// Every feature of a page that is an item is gathered, in the order of the
/// page.
pub proof fn every_item_of_a_page_is_gathered(
    fs: Seq<JsonModel>,
    assets: Seq<Seq<char>>,
    n: int,
    i: int,
)
    requires
        0 <= i < n <= fs.len(),
        stac::found_in(fs[i], assets) is Some,
    ensures
        ({
            let all = stac::items_of(fs, assets, n);
            let at = items_among(fs, assets, i) as int;
            &&& all.len() == items_among(fs, assets, n)
            &&& 0 <= at < all.len()
            &&& Some(all[at]) == stac::found_in(fs[i], assets)
        }),
    decreases n,
{
    items_length(fs, assets, n);
    items_length(fs, assets, n - 1);
    if i < n - 1 {
        every_item_of_a_page_is_gathered(fs, assets, n - 1, i);
    }
}

proof fn items_length(fs: Seq<JsonModel>, assets: Seq<Seq<char>>, n: int)
    ensures
        stac::items_of(fs, assets, n).len() == items_among(fs, assets, n),
    decreases n,
{
    if n > 0 {
        items_length(fs, assets, n - 1);
    }
}

/// The next page is where the first link that leads to it points.
pub proof fn the_next_page_is_linked(links: Seq<JsonModel>, i: int, from: int)
    requires
        0 <= from <= i <= links.len(),
        i < links.len() ==> json::text_of(links[i].member("rel"@)) == Some("next"@),
        forall|j: int|
            from <= j < i ==> json::text_of((#[trigger] links[j]).member("rel"@)) != Some("next"@),
    ensures
        stac::next_link(links, from) == (if i < links.len() {
            json::text_of(links[i].member("href"@))
        } else {
            None
        }),
    decreases i - from,
{
    if from < i {
        assert(json::text_of(links[from].member("rel"@)) != Some("next"@));
        the_next_page_is_linked(links, i, from + 1);
    }
}

// Items of a pull.

proof fn same_up_to(p: Seq<char>, a: Seq<char>, b: Seq<char>, i: int)
    requires
        0 <= i <= p.len(),
    ensures
        text::before_from(p + a, p + b, i) == text::before_from(p + a, p + b, p.len() as int),
    decreases p.len() - i,
{
    if i < p.len() {
        same_up_to(p, a, b, i + 1);
        assert((p + a)[i] == (p + b)[i]);
    }
}

/// Texts are ordered by the first character in which they differ, and one
/// that another goes on from stands before it; so dates are ordered by year,
/// month, day and time.
pub proof fn texts_go_by_their_first_difference(
    p: Seq<char>,
    x: char,
    a: Seq<char>,
    y: char,
    b: Seq<char>,
)
    ensures
        text::text_before(p + (seq![x] + a), p + (seq![y] + b)) == (x < y || (x == y
            && text::before_from(p + (seq![x] + a), p + (seq![y] + b), p.len() as int + 1))),
        text::text_before(p, p + (seq![y] + b)),
        !text::text_before(p + (seq![x] + a), p),
{
    same_up_to(p, seq![x] + a, seq![y] + b, 0);
    let s = p + (seq![x] + a);
    let t = p + (seq![y] + b);
    assert(s[p.len() as int] == x);
    assert(t[p.len() as int] == y);
    let none = Seq::<char>::empty();
    assert(p + none =~= p);
    same_up_to(p, none, seq![y] + b, 0);
    same_up_to(p, seq![x] + a, none, 0);
}

/// Items go newest first: none stands behind one with an earlier date, and
/// of the same date the one that was found first stands first.
pub proof fn the_newest_items_come_first(
    dates: Seq<Seq<char>>,
    order: Seq<usize>,
    i: int,
    j: int,
)
    requires
        stac_items::newest_ordered(dates, order),
        0 <= i < j < order.len(),
    ensures
        !text::text_before(dates[order[i] as int], dates[order[j] as int]),
        dates[order[i] as int] == dates[order[j] as int] ==> order[i] < order[j],
{
    assert(stac_items::goes_first(dates, order[i], order[j]));
    text::texts_are_ordered(
        dates[order[i] as int],
        dates[order[j] as int],
        dates[order[i] as int],
    );
}

/// An item is kept where it names a reference system, declares the anchor's
/// band count for every asset that it declares one for, and is the first
/// such item of its address; those that are kept keep their order.
pub proof fn items_that_fit_the_anchor_are_kept(
    fs: Seq<FoundModel>,
    anchor: Seq<u16>,
    n: int,
    i: usize,
)
    requires
        0 <= n <= fs.len() <= usize::MAX,
    ensures
        stac_items::kept(fs, anchor, n).contains(i) == (i < n && fits(fs[i as int], anchor)
            && forall|j: int|
            0 <= j < i && fits(#[trigger] fs[j], anchor) ==> fs[j].hrefs[0]
                != fs[i as int].hrefs[0]),
        forall|a: int, b: int|
            0 <= a < b < stac_items::kept(fs, anchor, n).len() ==> (#[trigger] stac_items::kept(
                fs,
                anchor,
                n,
            )[a]) < (#[trigger] stac_items::kept(fs, anchor, n)[b]),
        forall|a: int|
            0 <= a < stac_items::kept(fs, anchor, n).len() ==> (#[trigger] stac_items::kept(
                fs,
                anchor,
                n,
            )[a]) < n,
    decreases n,
{
    if n > 0 {
        items_that_fit_the_anchor_are_kept(fs, anchor, n - 1, i);
        let before = stac_items::kept(fs, anchor, n - 1);
        let all = stac_items::kept(fs, anchor, n);
        assert forall|k: int| 0 <= k < fs.len() implies stac_items::serves(
            #[trigger] fs[k],
            anchor,
        ) == fits(fs[k], anchor) by {
            fitting_is_serving(fs[k], anchor);
        }
        if stac_items::is_kept(fs, anchor, n - 1) {
            assert(all == before.push((n - 1) as usize));
            if before.contains(i) {
                let k = before.index_of(i);
                assert(before[k] == i);
                assert(all[k] == i);
            }
            if all.contains(i) && i != n - 1 {
                let k = all.index_of(i);
                assert(all[k] == i);
                assert(before[k] == i);
            }
            assert(all[before.len() as int] == (n - 1) as usize);
        }
    }
}

/// An item names a reference system and declares the anchor's band counts.
pub open spec fn fits(f: FoundModel, anchor: Seq<u16>) -> bool {
    f.epsg != 0 && forall|k: int|
        0 <= k < f.bands.len() && k < anchor.len() ==> ((#[trigger] f.bands[k]) matches Some(b)
            ==> b == anchor[k])
}

proof fn fitting_is_serving(f: FoundModel, anchor: Seq<u16>)
    ensures
        stac_items::serves(f, anchor) == fits(f, anchor),
{
    if fits(f, anchor) {
        assert forall|k: int|
            0 <= k < f.bands.len() && k < anchor.len() && #[trigger] f.bands[k] is Some implies
            f.bands[k] == Some(anchor[k]) by {}
    }
}

/// A pull at the source's own time chooses from the anchor search's items
/// and those found, one at another time from those found alone; it takes the
/// first of each address whose footprint overlaps the window.
pub proof fn a_pull_takes_what_overlaps(
    anchors: Seq<ItemCard>,
    found: Seq<ItemCard>,
    t: TimeInterval,
    wanted: Bbox,
    i: int,
)
    ensures
        stac_items::offered(anchors, found, None) == anchors + found,
        stac_items::offered(anchors, found, Some(t)) == found,
        0 <= i < found.len() ==> stac_items::is_chosen(found, wanted, i) == (
        found[i].bbox.min_x.below(wanted.max_x) && wanted.min_x.below(found[i].bbox.max_x)
            && found[i].bbox.min_y.below(wanted.max_y) && wanted.min_y.below(found[i].bbox.max_y)
            && forall|j: int|
            0 <= j < i && (#[trigger] found[j]).bbox.meets(wanted) ==> found[j].href@
                != found[i].href@),
{
}

/// A block that a search is kept for is looked up there, and any other is
/// searched: each stands in one of the two lists.
pub proof fn a_block_is_known_or_missing<R>(
    m: Map<SearchKey, CachedSearch<R>>,
    keys: Seq<SearchKey>,
    n: int,
    i: int,
)
    requires
        0 <= i < n <= keys.len(),
    ensures
        m.contains_key(keys[i]) ==> stac_items::looked_up(m, keys, true, n).contains(keys[i]),
        !m.contains_key(keys[i]) ==> stac_items::looked_up(m, keys, false, n).contains(keys[i]),
        forall|k: SearchKey| #[trigger]
            stac_items::looked_up(m, keys, true, n).contains(k) ==> m.contains_key(k),
        forall|k: SearchKey| #[trigger]
            stac_items::looked_up(m, keys, false, n).contains(k) ==> !m.contains_key(k),
    decreases n,
{
    listed_by_kind(m, keys, true, n);
    listed_by_kind(m, keys, false, n);
    listed(m, keys, n, i);
}

proof fn listed<R>(m: Map<SearchKey, CachedSearch<R>>, keys: Seq<SearchKey>, n: int, i: int)
    requires
        0 <= i < n <= keys.len(),
    ensures
        stac_items::looked_up(m, keys, m.contains_key(keys[i]), n).contains(keys[i]),
    decreases n,
{
    let kept = m.contains_key(keys[i]);
    let before = stac_items::looked_up(m, keys, kept, n - 1);
    let all = stac_items::looked_up(m, keys, kept, n);
    if i < n - 1 {
        listed(m, keys, n - 1, i);
        let k = before.index_of(keys[i]);
        assert(all[k] == before[k]);
        assert(all[k] == keys[i]);
    } else {
        assert(all[before.len() as int] == keys[i]);
    }
}

proof fn listed_by_kind<R>(
    m: Map<SearchKey, CachedSearch<R>>,
    keys: Seq<SearchKey>,
    kept: bool,
    n: int,
)
    ensures
        forall|k: SearchKey| #[trigger]
            stac_items::looked_up(m, keys, kept, n).contains(k) ==> m.contains_key(k) == kept,
    decreases n,
{
    if n > 0 {
        listed_by_kind(m, keys, kept, n - 1);
        let before = stac_items::looked_up(m, keys, kept, n - 1);
        let all = stac_items::looked_up(m, keys, kept, n);
        assert forall|k: SearchKey| #[trigger] all.contains(k) implies m.contains_key(k) == kept by {
            let j = all.index_of(k);
            assert(all[j] == k);
            if j < before.len() {
                assert(before[j] == k);
                assert(before.contains(k));
            }
        }
    }
}

/// The bands of a pull are those of all assets together.
pub proof fn bands_add_up(bands: Seq<u16>, more: u16)
    ensures
        stac_items::band_sum(Seq::empty()) == 0,
        stac_items::band_sum(bands.push(more)) == stac_items::band_sum(bands) + more,
{
    assert(bands.push(more).drop_last() =~= bands);
}

// Folds.

/// A fold over values has the count, the sum and the extremes that their
/// reduction has.
pub proof fn a_fold_reduces_every_value<
    P: Fn(Real, Real) -> Real,
    S: Fn(usize, (Real, Real), Real) -> (Real, Real),
>(vals: Seq<Real>, plus: P, step: S, n: int)
    requires
        0 <= n <= vals.len() <= usize::MAX,
    ensures
        folding::folded(folding::nothing(), vals.take(n), plus, step).statistics
            == zonal::band_statistics(vals, Seq::new(vals.len(), |i: int| false), plus, n),
    decreases n,
{
    if n > 0 {
        a_fold_reduces_every_value(vals, plus, step, n - 1);
        assert(vals.take(n).drop_last() =~= vals.take(n - 1));
        assert(vals.take(n).last() == vals[n - 1]);
    }
}

/// A fold takes its next value in with the count that this value makes.
pub proof fn a_fold_steps_value_by_value<
    P: Fn(Real, Real) -> Real,
    S: Fn(usize, (Real, Real), Real) -> (Real, Real),
>(vals: Seq<Real>, v: Real, plus: P, step: S, spread: (Real, Real))
    requires
        folding::is_stepping(step),
        vals.len() < usize::MAX,
        forall|i: int| 0 <= i < vals.len() ==> (#[trigger] vals[i]).finite(),
        step.ensures(
            (
                (vals.len() + 1) as usize,
                folding::folded(folding::nothing(), vals, plus, step).spread,
                v,
            ),
            spread,
        ),
    ensures
        folding::folded(folding::nothing(), vals.push(v), plus, step).spread == spread,
{
    folding::a_fold_is_the_stack(vals, plus, step);
    let before = folding::folded(folding::nothing(), vals, plus, step);
    assert(vals.push(v).drop_last() =~= vals);
    let n = (vals.len() + 1) as usize;
    let r = folding::stepped(step, n, before.spread, v);
    assert(step.ensures((n, before.spread, v), r));
}

/// What a fold comes to: its mean from the sum and the count, its spread
/// from the squares and the count, its extremes and its count.
pub proof fn a_fold_comes_to_its_statistics(r: Running)
    requires
        r.statistics.count > 0,
    ensures
        folding::outcome(r, Composite::Mean) == Some(
            Folded::Mean(r.statistics.sum, r.statistics.count),
        ),
        folding::outcome(r, Composite::StdDev) == Some(
            Folded::StdDev(r.spread.1, r.statistics.count),
        ),
        folding::outcome(r, Composite::Min) == Some(Folded::Value(r.statistics.minimum)),
        folding::outcome(r, Composite::Max) == Some(Folded::Value(r.statistics.maximum)),
        folding::outcome(r, Composite::Count) == Some(Folded::Count(r.statistics.count)),
{
}

// Files.

/// After a failure there is a wait, and after each further one it is four
/// times as long.
pub proof fn waits_grow_fourfold(attempts: nat)
    requires
        attempts >= 1,
    ensures
        cog::backoff(1) == 200,
        cog::backoff(attempts + 1) == 4 * cog::backoff(attempts),
{
}

/// A window over the edge of a file holds the file's cells where the file
/// has them, as many columns and rows in as the file starts, and no number
/// elsewhere.
pub proof fn a_block_stands_where_the_file_starts(
    cols: int,
    skip_cols: int,
    skip_rows: int,
    width: int,
    height: int,
    data: Seq<Real>,
    r: int,
    c: int,
)
    requires
        0 <= r,
        0 <= c < cols,
    ensures
        ({
            let v = cog::padded_cell(
                cols,
                skip_cols,
                skip_rows,
                width,
                height,
                data,
                r * cols + c,
            );
            if skip_rows <= r < skip_rows + height && skip_cols <= c < skip_cols + width {
                v == data[(r - skip_rows) * width + (c - skip_cols)]
            } else {
                v.nan()
            }
        }),
{
    vstd::arithmetic::div_mod::lemma_fundamental_div_mod_converse(r * cols + c, cols, r, c);
}

/// The values of a coarser cell of a file are those of its block: the finite
/// ones among `factor` rows of `factor` cells, row by row.
pub proof fn a_coarse_cell_is_its_block(
    fine: Seq<Real>,
    cols: int,
    rows: int,
    factor: int,
    row: int,
    col: int,
)
    requires
        0 < factor,
        0 <= row < rows,
        0 <= col < cols,
        fine.len() == (cols * factor) * (rows * factor),
    ensures
        cog::block_values(fine, cols, factor, row, col, factor * factor)
            == resample::block_values(
            fine,
            Seq::new(fine.len(), |i: int| false),
            cols * factor,
            rows * factor,
            (row * factor, row * factor + factor),
            (col * factor, col * factor + factor),
        ),
{
    block_prefix(fine, cols, rows, factor, row, col, factor, 0);
    let nodata = Seq::new(fine.len(), |i: int| false);
    let w = cols * factor;
    let h = rows * factor;
    let whole = resample::block_values(
        fine,
        nodata,
        w,
        h,
        (row * factor, row * factor + factor),
        (col * factor, col * factor + factor),
    );
    assert(whole + resample::row_values(
        fine,
        nodata,
        w,
        h,
        row * factor + factor,
        col * factor,
        col * factor,
    ) =~= whole);
}

proof fn block_prefix(
    fine: Seq<Real>,
    cols: int,
    rows: int,
    factor: int,
    row: int,
    col: int,
    a: int,
    b: int,
)
    requires
        0 < factor,
        0 <= row < rows,
        0 <= col < cols,
        fine.len() == (cols * factor) * (rows * factor),
        0 <= a <= factor,
        0 <= b <= factor,
        a == factor ==> b == 0,
    ensures
        ({
            let nodata = Seq::new(fine.len(), |i: int| false);
            let w = cols * factor;
            let h = rows * factor;
            let r0 = row * factor;
            let c0 = col * factor;
            cog::block_values(fine, cols, factor, row, col, a * factor + b)
                == resample::block_values(fine, nodata, w, h, (r0, r0 + a), (c0, c0 + factor))
                + resample::row_values(fine, nodata, w, h, r0 + a, c0, c0 + b)
        }),
    decreases a, b,
{
    let nodata = Seq::new(fine.len(), |i: int| false);
    let w = cols * factor;
    let h = rows * factor;
    let r0 = row * factor;
    let c0 = col * factor;
    let upper = resample::block_values(fine, nodata, w, h, (r0, r0 + a), (c0, c0 + factor));
    if b > 0 {
        block_prefix(fine, cols, rows, factor, row, col, a, b - 1);
        let n = a * factor + b;
        vstd::arithmetic::div_mod::lemma_fundamental_div_mod_converse(n - 1, factor, a, b - 1);
        let r = r0 + a;
        let c = c0 + b - 1;
        assert(0 <= r < h) by (nonlinear_arith)
            requires
                r == row * factor + a,
                h == rows * factor,
                0 <= row < rows,
                0 <= a < factor,
        ;
        assert(0 <= c < w) by (nonlinear_arith)
            requires
                c == col * factor + b - 1,
                w == cols * factor,
                0 <= col < cols,
                0 < b <= factor,
        ;
        assert(0 <= r * w + c < w * h) by (nonlinear_arith)
            requires
                0 <= r < h,
                0 <= c < w,
        ;
        assert(n > 0) by (nonlinear_arith)
            requires
                n == a * factor + b,
                a >= 0,
                factor > 0,
                b > 0,
        ;
        let before = resample::row_values(fine, nodata, w, h, r, c0, c0 + b - 1);
        let now = resample::row_values(fine, nodata, w, h, r, c0, c0 + b);
        assert(resample::cell_value(fine, nodata, w, h, r, c) == (if fine[r * w + c].finite() {
            Some(fine[r * w + c])
        } else {
            None
        }));
        assert(upper + now =~= (if fine[r * w + c].finite() {
            (upper + before).push(fine[r * w + c])
        } else {
            upper + before
        }));
    } else if a > 0 {
        block_prefix(fine, cols, rows, factor, row, col, a - 1, factor);
        assert((a - 1) * factor + factor == a * factor) by (nonlinear_arith);
        assert(upper + resample::row_values(fine, nodata, w, h, r0 + a, c0, c0) =~= upper);
    } else {
        assert(0 * factor == 0);
        assert(upper =~= Seq::empty());
        assert(upper + resample::row_values(fine, nodata, w, h, r0, c0, c0) =~= Seq::empty());
    }
}

proof fn looking_keeps_ready_bytes(
    m: Map<RangeName, RangeModel>,
    url: Seq<char>,
    ranges: Seq<(u64, u64)>,
    tick: nat,
    n: int,
    k: RangeName,
)
    requires
        0 <= n <= ranges.len(),
        range_cache::is_ready(m, k),
    ensures
        ({
            let then = cog::looked_at(m, url, ranges, tick, n);
            range_cache::is_ready(then, k) && then[k]->bytes == m[k]->bytes
        }),
    decreases n,
{
    if n > 0 {
        looking_keeps_ready_bytes(m, url, ranges, tick, n - 1, k);
    }
}

/// A range that is here is handed out at its own place, with its own bytes.
pub proof fn a_range_that_is_here_is_handed_out(
    m: Map<RangeName, RangeModel>,
    url: Seq<char>,
    ranges: Seq<(u64, u64)>,
    tick: nat,
    i: int,
)
    requires
        0 <= i < ranges.len(),
        range_cache::is_ready(
            m,
            RangeName { url, offset: ranges[i].0, len: ranges[i].1 },
        ),
    ensures
        cog::bytes_at(m, url, ranges, tick, i) == Some(
            m[RangeName { url, offset: ranges[i].0, len: ranges[i].1 }]->bytes,
        ),
{
    looking_keeps_ready_bytes(
        m,
        url,
        ranges,
        tick,
        i,
        RangeName { url, offset: ranges[i].0, len: ranges[i].1 },
    );
}

// Windows over files.

/// A window that starts before a file is read from the file's edge on: a
/// column that both have is found where the window says, as far in as the
/// window starts before the edge, and nothing before the edge is read.
pub proof fn a_window_starts_at_the_edge(start: i64, c: int)
    requires
        0 <= c,
    ensures
        start + cog::before_edge(start) >= 0,
        cog::before_edge(start) >= 0,
        start + c < 0 <==> c < cog::before_edge(start),
        start >= 0 ==> cog::before_edge(start) == 0,
        start < 0 ==> start + cog::before_edge(start) == 0,
{
}

/// Every band over a window is that of its own plane: a cell that the
/// plane has stands where the window shows it, and there is no number where
/// the plane has none, nor anywhere without a plane or a window.
pub proof fn a_band_is_that_of_its_plane(
    w: Option<FileWindow>,
    planes: Seq<Plane>,
    cols: int,
    rows: int,
    b: int,
    r: int,
    c: int,
)
    requires
        0 <= r < rows,
        0 <= c < cols,
        0 <= b,
    ensures
        ({
            let cells = cog::fine_cells(w, planes, cols, rows, b);
            &&& cells.len() == cols * rows
            &&& 0 <= r * cols + c < cells.len()
            &&& match w {
                Some(f) => if b < planes.len() && f.skip_rows <= r < f.skip_rows + planes[b].height
                    && f.skip_cols <= c < f.skip_cols + planes[b].width {
                    cells[r * cols + c] == planes[b].data@[(r - f.skip_rows) * planes[b].width + (c
                        - f.skip_cols)]
                } else {
                    cells[r * cols + c].nan()
                },
                None => cells[r * cols + c].nan(),
            }
        }),
{
    assert(0 <= r * cols + c < cols * rows) by (nonlinear_arith)
        requires
            0 <= r < rows,
            0 <= c < cols,
    ;
    if w is Some && b < planes.len() {
        a_block_stands_where_the_file_starts(
            cols,
            w->0.skip_cols as int,
            w->0.skip_rows as int,
            planes[b].width as int,
            planes[b].height as int,
            planes[b].data@,
            r,
            c,
        );
    }
}

// Searches over time.

/// A pull over an interval searches over that interval, whatever the source
/// says; a pull without one searches over what the source says.
pub proof fn a_search_is_over_the_time_of_its_pull(search: StacSearch, t: TimeInterval)
    requires
        t.start_ms <= t.end_ms,
        0 <= rfc3339::date_of(t.start_ms as int / 86_400_000).0 <= 9999,
        0 <= rfc3339::date_of(t.end_ms as int / 86_400_000).0 <= 9999,
    ensures
        match stac::sent_datetime(search, Some(t)) {
            Some(sent) => rfc3339::interval(sent) == Some((t.start_ms as int, t.end_ms as int)),
            None => false,
        },
        match (stac::sent_datetime(search, None), search.datetime) {
            (Some(sent), Some(d)) => sent == d@,
            (None, None) => true,
            _ => false,
        },
{
    rfc3339::intervals_read_back(t.start_ms as int, t.end_ms as int);
}

} // verus!
