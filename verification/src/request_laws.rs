//! Which tiles and windows are meant.

use vstd::prelude::*;

use vstd::arithmetic::power2::pow2;

use crate::number::Real;
use crate::request;
use crate::request::{TileFormat, XyzTile};
use crate::rfc3339;
use crate::text;
use crate::window;
use crate::window::{Bbox, ChunkKey};

verus! {

// Tiles of a map.

/// A zoom has twice as many tiles along a side as the one before it.
pub proof fn a_side_is_a_power_of_two(z: nat)
    ensures
        request::side(z) == pow2(z),
    decreases z,
{
    if z > 0 {
        a_side_is_a_power_of_two((z - 1) as nat);
        vstd::arithmetic::power2::lemma_pow2_unfold(z);
    } else {
        vstd::arithmetic::power2::lemma2_to64();
    }
}

proof fn digits_end_in_no_name(y: nat)
    ensures
        text::all_digits(text::decimal(y)),
        !request::ends_with(text::decimal(y), ".png"@),
        !request::ends_with(text::decimal(y), ".tif"@),
        request::without_png(text::decimal(y)) == text::decimal(y),
        request::index_of(text::decimal(y)) == (if y <= u32::MAX {
            Some(y as int)
        } else {
            None
        }),
{
    let d = text::decimal(y);
    text::decimal_reads_back(y);
    reveal_strlit(".png");
    reveal_strlit(".tif");
    assert(text::is_digit(d[0]));
    if d.len() >= 4 {
        let tail = d.skip(d.len() - 4);
        assert(tail[0] == d[d.len() - 4]);
        assert(text::is_digit(d[d.len() - 4]));
    }
}

/// A path names a tile by its zoom, its column and its row: the row is a
/// number with `.tif` behind it for a GeoTIFF, and with `.png` or nothing
/// for an image. It is answered where the zoom has such a tile and is not
/// past the cap, and else refused.
pub proof fn a_path_names_its_tile(z: u8, x: u32, y: u32)
    ensures
        ({
            let row = text::decimal(y as nat);
            let there = z <= 24 && x < pow2(z as nat) && y < pow2(z as nat);
            let tile = XyzTile { z, x, y };
            &&& there ==> request::tile_asked(z, x, row) == Ok::<(XyzTile, TileFormat), Seq<char>>(
                (tile, TileFormat::Png),
            )
            &&& there ==> request::tile_asked(z, x, row + ".png"@) == Ok::<
                (XyzTile, TileFormat),
                Seq<char>,
            >((tile, TileFormat::Png))
            &&& there ==> request::tile_asked(z, x, row + ".tif"@) == Ok::<
                (XyzTile, TileFormat),
                Seq<char>,
            >((tile, TileFormat::GeoTiff))
            &&& !there ==> request::tile_asked(z, x, row) is Err && request::tile_asked(
                z,
                x,
                row + ".png"@,
            ) is Err && request::tile_asked(z, x, row + ".tif"@) is Err
        }),
{
    let row = text::decimal(y as nat);
    digits_end_in_no_name(y as nat);
    a_side_is_a_power_of_two(z as nat);
    reveal_strlit(".png");
    reveal_strlit(".tif");
    let png = row + ".png"@;
    let tif = row + ".tif"@;
    assert(png.skip(png.len() - 4) =~= ".png"@);
    assert(tif.skip(tif.len() - 4) =~= ".tif"@);
    assert(".png"@[1] == 'p');
    assert(".tif"@[1] == 't');
    assert(".png"@ != ".tif"@);
    assert(png.take(png.len() - 4) =~= row);
    assert(tif.take(tif.len() - 4) =~= row);
    assert(request::without_png(png) == request::without_png(row));
}

// Windows.

/// Two boxes meet where each begins before the other ends, both ways; boxes
/// that only touch do not.
pub proof fn boxes_meet_where_they_overlap(a: Bbox, b: Bbox)
    requires
        !a.min_x.nan() && !a.min_y.nan() && !a.max_x.nan() && !a.max_y.nan(),
        !b.min_x.nan() && !b.min_y.nan() && !b.max_x.nan() && !b.max_y.nan(),
    ensures
        a.meets(b) == (a.min_x.place() < b.max_x.place() && b.min_x.place() < a.max_x.place()
            && a.min_y.place() < b.max_y.place() && b.min_y.place() < a.max_y.place()),
        a.max_x.place() == b.min_x.place() ==> !a.meets(b),
        a.max_y.place() == b.min_y.place() ==> !a.meets(b),
{
}

/// The box around two boxes reaches as far as either and no farther.
pub proof fn a_box_around_both_reaches_as_far(a: Bbox, b: Bbox)
    requires
        !a.min_x.nan() && !a.min_y.nan() && !a.max_x.nan() && !a.max_y.nan(),
        !b.min_x.nan() && !b.min_y.nan() && !b.max_x.nan() && !b.max_y.nan(),
    ensures
        ({
            let c = a.joined(b);
            &&& c.min_x.place() <= a.min_x.place() && c.min_x.place() <= b.min_x.place() && (c.min_x
                == a.min_x || c.min_x == b.min_x)
            &&& c.min_y.place() <= a.min_y.place() && c.min_y.place() <= b.min_y.place() && (c.min_y
                == a.min_y || c.min_y == b.min_y)
            &&& c.max_x.place() >= a.max_x.place() && c.max_x.place() >= b.max_x.place() && (c.max_x
                == a.max_x || c.max_x == b.max_x)
            &&& c.max_y.place() >= a.max_y.place() && c.max_y.place() >= b.max_y.place() && (c.max_y
                == a.max_y || c.max_y == b.max_y)
        }),
{
}

/// The tiles of a range of columns and rows are listed row by row: the tile
/// of each column and row stands behind all the rows before its own and the
/// columns before it.
pub proof fn every_tile_of_a_range_is_listed(
    level: u8,
    ix0: i64,
    ix1: i64,
    iy0: i64,
    iy1: i64,
    ix: i64,
    iy: i64,
)
    requires
        ix0 <= ix <= ix1,
        iy0 <= iy <= iy1,
    ensures
        ({
            let wide = ix1 - ix0 + 1;
            let high = iy1 - iy0 + 1;
            let at = (iy - iy0) * wide + (ix - ix0);
            &&& window::span(ix0, ix1) == wide
            &&& window::span(iy0, iy1) == high
            &&& 0 <= at < wide * high
            &&& window::tile_at(level, ix0, ix1, iy0, at) == (ChunkKey {
                level,
                ix,
                iy,
                time: None,
            })
        }),
{
    let wide = ix1 - ix0 + 1;
    let high = iy1 - iy0 + 1;
    let r = iy - iy0;
    let c = ix - ix0;
    let at = r * wide + c;
    assert(0 <= at < wide * high) by (nonlinear_arith)
        requires
            at == r * wide + c,
            0 <= r < high,
            0 <= c < wide,
    ;
    vstd::arithmetic::div_mod::lemma_fundamental_div_mod_converse(at, wide, r, c);
}

/// Keys are ordered by level first, then by column, by row and by time, and
/// a pull at the source's own time comes before any other.
pub proof fn keys_go_by_level_column_row_and_time(a: ChunkKey, b: ChunkKey)
    ensures
        a.level != b.level ==> a.before(b) == (a.level < b.level),
        a.level == b.level && a.ix != b.ix ==> a.before(b) == (a.ix < b.ix),
        a.level == b.level && a.ix == b.ix && a.iy != b.iy ==> a.before(b) == (a.iy < b.iy),
        a.level == b.level && a.ix == b.ix && a.iy == b.iy ==> a.before(b) == (match (
            a.time,
            b.time,
        ) {
            (None, Some(_)) => true,
            (Some(s), Some(t)) => s.start_ms < t.start_ms || (s.start_ms == t.start_ms && s.end_ms
                < t.end_ms),
            _ => false,
        }),
{
}

// Series.

proof fn steps_are_taken_in_turn(steps: Seq<String>, n: int)
    requires
        0 <= n <= steps.len(),
        forall|i: int| 0 <= i < n ==> rfc3339::interval((#[trigger] steps[i])@) is Some,
    ensures
        request::steps_asked(steps, n) == Ok::<Seq<(int, int)>, Seq<char>>(
            Seq::new(n as nat, |i: int| rfc3339::interval(steps[i]@)->0),
        ),
    decreases n,
{
    let all = Seq::new(n as nat, |i: int| rfc3339::interval(steps[i]@)->0);
    if n > 0 {
        steps_are_taken_in_turn(steps, n - 1);
        let before = Seq::new((n - 1) as nat, |i: int| rfc3339::interval(steps[i]@)->0);
        assert(rfc3339::interval(steps[n - 1]@) is Some);
        assert(before.push(rfc3339::interval(steps[n - 1]@)->0) =~= all);
    } else {
        assert(all =~= Seq::empty());
    }
}

/// A series of one to 64 steps that each name an interval is pulled over
/// those intervals, in their order.
pub proof fn a_series_is_its_steps(steps: Seq<String>, i: int)
    requires
        0 < steps.len() <= 64,
        forall|k: int| 0 <= k < steps.len() ==> rfc3339::interval((#[trigger] steps[k])@) is Some,
        0 <= i < steps.len(),
    ensures
        match request::series_asked(steps) {
            Ok(asked) => asked.len() == steps.len() && Some(asked[i]) == rfc3339::interval(
                steps[i]@,
            ),
            Err(_) => false,
        },
{
    steps_are_taken_in_turn(steps, steps.len() as int);
}

proof fn a_bad_step_spoils(steps: Seq<String>, i: int, n: int)
    requires
        0 <= i < n <= steps.len(),
        rfc3339::interval(steps[i]@) is None,
    ensures
        request::steps_asked(steps, n) is Err,
    decreases n,
{
    if i < n - 1 {
        a_bad_step_spoils(steps, i, n - 1);
    }
}

/// A series is refused where it has no step, more than 64, or one that names
/// no interval.
pub proof fn a_bad_series_is_refused(steps: Seq<String>, i: int)
    requires
        steps.len() == 0 || steps.len() > 64 || (0 <= i < steps.len() && rfc3339::interval(
            steps[i]@,
        ) is None),
    ensures
        request::series_asked(steps) is Err,
{
    if 0 < steps.len() <= 64 {
        a_bad_step_spoils(steps, i, steps.len() as int);
    }
}

} // verus!
