//! What a request asks for, and why one is refused.

use vstd::prelude::*;

use crate::error::Error;
use crate::json;
use crate::json::{Json, JsonModel};
use crate::rfc3339;
use crate::text;
use crate::window::TimeInterval;

verus! {

/// The deepest zoom that is served.
pub const MAX_ZOOM: u8 = 24;

/// The intervals that one series may ask for.
pub const MAX_STEPS: usize = 64;

/// The reductions that run at once.
pub const REDUCTION_SLOTS: usize = 4;

/// The seconds that a reduction has to finish.
pub const REDUCTION_SECONDS: u64 = 240;

// Time.

/// The interval that a parameter names, or why it names none.
pub open spec fn time_asked(t: Option<Seq<char>>) -> Result<Option<(int, int)>, Seq<char>> {
    match t {
        None => Ok(None),
        Some(s) => match rfc3339::interval(s) {
            Some(i) => Ok(Some(i)),
            None => Err("bad t parameter: "@ + rfc3339::interval_fault(s)),
        },
    }
}

/// What an answer of [`parse_time`] says.
pub open spec fn time_answered(r: Result<Option<TimeInterval>, String>) -> Result<
    Option<(int, int)>,
    Seq<char>,
> {
    match r {
        Ok(None) => Ok(None),
        Ok(Some(i)) => Ok(Some((i.start_ms as int, i.end_ms as int))),
        Err(e) => Err(e@),
    }
}

/// The `t` parameter: an interval, or the layer's own time where there is
/// none.
pub fn parse_time(t: Option<&str>) -> (r: Result<Option<TimeInterval>, String>)
    ensures
        time_answered(r) == time_asked(
            match t {
                Some(s) => Some(s@),
                None => None,
            },
        ),
{
    match t {
        None => Ok(None),
        Some(s) => match TimeInterval::parse(s) {
            Ok(i) => Ok(Some(i)),
            Err(e) => match e {
                Error::Source(detail) => Err(
                    text::joined("bad t parameter: ", detail.as_str()),
                ),
                _ => Err(String::from_str("bad t parameter")),
            },
        },
    }
}

/// The intervals of the first `n` steps, or why a step names none.
pub open spec fn steps_asked(steps: Seq<String>, n: int) -> Result<Seq<(int, int)>, Seq<char>>
    decreases n,
{
    if n <= 0 {
        Ok(Seq::empty())
    } else {
        match steps_asked(steps, n - 1) {
            Err(e) => Err(e),
            Ok(before) => match time_asked(Some(steps[n - 1]@)) {
                Ok(Some(i)) => Ok(before.push(i)),
                Ok(None) => Err("step "@ + text::decimal((n - 1) as nat) + " names no interval"@),
                Err(e) => Err("step "@ + text::decimal((n - 1) as nat) + ": "@ + e),
            },
        }
    }
}

/// The intervals that a series asks for, or why it is refused.
pub open spec fn series_asked(steps: Seq<String>) -> Result<Seq<(int, int)>, Seq<char>> {
    if steps.len() == 0 {
        Err("a series needs at least one step"@)
    } else if steps.len() > MAX_STEPS {
        Err(text::decimal(steps.len()) + " steps is past the 64 cap"@)
    } else {
        steps_asked(steps, steps.len() as int)
    }
}

pub open spec fn intervals(v: Seq<TimeInterval>) -> Seq<(int, int)> {
    Seq::new(v.len(), |i: int| (v[i].start_ms as int, v[i].end_ms as int))
}

pub open spec fn steps_answered(r: Result<Vec<TimeInterval>, String>) -> Result<
    Seq<(int, int)>,
    Seq<char>,
> {
    match r {
        Ok(v) => Ok(intervals(v@)),
        Err(e) => Err(e@),
    }
}

proof fn a_bad_step_stays(steps: Seq<String>, i: int, n: int)
    requires
        0 <= i <= n,
        steps_asked(steps, i) is Err,
    ensures
        steps_asked(steps, n) == steps_asked(steps, i),
    decreases n,
{
    if i < n {
        a_bad_step_stays(steps, i, n - 1);
    }
}

/// The steps of a series.
pub fn parse_steps(steps: &Vec<String>) -> (r: Result<Vec<TimeInterval>, String>)
    ensures
        steps_answered(r) == series_asked(steps@),
{
    let n: usize = steps.len();
    if n == 0 {
        return Err(String::from_str("a series needs at least one step"));
    }
    if n > MAX_STEPS {
        return Err(text::joined(text::decimal_text(n as u64).as_str(), " steps is past the 64 cap"));
    }
    let mut out: Vec<TimeInterval> = Vec::new();
    assert(intervals(out@) =~= Seq::empty());
    for i in 0..n
        invariant
            n == steps@.len(),
            0 < n <= MAX_STEPS,
            steps_asked(steps@, i as int) == Ok::<Seq<(int, int)>, Seq<char>>(intervals(out@)),
    {
        match parse_time(Some(steps[i].as_str())) {
            Ok(Some(interval)) => {
                let ghost before = intervals(out@);
                out.push(interval);
                assert(intervals(out@) =~= before.push(
                    (interval.start_ms as int, interval.end_ms as int),
                ));
            },
            Ok(None) => {
                let mut m = text::joined("step ", text::decimal_text(i as u64).as_str());
                m.append(" names no interval");
                proof {
                    a_bad_step_stays(steps@, i + 1, n as int);
                }
                return Err(m);
            },
            Err(e) => {
                let mut m = text::joined("step ", text::decimal_text(i as u64).as_str());
                m.append(": ");
                m.append(e.as_str());
                proof {
                    a_bad_step_stays(steps@, i + 1, n as int);
                }
                return Err(m);
            },
        }
    }
    Ok(out)
}

/// A series that is taken has an interval per step, none ending before it
/// starts.
pub proof fn steps_are_intervals(steps: Seq<String>, n: int)
    requires
        0 <= n,
        steps_asked(steps, n) is Ok,
    ensures
        steps_asked(steps, n)->Ok_0.len() == n,
        forall|k: int|
            0 <= k < n ==> (#[trigger] steps_asked(steps, n)->Ok_0[k]).0 <= steps_asked(
                steps,
                n,
            )->Ok_0[k].1,
    decreases n,
{
    if n > 0 {
        steps_are_intervals(steps, n - 1);
    }
}

/// A collection of features calls itself one, or nothing.
pub fn check_collection_type(kind: Option<&str>) -> (r: Result<(), String>)
    ensures
        match kind {
            None => r is Ok,
            Some(k) => if k@ == "FeatureCollection"@ {
                r is Ok
            } else {
                r matches Err(m) && m@ == k@ + " is not a FeatureCollection"@
            },
        },
{
    match kind {
        None => Ok(()),
        Some(k) => if text::same_text(k, "FeatureCollection") {
            Ok(())
        } else {
            Err(text::joined(k, " is not a FeatureCollection"))
        },
    }
}

// Tiles.

/// What a tile is answered with.
#[derive(Clone, Copy, Debug, PartialEq, Eq, Structural)]
pub enum TileFormat {
    Png,
    GeoTiff,
}

/// A tile of the web map.
#[derive(Clone, Copy, Debug, PartialEq, Eq, Structural)]
pub struct XyzTile {
    pub z: u8,
    pub x: u32,
    pub y: u32,
}

pub open spec fn ends_with(s: Seq<char>, t: Seq<char>) -> bool {
    s.len() >= t.len() && s.skip(s.len() - t.len()) == t
}

/// A text without the `.png` at its end, as often as it stands there.
pub open spec fn without_png(s: Seq<char>) -> Seq<char>
    decreases s.len(),
{
    if s.len() >= 4 && ends_with(s, ".png"@) {
        without_png(s.take(s.len() - 4))
    } else {
        s
    }
}

/// The number of a text: digits, a plus sign before them at most.
pub open spec fn index_of(s: Seq<char>) -> Option<int> {
    let d = if s.len() > 0 && s[0] == '+' {
        s.skip(1)
    } else {
        s
    };
    if text::all_digits(d) && text::number_of(d) <= u32::MAX {
        Some(text::number_of(d))
    } else {
        None
    }
}

/// The row of a tile and what it is answered with.
pub open spec fn row_asked(s: Seq<char>) -> (Option<int>, TileFormat) {
    if s.len() >= 4 && ends_with(s, ".tif"@) {
        (index_of(s.take(s.len() - 4)), TileFormat::GeoTiff)
    } else {
        (index_of(without_png(s)), TileFormat::Png)
    }
}

/// How many tiles a zoom has along a side.
pub open spec fn side(z: nat) -> nat
    decreases z,
{
    if z == 0 {
        1
    } else {
        2 * side((z - 1) as nat)
    }
}

/// The tile that a path asks for, or why it is refused.
pub open spec fn tile_asked(z: u8, x: u32, row: Seq<char>) -> Result<
    (XyzTile, TileFormat),
    Seq<char>,
> {
    let (y, format) = row_asked(row);
    match y {
        None => Err("tile y "@ + row + " is not a number"@),
        Some(y) => if z > MAX_ZOOM {
            Err("zoom "@ + text::decimal(z as nat) + " is past the 24 cap"@)
        } else if x >= side(z as nat) || y >= side(z as nat) {
            Err(
                "tile "@ + text::decimal(x as nat) + "/"@ + text::decimal(y as nat)
                    + " is outside zoom "@ + text::decimal(z as nat),
            )
        } else {
            Ok((XyzTile { z, x, y: y as u32 }, format))
        },
    }
}

pub open spec fn tile_answered(r: Result<(XyzTile, TileFormat), String>) -> Result<
    (XyzTile, TileFormat),
    Seq<char>,
> {
    match r {
        Ok(t) => Ok(t),
        Err(e) => Err(e@),
    }
}

fn has_end(s: &str, t: &str) -> (r: bool)
    ensures
        r == ends_with(s@, t@),
{
    let n: usize = s.unicode_len();
    let k: usize = t.unicode_len();
    if n < k {
        return false;
    }
    let tail = s.substring_char(n - k, n);
    assert(tail@ =~= s@.skip(s@.len() - t@.len()));
    text::same_text(tail, t)
}

fn strip_png(s: &str) -> (r: String)
    ensures
        r@ == without_png(s@),
    decreases s@.len(),
{
    proof {
        reveal_strlit(".png");
    }
    let n: usize = s.unicode_len();
    if n >= 4 && has_end(s, ".png") {
        let head = s.substring_char(0, n - 4);
        assert(head@ =~= s@.take(s@.len() - 4));
        strip_png(head)
    } else {
        String::from_str(s)
    }
}

fn read_index(s: &str) -> (r: Option<u32>)
    ensures
        match r {
            Some(i) => index_of(s@) == Some(i as int),
            None => index_of(s@) is None,
        },
{
    let cs = text::chars_of(s);
    let start: usize = if cs.len() > 0 && cs[0] == '+' {
        1
    } else {
        0
    };
    let ghost d = s@.skip(start as int);
    assert(start == 0 ==> d =~= s@);
    assert(index_of(s@) == (if text::all_digits(d) && text::number_of(d) <= u32::MAX {
        Some(text::number_of(d))
    } else {
        None
    }));
    if start >= cs.len() {
        assert(d.len() == 0);
        return None;
    }
    let mut n: u32 = 0;
    let mut fits: bool = true;
    assert(d.take(0) =~= Seq::empty());
    for i in start..cs.len()
        invariant
            cs@ == s@,
            start <= 1,
            d == s@.skip(start as int),
            !text::all_digits(d) ==> index_of(s@) is None,
            forall|k: int| 0 <= k < i - start ==> text::is_digit(#[trigger] d[k]),
            fits ==> n == text::number_of(d.take(i - start)),
            !fits ==> text::number_of(d.take(i - start)) > u32::MAX,
    {
        let c = cs[i];
        assert(d[i - start] == c);
        if !('0' <= c && c <= '9') {
            assert(!text::is_digit(d[i - start]));
            return None;
        }
        let v: u32 = c as u32 - '0' as u32;
        proof {
            assert(d.take(i + 1 - start).drop_last() =~= d.take(i - start));
            assert(d.take(i + 1 - start).last() == c);
        }
        if fits && n <= (u32::MAX - v) / 10 {
            n = n * 10 + v;
        } else {
            fits = false;
        }
    }
    assert(d.take(cs@.len() - start) =~= d);
    if fits {
        Some(n)
    } else {
        None
    }
}

fn tiles_along(z: u8) -> (r: u32)
    requires
        z <= MAX_ZOOM,
    ensures
        r == side(z as nat),
{
    let mut n: u32 = 1;
    let mut k: u8 = 0;
    proof {
        sides_grow(0, 24);
    }
    while k < z
        invariant
            k <= z <= MAX_ZOOM,
            n == side(k as nat),
            n <= side(24),
        decreases z - k,
    {
        proof {
            sides_grow((k + 1) as nat, 24);
            deepest_side();
        }
        n = n * 2;
        k = k + 1;
    }
    n
}

proof fn sides_grow(a: nat, b: nat)
    requires
        a <= b,
    ensures
        1 <= side(a) <= side(b),
    decreases b,
{
    if a < b {
        sides_grow(a, (b - 1) as nat);
    } else if a > 0 {
        sides_grow((a - 1) as nat, (a - 1) as nat);
    }
}

proof fn deepest_side()
    ensures
        side(24) == 16777216,
{
    reveal_with_fuel(side, 25);
}

/// The tile that a path asks for.
pub fn parse_tile(z: u8, x: u32, row: &str) -> (r: Result<(XyzTile, TileFormat), String>)
    ensures
        tile_answered(r) == tile_asked(z, x, row@),
{
    proof {
        reveal_strlit(".tif");
    }
    let n: usize = row.unicode_len();
    let (index, format): (Option<u32>, TileFormat) = if n >= 4 && has_end(row, ".tif") {
        let head = row.substring_char(0, n - 4);
        assert(head@ =~= row@.take(row@.len() - 4));
        (read_index(head), TileFormat::GeoTiff)
    } else {
        (read_index(strip_png(row).as_str()), TileFormat::Png)
    };
    let y: u32 = match index {
        Some(y) => y,
        None => {
            let mut m = text::joined("tile y ", row);
            m.append(" is not a number");
            return Err(m);
        },
    };
    if z > MAX_ZOOM {
        let mut m = text::joined("zoom ", text::decimal_text(z as u64).as_str());
        m.append(" is past the 24 cap");
        return Err(m);
    }
    let along: u32 = tiles_along(z);
    if x >= along || y >= along {
        let mut m = text::joined("tile ", text::decimal_text(x as u64).as_str());
        m.append("/");
        m.append(text::decimal_text(y as u64).as_str());
        m.append(" is outside zoom ");
        m.append(text::decimal_text(z as u64).as_str());
        return Err(m);
    }
    Ok((XyzTile { z, x, y }, format))
}

// Reductions in flight.

/// The reductions that run now.
#[derive(Debug)]
pub struct Slots {
    running: usize,
}

impl Slots {
    pub closed spec fn running(&self) -> nat {
        self.running as nat
    }

    /// No more run than may.
    pub closed spec fn wf(&self) -> bool {
        self.running <= REDUCTION_SLOTS
    }

    pub fn new() -> (r: Self)
        ensures
            r.wf(),
            r.running() == 0,
    {
        Slots { running: 0 }
    }

    /// Take a slot. Where all are taken the request is refused, not queued.
    pub fn take_slot(&mut self) -> (r: Result<(), String>)
        requires
            old(self).wf(),
        ensures
            final(self).wf(),
            old(self).running() < REDUCTION_SLOTS ==> r is Ok && final(self).running() == old(
                self,
            ).running() + 1,
            old(self).running() >= REDUCTION_SLOTS ==> (r matches Err(m) && m@
                == "all 4 reduction slots are busy"@) && final(self).running() == old(
                self,
            ).running(),
            final(self).running() <= REDUCTION_SLOTS,
    {
        if self.running >= REDUCTION_SLOTS {
            return Err(String::from_str("all 4 reduction slots are busy"));
        }
        self.running = self.running + 1;
        Ok(())
    }

    /// Give a slot back.
    pub fn give_back(&mut self)
        requires
            old(self).wf(),
            old(self).running() > 0,
        ensures
            final(self).wf(),
            final(self).running() == old(self).running() - 1,
    {
        self.running = self.running - 1;
    }
}

// What a layer says of itself.

/// The time that a collection covers, either end open.
#[derive(Debug)]
pub struct TemporalExtent {
    pub start: Option<String>,
    pub end: Option<String>,
}

/// What is published of a layer.
#[derive(Debug)]
pub struct LayerInfo {
    pub name: String,
    pub source: &'static str,
    pub collection: Option<String>,
    /// The interval of a pull that names none.
    pub default_datetime: Option<String>,
    pub temporal_extent: Option<TemporalExtent>,
}

/// The interval that a collection advertises.
pub open spec fn advertised(body: JsonModel) -> Option<Seq<JsonModel>> {
    match json::list_of(
        json::member_of(json::member_of(body.member("extent"@), "temporal"@), "interval"@),
    ) {
        Some(list) => if list.len() > 0 {
            json::list_of(Some(list[0]))
        } else {
            None
        },
        None => None,
    }
}

/// The text at a place of a list.
pub open spec fn text_at(v: Seq<JsonModel>, i: int) -> Option<Seq<char>> {
    if i < v.len() {
        json::text_of(Some(v[i]))
    } else {
        None
    }
}

pub open spec fn same_text(r: Option<String>, m: Option<Seq<char>>) -> bool {
    match (r, m) {
        (Some(s), Some(t)) => s@ == t,
        (None, None) => true,
        _ => false,
    }
}

fn entry_text(v: &Vec<Json>, i: usize) -> (r: Option<String>)
    ensures
        same_text(r, text_at(json::list_model(v@), i as int)),
{
    if i >= v.len() {
        return None;
    }
    assert(json::list_model(v@)[i as int] == v@[i as int]@);
    match json::as_text(Some(&v[i])) {
        Some(t) => Some(String::from_str(t.as_str())),
        None => None,
    }
}

/// The time that a collection's description says it covers.
pub fn temporal_extent(body: &Json) -> (r: Option<TemporalExtent>)
    ensures
        match advertised(body@) {
            Some(v) => r matches Some(e) && same_text(e.start, text_at(v, 0)) && same_text(
                e.end,
                text_at(v, 1),
            ),
            None => r is None,
        },
{
    let extent = json::member(Some(body), "extent");
    let temporal = json::member(extent, "temporal");
    match json::as_list(json::member(temporal, "interval")) {
        None => None,
        Some(list) => {
            if list.len() == 0 {
                return None;
            }
            assert(json::list_model(list@)[0] == list@[0]@);
            match json::as_list(Some(&list[0])) {
                None => None,
                Some(v) => Some(TemporalExtent { start: entry_text(v, 0), end: entry_text(v, 1) }),
            }
        },
    }
}

} // verus!
