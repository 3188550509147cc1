//! Windows of tiled raster files: which byte ranges a read fetches, how a
//! fetch is retried, and how a window is cut out and thinned.

use vstd::prelude::*;

use crate::chunk::Band;
use crate::error::Error;
use crate::number::Real;
use crate::range_cache;
use crate::range_cache::{Probe, RangeCache, RangeKey, RangeModel, RangeName};
use crate::resample;
use crate::text;

verus! {

/// How often a range is asked for.
pub const RANGE_ATTEMPTS: u32 = 3;

/// The wait before the second attempt, in milliseconds.
pub const RANGE_BACKOFF_MS: u64 = 200;

/// The transfers in flight at a time.
pub const MAX_PARALLEL_TRANSFERS: usize = 48;

/// A file that is read range by range.
#[derive(Debug)]
pub struct HttpRange {
    pub url: String,
}

/// The name of a range of a file.
pub open spec fn named(url: Seq<char>, range: (u64, u64)) -> RangeName {
    RangeName { url, offset: range.0, len: range.1 }
}

/// The ranges once the first `n` of a read were looked at.
pub open spec fn looked_at(
    m: Map<RangeName, RangeModel>,
    url: Seq<char>,
    ranges: Seq<(u64, u64)>,
    tick: nat,
    n: int,
) -> Map<RangeName, RangeModel>
    decreases n,
{
    if n <= 0 {
        m
    } else {
        range_cache::probed(
            looked_at(m, url, ranges, tick, n - 1),
            named(url, ranges[n - 1]),
            (tick + n) as nat,
        )
    }
}

/// What a read of several ranges has and lacks.
#[derive(Debug)]
pub struct RangePlan {
    /// The bytes of each range that is here.
    pub out: Vec<Option<Vec<u8>>>,
    /// The places of the ranges that are the caller's to fetch.
    pub mine: Vec<usize>,
    /// The places of the ranges that another fetch will bring.
    pub theirs: Vec<usize>,
}

/// The places among the first `n` at which a read found its range claimed
/// for it, or in flight.
pub open spec fn places(
    m: Map<RangeName, RangeModel>,
    url: Seq<char>,
    ranges: Seq<(u64, u64)>,
    tick: nat,
    claimed: bool,
    n: int,
) -> Seq<usize>
    decreases n,
{
    if n <= 0 {
        Seq::empty()
    } else {
        let before = places(m, url, ranges, tick, claimed, n - 1);
        let then = looked_at(m, url, ranges, tick, n - 1);
        let k = named(url, ranges[n - 1]);
        if (claimed && !then.contains_key(k)) || (!claimed && range_cache::is_pending(then, k)) {
            before.push((n - 1) as usize)
        } else {
            before
        }
    }
}

/// The bytes that a read finds at a place.
pub open spec fn bytes_at(
    m: Map<RangeName, RangeModel>,
    url: Seq<char>,
    ranges: Seq<(u64, u64)>,
    tick: nat,
    i: int,
) -> Option<Seq<u8>> {
    let then = looked_at(m, url, ranges, tick, i);
    let k = named(url, ranges[i]);
    if range_cache::is_ready(then, k) {
        Some(then[k]->bytes)
    } else {
        None
    }
}

pub open spec fn same_bytes(o: Option<Vec<u8>>, m: Option<Seq<u8>>) -> bool {
    match (o, m) {
        (Some(v), Some(s)) => v@ == s,
        (None, None) => true,
        _ => false,
    }
}

impl HttpRange {
    pub fn new(url: String) -> (r: HttpRange)
        ensures
            r.url == url,
    {
        HttpRange { url }
    }

    /// The key of a range of this file.
    pub fn key(&self, offset: u64, len: u64) -> (k: RangeKey)
        ensures
            k@ == named(self.url@, (offset, len)),
    {
        RangeKey { url: String::from_str(self.url.as_str()), offset, len }
    }

    /// Look at every range of a read in turn. Those that nobody holds or
    /// fetches are claimed; a range that is listed twice is in flight the
    /// second time.
    pub fn plan_ranges(&self, cache: &mut RangeCache, ranges: &Vec<(u64, u64)>) -> (r: RangePlan)
        requires
            old(cache).wf(),
            old(cache).tick() + ranges@.len() <= u64::MAX,
        ensures
            final(cache).wf(),
            final(cache).tick() == old(cache).tick() + ranges@.len(),
            final(cache).ranges() == looked_at(
                old(cache).ranges(),
                self.url@,
                ranges@,
                old(cache).tick(),
                ranges@.len() as int,
            ),
            r.out@.len() == ranges@.len(),
            forall|i: int|
                0 <= i < ranges@.len() ==> same_bytes(
                    #[trigger] r.out@[i],
                    bytes_at(old(cache).ranges(), self.url@, ranges@, old(cache).tick(), i),
                ),
            r.mine@ == places(
                old(cache).ranges(),
                self.url@,
                ranges@,
                old(cache).tick(),
                true,
                ranges@.len() as int,
            ),
            r.theirs@ == places(
                old(cache).ranges(),
                self.url@,
                ranges@,
                old(cache).tick(),
                false,
                ranges@.len() as int,
            ),
    {
        let ghost m = cache.ranges();
        let ghost tick = cache.tick();
        let n: usize = ranges.len();
        let mut out: Vec<Option<Vec<u8>>> = Vec::new();
        let mut mine: Vec<usize> = Vec::new();
        let mut theirs: Vec<usize> = Vec::new();
        for i in 0..n
            invariant
                n == ranges@.len(),
                tick + n <= u64::MAX,
                cache.wf(),
                cache.tick() == tick + i,
                cache.ranges() == looked_at(m, self.url@, ranges@, tick, i as int),
                out@.len() == i,
                forall|j: int|
                    0 <= j < i ==> same_bytes(
                        #[trigger] out@[j],
                        bytes_at(m, self.url@, ranges@, tick, j),
                    ),
                mine@ == places(m, self.url@, ranges@, tick, true, i as int),
                theirs@ == places(m, self.url@, ranges@, tick, false, i as int),
        {
            let (offset, len) = ranges[i];
            let key = self.key(offset, len);
            let ghost then = cache.ranges();
            let ghost k = key@;
            assert(k == named(self.url@, ranges@[i as int]));
            match cache.probe(&key) {
                Probe::Ready(bytes) => {
                    out.push(Some(bytes));
                },
                Probe::Claimed => {
                    out.push(None);
                    mine.push(i);
                },
                Probe::InFlight => {
                    out.push(None);
                    theirs.push(i);
                },
            }
        }
        RangePlan { out, mine, theirs }
    }

    /// Publish what the fetch of a claimed range brought, and hand it on.
    pub fn fetch_claimed(
        &self,
        cache: &mut RangeCache,
        key: &RangeKey,
        fetched: Result<Vec<u8>, String>,
    ) -> (r: Result<Vec<u8>, String>)
        requires
            old(cache).wf(),
            old(cache).tick() < u64::MAX,
            range_cache::is_pending(old(cache).ranges(), key@),
            fetched matches Ok(b) ==> range_cache::all_held(old(cache).ranges()) + b@.len()
                <= usize::MAX,
        ensures
            final(cache).wf(),
            final(cache).ranges() == range_cache::published(
                old(cache).ranges(),
                key@,
                match fetched {
                    Ok(b) => Some(b@),
                    Err(_) => None,
                },
                old(cache).tick() + 1,
            ),
            match fetched {
                Ok(b) => r matches Ok(c) && c@ == b@,
                Err(e) => r == Err::<Vec<u8>, String>(e),
            },
    {
        match fetched {
            Ok(bytes) => {
                let copy = range_cache::copy_bytes(&bytes);
                cache.publish(key, Some(bytes));
                Ok(copy)
            },
            Err(e) => {
                cache.publish(key, None);
                Err(e)
            },
        }
    }
}

/// Every range of a read is here, the caller's, or in flight: a read that
/// has fetched its own and waited for the others lacks none.
pub proof fn every_range_is_accounted_for(
    m: Map<RangeName, RangeModel>,
    url: Seq<char>,
    ranges: Seq<(u64, u64)>,
    tick: nat,
    n: int,
    i: int,
)
    requires
        0 <= i < n <= ranges.len() <= usize::MAX,
    ensures
        bytes_at(m, url, ranges, tick, i) is Some || places(m, url, ranges, tick, true, n).contains(
            i as usize,
        ) || places(m, url, ranges, tick, false, n).contains(i as usize),
    decreases n,
{
    let mine = places(m, url, ranges, tick, true, n);
    let theirs = places(m, url, ranges, tick, false, n);
    if i < n - 1 {
        every_range_is_accounted_for(m, url, ranges, tick, n - 1, i);
        let a = places(m, url, ranges, tick, true, n - 1);
        let b = places(m, url, ranges, tick, false, n - 1);
        if a.contains(i as usize) {
            let p = choose|p: int| 0 <= p < a.len() && a[p] == i as usize;
            assert(mine[p] == i as usize);
        }
        if b.contains(i as usize) {
            let p = choose|p: int| 0 <= p < b.len() && b[p] == i as usize;
            assert(theirs[p] == i as usize);
        }
    } else {
        let then = looked_at(m, url, ranges, tick, i);
        let k = named(url, ranges[i]);
        if !then.contains_key(k) {
            assert(mine[mine.len() - 1] == i as usize);
        } else if range_cache::is_pending(then, k) {
            assert(theirs[theirs.len() - 1] == i as usize);
        }
    }
}

// Fetching.

/// The header that asks for a range.
pub fn range_header(offset: u64, len: u64) -> (r: String)
    requires
        len > 0,
        offset + len - 1 <= u64::MAX,
    ensures
        r@ == "bytes="@ + text::decimal(offset as nat) + "-"@ + text::decimal(
            (offset + len - 1) as nat,
        ),
{
    let end: u64 = offset + (len - 1);
    let mut r = text::joined("bytes=", text::decimal_text(offset).as_str());
    r.append("-");
    r.append(text::decimal_text(end).as_str());
    r
}

/// What a status says of a fetch.
#[derive(Clone, Copy, Debug, PartialEq, Eq, Structural)]
pub enum Answer {
    /// The range follows.
    Partial,
    /// It failed, and may not the next time.
    Transient,
    /// It failed for good.
    Refused,
    /// The server did not heed the range.
    Ignored,
}

/// What a status says of a fetch.
pub fn answer(status: u16) -> (r: Answer)
    ensures
        r == (if 500 <= status <= 599 || status == 429 {
            Answer::Transient
        } else if 400 <= status <= 499 {
            Answer::Refused
        } else if status == 206 {
            Answer::Partial
        } else {
            Answer::Ignored
        }),
{
    if status >= 500 && status <= 599 {
        Answer::Transient
    } else if status == 429 {
        Answer::Transient
    } else if status >= 400 && status <= 499 {
        Answer::Refused
    } else if status == 206 {
        Answer::Partial
    } else {
        Answer::Ignored
    }
}

/// The message on a body of another length than was asked for.
pub open spec fn short_body(have: nat, want: nat) -> Seq<char> {
    "range returned "@ + text::decimal(have) + " bytes, wanted "@ + text::decimal(want)
}

/// Hold a body to the length that was asked for.
pub fn check_body(have: u64, want: u64) -> (r: Result<(), String>)
    ensures
        have == want ==> r is Ok,
        have != want ==> (r matches Err(m) && m@ == short_body(have as nat, want as nat)),
{
    if have == want {
        return Ok(());
    }
    let mut m = text::joined("range returned ", text::decimal_text(have).as_str());
    m.append(" bytes, wanted ");
    m.append(text::decimal_text(want).as_str());
    Err(m)
}

/// The wait after a number of failed attempts.
pub open spec fn backoff(attempts: nat) -> nat
    decreases attempts,
{
    if attempts <= 1 {
        RANGE_BACKOFF_MS as nat
    } else {
        4 * backoff((attempts - 1) as nat)
    }
}

/// What to do once an attempt failed, the `attempts`-th: the milliseconds
/// to wait before the next, or nothing more.
pub fn after_failure(attempts: u32, transient: bool) -> (r: Option<u64>)
    requires
        1 <= attempts <= RANGE_ATTEMPTS,
    ensures
        r == (if transient && attempts < RANGE_ATTEMPTS {
            Some(backoff(attempts as nat) as u64)
        } else {
            None
        }),
{
    if !transient || attempts == RANGE_ATTEMPTS {
        return None;
    }
    let mut delay: u64 = RANGE_BACKOFF_MS;
    let mut k: u32 = 1;
    while k < attempts
        invariant
            1 <= k <= attempts < RANGE_ATTEMPTS,
            delay == backoff(k as nat),
            k == 1 ==> delay == 200,
            k == 2 ==> delay == 800,
        decreases attempts - k,
    {
        delay = delay * 4;
        k = k + 1;
    }
    Some(delay)
}

/// The band count of a file whose levels hold that many samples a pixel.
pub fn band_count(samples: Option<u64>) -> (r: Result<u16, Error>)
    ensures
        match samples {
            None => r matches Err(Error::Source(m)) && m@ == "cog has no levels"@,
            Some(n) => if n <= u16::MAX {
                r == Ok::<u16, Error>(n as u16)
            } else {
                r matches Err(Error::Source(m)) && m@ == "cog has "@ + text::decimal(n as nat)
                    + " bands"@
            },
        },
{
    match samples {
        None => Err(Error::Source(String::from_str("cog has no levels"))),
        Some(n) => if n <= 0xffff {
            Ok(n as u16)
        } else {
            let mut m = text::joined("cog has ", text::decimal_text(n).as_str());
            m.append(" bands");
            Err(Error::Source(m))
        },
    }
}

// Windows.

/// The part of a window that lies in the file: where it starts in the
/// file, and what lies left of and above the file.
#[derive(Clone, Copy, Debug, PartialEq, Eq, Structural)]
pub struct FileWindow {
    pub col: usize,
    pub row: usize,
    pub width: usize,
    pub height: usize,
    pub skip_cols: usize,
    pub skip_rows: usize,
}

/// How much of a window lies before the file's edge.
pub open spec fn before_edge(start: i64) -> int {
    if start < 0 {
        -start
    } else {
        0
    }
}

/// The part of a window that a file is read for, where there is one. A
/// window may start left of the file or above it.
pub fn file_window(col0: i64, row0: i64, cols: usize, rows: usize) -> (r: Option<FileWindow>)
    requires
        i64::MIN < col0,
        i64::MIN < row0,
        col0 <= usize::MAX,
        row0 <= usize::MAX,
        before_edge(col0) <= usize::MAX,
        before_edge(row0) <= usize::MAX,
    ensures
        r == (if before_edge(col0) < cols && before_edge(row0) < rows {
            Some(
                FileWindow {
                    col: (col0 + before_edge(col0)) as usize,
                    row: (row0 + before_edge(row0)) as usize,
                    width: (cols - before_edge(col0)) as usize,
                    height: (rows - before_edge(row0)) as usize,
                    skip_cols: before_edge(col0) as usize,
                    skip_rows: before_edge(row0) as usize,
                },
            )
        } else {
            None
        }),
{
    let skip_cols: usize = if col0 < 0 {
        (-col0) as usize
    } else {
        0
    };
    let skip_rows: usize = if row0 < 0 {
        (-row0) as usize
    } else {
        0
    };
    if skip_cols < cols && skip_rows < rows {
        let col: usize = if col0 < 0 {
            0
        } else {
            col0 as usize
        };
        let row: usize = if row0 < 0 {
            0
        } else {
            row0 as usize
        };
        Some(
            FileWindow {
                col,
                row,
                width: cols - skip_cols,
                height: rows - skip_rows,
                skip_cols,
                skip_rows,
            },
        )
    } else {
        None
    }
}

/// The cell of a window whose lower right part is a block read from a file.
pub open spec fn padded_cell(
    cols: int,
    skip_cols: int,
    skip_rows: int,
    width: int,
    height: int,
    data: Seq<Real>,
    p: int,
) -> Real {
    let c = p % cols - skip_cols;
    let r = p / cols - skip_rows;
    if 0 <= c < width && 0 <= r < height {
        data[r * width + c]
    } else {
        Real { bits: crate::number::NAN_BITS }
    }
}

proof fn cell_in_block(r: int, c: int, width: int, height: int)
    requires
        0 <= c < width,
        0 <= r < height,
    ensures
        0 <= r * width + c < width * height,
{
    assert(0 <= r * width + c < width * height) by (nonlinear_arith)
        requires
            0 <= c < width,
            0 <= r < height,
    ;
}

/// A plane of a window around the block that was read from a file.
pub fn pad_block(
    cols: usize,
    rows: usize,
    skip_cols: usize,
    skip_rows: usize,
    width: usize,
    height: usize,
    data: &Vec<Real>,
) -> (r: Vec<Real>)
    requires
        cols * rows <= usize::MAX,
        width * height == data@.len(),
        skip_cols + width <= cols,
        skip_rows + height <= rows,
    ensures
        r@ == Seq::new(
            (cols * rows) as nat,
            |p: int|
                padded_cell(
                    cols as int,
                    skip_cols as int,
                    skip_rows as int,
                    width as int,
                    height as int,
                    data@,
                    p,
                ),
        ),
{
    let n: usize = cols * rows;
    let mut out: Vec<Real> = Vec::new();
    for p in 0..n
        invariant
            n == cols * rows,
            width * height == data@.len(),
            skip_cols + width <= cols,
            skip_rows + height <= rows,
            out@.len() == p,
            forall|q: int|
                0 <= q < p ==> #[trigger] out@[q] == padded_cell(
                    cols as int,
                    skip_cols as int,
                    skip_rows as int,
                    width as int,
                    height as int,
                    data@,
                    q,
                ),
    {
        proof {
            assert(cols > 0) by (nonlinear_arith)
                requires
                    cols * rows > p,
                    p >= 0,
                    cols >= 0,
            ;
        }
        let c: usize = p % cols;
        let row: usize = p / cols;
        let inside: bool = c >= skip_cols && c - skip_cols < width && row >= skip_rows && row
            - skip_rows < height;
        if inside {
            let x: usize = c - skip_cols;
            let y: usize = row - skip_rows;
            let len: usize = data.len();
            proof {
                cell_in_block(y as int, x as int, width as int, height as int);
                assert(0 <= y * width) by (nonlinear_arith)
                    requires
                        y >= 0,
                        width >= 0,
                ;
                assert(y * width + x < len);
            }
            out.push(data[y * width + x]);
        } else {
            out.push(Real::not_a_number());
        }
    }
    assert(out@ =~= Seq::new(
        (cols * rows) as nat,
        |p: int|
            padded_cell(
                cols as int,
                skip_cols as int,
                skip_rows as int,
                width as int,
                height as int,
                data@,
                p,
            ),
    ));
    out
}

/// The finite values among the first `n` of a block of `factor` by
/// `factor` cells, row by row.
pub open spec fn block_values(
    fine: Seq<Real>,
    cols: int,
    factor: int,
    row: int,
    col: int,
    n: int,
) -> Seq<Real>
    decreases n,
{
    if n <= 0 {
        Seq::empty()
    } else {
        let before = block_values(fine, cols, factor, row, col, n - 1);
        let v = fine[(row * factor + (n - 1) / factor) * (cols * factor) + col * factor + (n - 1)
            % factor];
        if v.finite() {
            before.push(v)
        } else {
            before
        }
    }
}

proof fn block_cell(cols: int, rows: int, factor: int, row: int, col: int, rr: int, cc: int)
    requires
        0 <= row < rows,
        0 <= col < cols,
        0 <= rr < factor,
        0 <= cc < factor,
    ensures
        0 <= row * factor + rr < rows * factor,
        0 <= col * factor + cc < cols * factor,
        0 <= (row * factor + rr) * (cols * factor),
        (row * factor + rr) * (cols * factor) + col * factor + cc < (cols * factor) * (rows
            * factor),
{
    assert(0 <= row * factor + rr < rows * factor) by (nonlinear_arith)
        requires
            0 <= row < rows,
            0 <= rr < factor,
    ;
    assert(0 <= col * factor + cc < cols * factor) by (nonlinear_arith)
        requires
            0 <= col < cols,
            0 <= cc < factor,
    ;
    let y = row * factor + rr;
    let x = col * factor + cc;
    let w = cols * factor;
    let h = rows * factor;
    assert(0 <= y * w && y * w + x < w * h) by (nonlinear_arith)
        requires
            0 <= y < h,
            0 <= x < w,
    ;
}

fn gather_block(
    fine: &Vec<Real>,
    cols: usize,
    rows: usize,
    factor: usize,
    row: usize,
    col: usize,
) -> (r: Vec<Real>)
    requires
        factor > 0,
        row < rows,
        col < cols,
        fine@.len() == (cols * factor) * (rows * factor),
    ensures
        r@ == block_values(
            fine@,
            cols as int,
            factor as int,
            row as int,
            col as int,
            factor * factor,
        ),
{
    let mut vals: Vec<Real> = Vec::new();
    for rr in 0..factor
        invariant
            factor > 0,
            row < rows,
            col < cols,
            fine@.len() == (cols * factor) * (rows * factor),
            vals@ == block_values(
                fine@,
                cols as int,
                factor as int,
                row as int,
                col as int,
                rr * factor,
            ),
    {
        for cc in 0..factor
            invariant
                rr < factor,
                row < rows,
                col < cols,
                fine@.len() == (cols * factor) * (rows * factor),
                vals@ == block_values(
                    fine@,
                    cols as int,
                    factor as int,
                    row as int,
                    col as int,
                    rr * factor + cc,
                ),
        {
            let len: usize = fine.len();
            proof {
                let f = factor as int;
                block_cell(
                    cols as int,
                    rows as int,
                    f,
                    row as int,
                    col as int,
                    rr as int,
                    cc as int,
                );
                let (y, w, h, x) = (
                    row * factor + rr,
                    cols * factor,
                    rows * factor,
                    col * factor + cc,
                );
                assert(w <= w * h && h <= w * h && 0 <= w && 0 <= h) by (nonlinear_arith)
                    requires
                        0 <= y < h,
                        0 <= x < w,
                ;
                assert(w * h == len);
                assert(y < len && x < len && w <= len && y * w + x < len);
                assert(0 <= row * factor && 0 <= col * factor && 0 <= rr * factor)
                    by (nonlinear_arith)
                    requires
                        row >= 0,
                        col >= 0,
                        rr >= 0,
                        factor >= 0,
                ;
                let n = rr * factor + cc + 1;
                vstd::arithmetic::div_mod::lemma_fundamental_div_mod_converse(
                    n - 1,
                    f,
                    rr as int,
                    cc as int,
                );
            }
            let y: usize = row * factor + rr;
            let width: usize = cols * factor;
            let base: usize = y * width;
            let x: usize = col * factor + cc;
            let v = fine[base + x];
            if v.is_finite() {
                vals.push(v);
            }
        }
        assert(rr * factor + factor == (rr + 1) * factor) by (nonlinear_arith);
    }
    vals
}

/// The values that each cell of a thinned plane is the mean of: the finite
/// ones of its block, row by row. A cell without any has no value.
pub fn decimate(fine: &Vec<Real>, cols: usize, rows: usize, factor: usize) -> (r: Vec<Vec<Real>>)
    requires
        factor > 0,
        fine@.len() == (cols * factor) * (rows * factor),
    ensures
        r@.len() == cols * rows,
        forall|row: int, col: int|
            0 <= row < rows && 0 <= col < cols ==> (#[trigger] r@[row * cols + col])@
                == block_values(
                fine@,
                cols as int,
                factor as int,
                row,
                col,
                factor * factor,
            ),
{
    let mut out: Vec<Vec<Real>> = Vec::new();
    assert(0 * cols == 0);
    for row in 0..rows
        invariant
            factor > 0,
            fine@.len() == (cols * factor) * (rows * factor),
            out@.len() == row * cols,
            forall|p: int|
                0 <= p < out@.len() ==> (#[trigger] out@[p])@ == block_values(
                    fine@,
                    cols as int,
                    factor as int,
                    p / cols as int,
                    p % cols as int,
                    factor * factor,
                ),
    {
        for col in 0..cols
            invariant
                factor > 0,
                row < rows,
                fine@.len() == (cols * factor) * (rows * factor),
                out@.len() == row * cols + col,
                forall|p: int|
                    0 <= p < out@.len() ==> (#[trigger] out@[p])@ == block_values(
                        fine@,
                        cols as int,
                        factor as int,
                        p / cols as int,
                        p % cols as int,
                        factor * factor,
                    ),
        {
            proof {
                vstd::arithmetic::div_mod::lemma_fundamental_div_mod_converse(
                    row * cols + col,
                    cols as int,
                    row as int,
                    col as int,
                );
            }
            out.push(gather_block(fine, cols, rows, factor, row, col));
        }
        assert(row * cols + cols == (row + 1) * cols) by (nonlinear_arith);
    }
    proof {
        assert(rows * cols == cols * rows) by (nonlinear_arith);
        assert forall|row: int, col: int| 0 <= row < rows && 0 <= col < cols implies (
        #[trigger] out@[row * cols + col])@ == block_values(
            fine@,
            cols as int,
            factor as int,
            row,
            col,
            factor * factor,
        ) by {
            cell_in_block(row, col, cols as int, rows as int);
            vstd::arithmetic::div_mod::lemma_fundamental_div_mod_converse(
                row * cols + col,
                cols as int,
                row,
                col,
            );
        }
    }
    out
}

// Bands.

/// A block of one band, as a file gives it.
#[derive(Debug)]
pub struct Plane {
    pub width: usize,
    pub height: usize,
    pub data: Vec<Real>,
}

/// The block holds what its sides say and fits into a window of that size.
pub open spec fn plane_fits(p: Plane, w: FileWindow, cols: int, rows: int) -> bool {
    &&& p.width * p.height == p.data@.len()
    &&& w.skip_cols + p.width <= cols
    &&& w.skip_rows + p.height <= rows
}

/// The cells of a band over a window: those of the file's block, no value
/// where the file gives none.
pub open spec fn fine_cells(
    w: Option<FileWindow>,
    planes: Seq<Plane>,
    cols: int,
    rows: int,
    b: int,
) -> Seq<Real> {
    if w is Some && b < planes.len() {
        Seq::new(
            (cols * rows) as nat,
            |p: int|
                padded_cell(
                    cols,
                    w->0.skip_cols as int,
                    w->0.skip_rows as int,
                    planes[b].width as int,
                    planes[b].height as int,
                    planes[b].data@,
                    p,
                ),
        )
    } else {
        Seq::new((cols * rows) as nat, |p: int| Real { bits: crate::number::NAN_BITS })
    }
}

/// A value is that of a cell of a band: the cell read, or the mean of the
/// finite ones of its block.
pub open spec fn is_cell<M: Fn(Vec<Real>) -> Real>(
    m: M,
    fine: Seq<Real>,
    cols: int,
    factor: int,
    row: int,
    col: int,
    r: Real,
) -> bool {
    if factor == 1 {
        r == fine[row * cols + col]
    } else {
        resample::is_mean(
            m,
            block_values(fine, cols, factor, row, col, factor * factor),
            Real { bits: crate::number::NAN_BITS },
            r,
        )
    }
}

fn fine_plane(w: Option<FileWindow>, planes: &Vec<Plane>, cols: usize, rows: usize, b: usize) -> (r:
    Vec<Real>)
    requires
        cols * rows <= usize::MAX,
        w is Some ==> forall|k: int|
            0 <= k < planes@.len() ==> plane_fits(
                #[trigger] planes@[k],
                w->0,
                cols as int,
                rows as int,
            ),
    ensures
        r@ == fine_cells(w, planes@, cols as int, rows as int, b as int),
{
    if let Some(f) = w {
        if b < planes.len() {
            let p = &planes[b];
            assert(plane_fits(planes@[b as int], f, cols as int, rows as int));
            return pad_block(cols, rows, f.skip_cols, f.skip_rows, p.width, p.height, &p.data);
        }
    }
    let n: usize = cols * rows;
    let mut r: Vec<Real> = Vec::new();
    for i in 0..n
        invariant
            r@ == Seq::new(i as nat, |p: int| Real { bits: crate::number::NAN_BITS }),
    {
        r.push(Real::not_a_number());
        assert(r@ =~= Seq::new((i + 1) as nat, |p: int| Real { bits: crate::number::NAN_BITS }));
    }
    r
}

/// The bands of a window of `cols` by `rows` cells, each the mean of
/// `factor` by `factor` cells of the file: one per sample, with the blocks
/// that the file gave for the part of the window that lies in it.
pub fn window_bands<M: Fn(Vec<Real>) -> Real>(
    m: &M,
    w: Option<FileWindow>,
    planes: &Vec<Plane>,
    samples: usize,
    cols: usize,
    rows: usize,
    factor: usize,
) -> (r: Vec<Band>)
    requires
        factor > 0,
        cols * factor <= usize::MAX,
        rows * factor <= usize::MAX,
        (cols * factor) * (rows * factor) <= usize::MAX,
        w is Some ==> forall|k: int|
            0 <= k < planes@.len() ==> plane_fits(
                #[trigger] planes@[k],
                w->0,
                cols * factor,
                rows * factor,
            ),
        resample::averages_any(*m),
    ensures
        r@.len() == samples,
        forall|b: int|
            0 <= b < samples ==> (#[trigger] r@[b]).nodata.bits == crate::number::NAN_BITS
                && r@[b].data@.len() == cols * rows,
        forall|b: int, row: int, col: int|
            0 <= b < samples && 0 <= row < rows && 0 <= col < cols ==> is_cell(
                *m,
                fine_cells(w, planes@, cols * factor, rows * factor, b),
                cols as int,
                factor as int,
                row,
                col,
                #[trigger] r@[b].data@[row * cols + col],
            ),
{
    let mut r: Vec<Band> = Vec::new();
    for b in 0..samples
        invariant
            factor > 0,
            cols * factor <= usize::MAX,
            rows * factor <= usize::MAX,
            (cols * factor) * (rows * factor) <= usize::MAX,
            w is Some ==> forall|k: int|
                0 <= k < planes@.len() ==> plane_fits(
                    #[trigger] planes@[k],
                    w->0,
                    cols * factor,
                    rows * factor,
                ),
            resample::averages_any(*m),
            r@.len() == b,
            forall|k: int|
                0 <= k < b ==> (#[trigger] r@[k]).nodata.bits == crate::number::NAN_BITS
                    && r@[k].data@.len() == cols * rows,
            forall|k: int, row: int, col: int|
                0 <= k < b && 0 <= row < rows && 0 <= col < cols ==> is_cell(
                    *m,
                    fine_cells(w, planes@, cols * factor, rows * factor, k),
                    cols as int,
                    factor as int,
                    row,
                    col,
                    #[trigger] r@[k].data@[row * cols + col],
                ),
    {
        let fine = fine_plane(w, planes, cols * factor, rows * factor, b);
        let ghost before = r@;
        let data = thinned(m, fine, cols, rows, factor);
        r.push(Band { nodata: Real::not_a_number(), data });
        assert forall|k: int, row: int, col: int|
            0 <= k < b + 1 && 0 <= row < rows && 0 <= col < cols implies is_cell(
            *m,
            fine_cells(w, planes@, cols * factor, rows * factor, k),
            cols as int,
            factor as int,
            row,
            col,
            #[trigger] r@[k].data@[row * cols + col],
        ) by {
            if k < b {
                assert(r@[k] == before[k]);
                assert(is_cell(
                    *m,
                    fine_cells(w, planes@, cols * factor, rows * factor, k),
                    cols as int,
                    factor as int,
                    row,
                    col,
                    before[k].data@[row * cols + col],
                ));
            }
        }
    }
    r
}

fn thinned<M: Fn(Vec<Real>) -> Real>(
    m: &M,
    fine: Vec<Real>,
    cols: usize,
    rows: usize,
    factor: usize,
) -> (r: Vec<Real>)
    requires
        factor > 0,
        fine@.len() == (cols * factor) * (rows * factor),
        resample::averages_any(*m),
    ensures
        r@.len() == cols * rows,
        forall|row: int, col: int|
            0 <= row < rows && 0 <= col < cols ==> is_cell(
                *m,
                fine@,
                cols as int,
                factor as int,
                row,
                col,
                #[trigger] r@[row * cols + col],
            ),
{
    if factor == 1 {
        assert(cols * 1 == cols && rows * 1 == rows);
        return fine;
    }
    let blocks = decimate(&fine, cols, rows, factor);
    let n: usize = blocks.len();
    let mut r: Vec<Real> = Vec::new();
    for p in 0..n
        invariant
            n == blocks@.len(),
            resample::averages_any(*m),
            r@.len() == p,
            forall|q: int|
                0 <= q < p ==> resample::is_mean(
                    *m,
                    blocks@[q]@,
                    Real { bits: crate::number::NAN_BITS },
                    #[trigger] r@[q],
                ),
    {
        r.push(resample::mean_of(m, &blocks[p], Real::not_a_number()));
    }
    assert forall|row: int, col: int| 0 <= row < rows && 0 <= col < cols implies is_cell(
        *m,
        fine@,
        cols as int,
        factor as int,
        row,
        col,
        #[trigger] r@[row * cols + col],
    ) by {
        cell_in_block(row, col, cols as int, rows as int);
        let q = row * cols + col;
        assert(blocks@[row * cols + col]@ == block_values(
            fine@,
            cols as int,
            factor as int,
            row,
            col,
            factor * factor,
        ));
        assert(resample::is_mean(
            *m,
            blocks@[q]@,
            Real { bits: crate::number::NAN_BITS },
            r@[q],
        ));
    }
    r
}

} // verus!
