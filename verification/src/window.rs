//! Window requests, resolution ladders and the chunk keys that tile them.
//!
//! A pull names a box and a ground resolution. The engine snaps it to a
//! ladder of powers of two over the node's base resolution, tiled from the
//! grid's origin, so that cache keys stay discrete.

use vstd::prelude::*;

use crate::number::Real;

verus! {

/// An axis-parallel box in ground units.
#[derive(Clone, Copy, Debug, PartialEq, Eq, Structural)]
pub struct Bbox {
    pub min_x: Real,
    pub min_y: Real,
    pub max_x: Real,
    pub max_y: Real,
}

impl Bbox {
    /// The boxes share an area.
    pub open spec fn meets(self, other: Bbox) -> bool {
        &&& self.min_x.below(other.max_x)
        &&& other.min_x.below(self.max_x)
        &&& self.min_y.below(other.max_y)
        &&& other.min_y.below(self.max_y)
    }

    /// The smallest box around both.
    pub open spec fn joined(self, other: Bbox) -> Bbox {
        Bbox {
            min_x: self.min_x.smaller(other.min_x),
            min_y: self.min_y.smaller(other.min_y),
            max_x: self.max_x.larger(other.max_x),
            max_y: self.max_y.larger(other.max_y),
        }
    }

    pub fn new(min_x: Real, min_y: Real, max_x: Real, max_y: Real) -> (r: Bbox)
        ensures
            r == (Bbox { min_x, min_y, max_x, max_y }),
    {
        Bbox { min_x, min_y, max_x, max_y }
    }

    pub fn intersects(&self, other: &Bbox) -> (r: bool)
        ensures
            r == self.meets(*other),
    {
        self.min_x.lt(other.max_x) && other.min_x.lt(self.max_x) && self.min_y.lt(other.max_y)
            && other.min_y.lt(self.max_y)
    }

    /// The smallest box around both.
    pub fn union(&self, other: &Bbox) -> (r: Bbox)
        ensures
            r == self.joined(*other),
    {
        Bbox {
            min_x: self.min_x.min(other.min_x),
            min_y: self.min_y.min(other.min_y),
            max_x: self.max_x.max(other.max_x),
            max_y: self.max_y.max(other.max_y),
        }
    }
}

/// Whether two boxes meet does not depend on which is asked.
pub proof fn meeting_is_mutual(a: Bbox, b: Bbox)
    ensures
        a.meets(b) == b.meets(a),
{
}

/// What meets a box meets every union that the box goes into.
pub proof fn union_meets_what_a_part_meets(a: Bbox, b: Bbox, c: Bbox)
    requires
        a.meets(c),
    ensures
        a.joined(b).meets(c),
{
}

/// A half-open range of instants in milliseconds since 1970: `start_ms` is
/// in, `end_ms` is out.
#[derive(Clone, Copy, Debug, PartialEq, Eq, Hash, PartialOrd, Ord, Structural)]
pub struct TimeInterval {
    pub start_ms: i64,
    pub end_ms: i64,
}

impl TimeInterval {
    pub fn new(start_ms: i64, end_ms: i64) -> (r: TimeInterval)
        ensures
            r == (TimeInterval { start_ms, end_ms }),
    {
        TimeInterval { start_ms, end_ms }
    }
}

/// A pull: this window at this ground resolution, at this time where one is
/// named.
#[derive(Clone, Copy, Debug, PartialEq, Eq, Structural)]
pub struct WindowReq {
    pub bbox: Bbox,
    pub resolution: Real,
    /// `None` leaves a source that varies in time on its own interval.
    pub time: Option<TimeInterval>,
}

impl WindowReq {
    /// The same pull over another window; its time rides along.
    pub fn with_window(&self, bbox: Bbox, resolution: Real) -> (r: WindowReq)
        ensures
            r == (WindowReq { bbox, resolution, time: self.time }),
    {
        WindowReq { bbox, resolution, time: self.time }
    }

    pub fn with_time(&self, time: Option<TimeInterval>) -> (r: WindowReq)
        ensures
            r == (WindowReq { bbox: self.bbox, resolution: self.resolution, time }),
    {
        WindowReq { bbox: self.bbox, resolution: self.resolution, time }
    }
}

/// The coarsest level of a ladder.
pub const MAX_LEVEL: u8 = 31;

/// A node's native pixel grid, the anchor of its ladder. `y` grows downward
/// from the origin.
#[derive(Clone, Copy, Debug, PartialEq, Eq, Structural)]
pub struct GridSpec {
    pub origin_x: Real,
    pub origin_y: Real,
    pub base_resolution: Real,
    pub chunk_px: u32,
}

/// What a cache addresses: a ladder level, tile indices, and the pull time
/// at nodes whose data varies with it.
#[derive(Clone, Copy, Debug, PartialEq, Eq, Hash, PartialOrd, Ord, Structural)]
pub struct ChunkKey {
    pub level: u8,
    pub ix: i64,
    pub iy: i64,
    pub time: Option<TimeInterval>,
}

/// The order of pull times: none first, then by start and end.
pub open spec fn time_before(a: Option<TimeInterval>, b: Option<TimeInterval>) -> bool {
    match (a, b) {
        (None, Some(_)) => true,
        (Some(s), Some(t)) => s.start_ms < t.start_ms || (s.start_ms == t.start_ms && s.end_ms
            < t.end_ms),
        _ => false,
    }
}

impl ChunkKey {
    /// The order of keys: by level, column, row and time.
    pub open spec fn before(self, other: ChunkKey) -> bool {
        ||| self.level < other.level
        ||| self.level == other.level && self.ix < other.ix
        ||| self.level == other.level && self.ix == other.ix && self.iy < other.iy
        ||| self.level == other.level && self.ix == other.ix && self.iy == other.iy && time_before(
            self.time,
            other.time,
        )
    }

    pub fn at_time(&self, time: Option<TimeInterval>) -> (r: ChunkKey)
        ensures
            r == (ChunkKey { level: self.level, ix: self.ix, iy: self.iy, time }),
    {
        ChunkKey { level: self.level, ix: self.ix, iy: self.iy, time }
    }

    /// Whether this key stands before another.
    pub fn precedes(&self, other: &ChunkKey) -> (r: bool)
        ensures
            r == self.before(*other),
    {
        if self.level != other.level {
            self.level < other.level
        } else if self.ix != other.ix {
            self.ix < other.ix
        } else if self.iy != other.iy {
            self.iy < other.iy
        } else {
            match (self.time, other.time) {
                (None, Some(_)) => true,
                (Some(s), Some(t)) => s.start_ms < t.start_ms || (s.start_ms == t.start_ms
                    && s.end_ms < t.end_ms),
                _ => false,
            }
        }
    }
}

/// Any two keys stand in one order or the other, or are one key.
pub proof fn keys_are_ordered(a: ChunkKey, b: ChunkKey, c: ChunkKey)
    ensures
        a.before(b) || b.before(a) || a == b,
        !(a.before(b) && b.before(a)),
        !a.before(a),
        a.before(b) && b.before(c) ==> a.before(c),
{
}

/// How many tiles an inclusive index range holds.
pub open spec fn span(first: i64, last: i64) -> nat {
    if last < first {
        0
    } else {
        (last - first + 1) as nat
    }
}

/// The key of the tile at a place of an inclusive range, row by row.
pub open spec fn tile_at(level: u8, ix0: i64, ix1: i64, iy0: i64, place: int) -> ChunkKey {
    ChunkKey {
        level,
        ix: (ix0 + place % (span(ix0, ix1) as int)) as i64,
        iy: (iy0 + place / (span(ix0, ix1) as int)) as i64,
        time: None,
    }
}

/// The keys of an inclusive tile range, row by row, at the source's own
/// time.
pub fn cover_range(level: u8, ix0: i64, ix1: i64, iy0: i64, iy1: i64) -> (keys: Vec<ChunkKey>)
    requires
        span(ix0, ix1) * span(iy0, iy1) <= usize::MAX,
    ensures
        keys@ == Seq::new(
            span(ix0, ix1) * span(iy0, iy1),
            |place: int| tile_at(level, ix0, ix1, iy0, place),
        ),
{
    let mut keys: Vec<ChunkKey> = Vec::new();
    let ghost w = span(ix0, ix1) as int;
    let ghost h = span(iy0, iy1) as int;
    if ix1 < ix0 || iy1 < iy0 {
        assert(w * h == 0) by (nonlinear_arith)
            requires
                w == 0 || h == 0,
        ;
        assert(keys@ =~= Seq::new(
            span(ix0, ix1) * span(iy0, iy1),
            |place: int| tile_at(level, ix0, ix1, iy0, place),
        ));
        return keys;
    }
    let mut iy: i64 = iy0;
    let mut more_rows: bool = true;
    assert(0 * w == 0);
    while more_rows
        invariant
            ix0 <= ix1,
            w == ix1 - ix0 + 1,
            h == iy1 - iy0 + 1,
            iy0 <= iy <= iy1,
            more_rows ==> keys@.len() == (iy - iy0) * w,
            !more_rows ==> keys@.len() == h * w,
            forall|p: int|
                0 <= p < keys@.len() ==> #[trigger] keys@[p] == tile_at(level, ix0, ix1, iy0, p),
        decreases iy1 - iy + (if more_rows {
            1int
        } else {
            0int
        }),
    {
        let mut ix: i64 = ix0;
        let mut more: bool = true;
        let ghost row = (iy - iy0) as int;
        while more
            invariant
                ix0 <= ix <= ix1,
                w == ix1 - ix0 + 1,
                row == iy - iy0,
                0 <= row,
                more ==> keys@.len() == row * w + (ix - ix0),
                !more ==> keys@.len() == row * w + w,
                forall|p: int|
                    0 <= p < keys@.len() ==> #[trigger] keys@[p] == tile_at(
                        level,
                        ix0,
                        ix1,
                        iy0,
                        p,
                    ),
            decreases ix1 - ix + (if more {
                1int
            } else {
                0int
            }),
        {
            proof {
                let p = keys@.len() as int;
                let c = (ix - ix0) as int;
                assert(p == row * w + c);
                vstd::arithmetic::div_mod::lemma_fundamental_div_mod_converse(p, w, row, c);
            }
            keys.push(ChunkKey { level, ix, iy, time: None });
            if ix == ix1 {
                more = false;
            } else {
                ix = ix + 1;
            }
        }
        assert(row * w + w == (row + 1) * w) by (nonlinear_arith);
        if iy == iy1 {
            more_rows = false;
        } else {
            iy = iy + 1;
        }
    }
    assert(h * w == w * h) by (nonlinear_arith);
    assert(keys@ =~= Seq::new(
        span(ix0, ix1) * span(iy0, iy1),
        |place: int| tile_at(level, ix0, ix1, iy0, place),
    ));
    keys
}

} // verus!
