//! Which cells a resampled value comes from.

use vstd::prelude::*;

use crate::number::Real;

verus! {

/// A cell of a plane, where it lies inside and has a finite value.
pub open spec fn cell_value(
    data: Seq<Real>,
    nodata: Seq<bool>,
    width: int,
    height: int,
    r: int,
    c: int,
) -> Option<Real> {
    if 0 <= r < height && 0 <= c < width && !nodata[r * width + c] && data[r * width
        + c].finite() {
        Some(data[r * width + c])
    } else {
        None
    }
}

/// What a value between four cells comes from.
#[derive(Clone, Copy, Debug, PartialEq, Eq, Structural)]
pub enum Sample {
    /// All four, weighted: upper left, upper right, lower left, lower
    /// right.
    Blend(Real, Real, Real, Real),
    /// This one cell.
    Take(Real),
    Nothing,
}

/// What the value between the cell at a row and column and its right and
/// lower neighbours comes from: all four, else the first that has a value.
pub open spec fn sampled(
    data: Seq<Real>,
    nodata: Seq<bool>,
    width: int,
    height: int,
    r: int,
    c: int,
) -> Sample {
    let a = cell_value(data, nodata, width, height, r, c);
    let b = cell_value(data, nodata, width, height, r, c + 1);
    let d = cell_value(data, nodata, width, height, r + 1, c);
    let e = cell_value(data, nodata, width, height, r + 1, c + 1);
    match (a, b, d, e) {
        (Some(a), Some(b), Some(d), Some(e)) => Sample::Blend(a, b, d, e),
        (Some(a), _, _, _) => Sample::Take(a),
        (None, Some(b), _, _) => Sample::Take(b),
        (None, None, Some(d), _) => Sample::Take(d),
        (None, None, None, Some(e)) => Sample::Take(e),
        (None, None, None, None) => Sample::Nothing,
    }
}

fn cell(
    data: &Vec<Real>,
    nodata: &Vec<bool>,
    width: usize,
    height: usize,
    r: i64,
    c: i64,
) -> (v: Option<Real>)
    requires
        data@.len() == width * height,
        nodata@.len() == data@.len(),
    ensures
        v == cell_value(data@, nodata@, width as int, height as int, r as int, c as int),
{
    if r < 0 || c < 0 || r as u64 >= height as u64 || c as u64 >= width as u64 {
        return None;
    }
    let row: usize = r as usize;
    let col: usize = c as usize;
    let len: usize = data.len();
    proof {
        assert(0 <= row * width && row * width + col < len) by (nonlinear_arith)
            requires
                0 <= row < height,
                0 <= col < width,
                len == width * height,
        ;
    }
    let at: usize = row * width + col;
    let value = data[at];
    if !nodata[at] && value.is_finite() {
        Some(value)
    } else {
        None
    }
}

/// What a value between four cells comes from; `nodata` says which cells
/// have none.
pub fn sample(
    data: &Vec<Real>,
    nodata: &Vec<bool>,
    width: usize,
    height: usize,
    r: i64,
    c: i64,
) -> (s: Sample)
    requires
        data@.len() == width * height,
        nodata@.len() == data@.len(),
        r < i64::MAX,
        c < i64::MAX,
    ensures
        s == sampled(data@, nodata@, width as int, height as int, r as int, c as int),
{
    let a = cell(data, nodata, width, height, r, c);
    let b = cell(data, nodata, width, height, r, c + 1);
    let d = cell(data, nodata, width, height, r + 1, c);
    let e = cell(data, nodata, width, height, r + 1, c + 1);
    match (a, b, d, e) {
        (Some(a), Some(b), Some(d), Some(e)) => Sample::Blend(a, b, d, e),
        (Some(a), _, _, _) => Sample::Take(a),
        (None, Some(b), _, _) => Sample::Take(b),
        (None, None, Some(d), _) => Sample::Take(d),
        (None, None, None, Some(e)) => Sample::Take(e),
        (None, None, None, None) => Sample::Nothing,
    }
}

/// The values of a row's cells from `c0` on, before `c1`.
pub open spec fn row_values(
    data: Seq<Real>,
    nodata: Seq<bool>,
    width: int,
    height: int,
    r: int,
    c0: int,
    c1: int,
) -> Seq<Real>
    decreases c1 - c0,
{
    if c1 <= c0 {
        Seq::empty()
    } else {
        let before = row_values(data, nodata, width, height, r, c0, c1 - 1);
        match cell_value(data, nodata, width, height, r, c1 - 1) {
            Some(v) => before.push(v),
            None => before,
        }
    }
}

/// The values of a block's cells, row by row.
pub open spec fn block_values(
    data: Seq<Real>,
    nodata: Seq<bool>,
    width: int,
    height: int,
    rows: (int, int),
    cols: (int, int),
) -> Seq<Real>
    decreases rows.1 - rows.0,
{
    if rows.1 <= rows.0 {
        Seq::empty()
    } else {
        block_values(data, nodata, width, height, (rows.0, rows.1 - 1), cols) + row_values(
            data,
            nodata,
            width,
            height,
            rows.1 - 1,
            cols.0,
            cols.1,
        )
    }
}

/// The values that a coarser cell is the mean of: those of a block's cells,
/// row by row. A block without any has no value.
pub fn gather_block(
    data: &Vec<Real>,
    nodata: &Vec<bool>,
    width: usize,
    height: usize,
    rows: (usize, usize),
    cols: (usize, usize),
) -> (v: Vec<Real>)
    requires
        data@.len() == width * height,
        nodata@.len() == data@.len(),
        rows.1 <= height <= i64::MAX,
        cols.1 <= width <= i64::MAX,
    ensures
        v@ == block_values(
            data@,
            nodata@,
            width as int,
            height as int,
            (rows.0 as int, rows.1 as int),
            (cols.0 as int, cols.1 as int),
        ),
{
    let mut out: Vec<Real> = Vec::new();
    let mut r: usize = rows.0;
    while r < rows.1
        invariant
            data@.len() == width * height,
            nodata@.len() == data@.len(),
            rows.1 <= height <= i64::MAX,
            cols.1 <= width <= i64::MAX,
            rows.0 <= r,
            rows.0 <= rows.1 ==> r <= rows.1,
            rows.1 < rows.0 ==> r == rows.0,
            out@ == block_values(
                data@,
                nodata@,
                width as int,
                height as int,
                (rows.0 as int, r as int),
                (cols.0 as int, cols.1 as int),
            ),
        decreases rows.1 - r,
    {
        let ghost before = out@;
        assert(before + row_values(
            data@,
            nodata@,
            width as int,
            height as int,
            r as int,
            cols.0 as int,
            cols.0 as int,
        ) =~= before);
        let mut c: usize = cols.0;
        while c < cols.1
            invariant
                r < rows.1,
                data@.len() == width * height,
                nodata@.len() == data@.len(),
                rows.1 <= height <= i64::MAX,
                cols.1 <= width <= i64::MAX,
                cols.0 <= c,
                cols.0 <= cols.1 ==> c <= cols.1,
                cols.1 < cols.0 ==> c == cols.0,
                out@ == before + row_values(
                    data@,
                    nodata@,
                    width as int,
                    height as int,
                    r as int,
                    cols.0 as int,
                    c as int,
                ),
            decreases cols.1 - c,
        {
            let ghost so_far = out@;
            if let Some(v) = cell(data, nodata, width, height, r as i64, c as i64) {
                out.push(v);
            }
            assert(out@ =~= before + row_values(
                data@,
                nodata@,
                width as int,
                height as int,
                r as int,
                cols.0 as int,
                c + 1,
            ));
            c = c + 1;
        }
        assert(row_values(
            data@,
            nodata@,
            width as int,
            height as int,
            r as int,
            cols.0 as int,
            c as int,
        ) == row_values(
            data@,
            nodata@,
            width as int,
            height as int,
            r as int,
            cols.0 as int,
            cols.1 as int,
        ));
        r = r + 1;
    }
    out
}

/// A sample never comes from a cell that has no value.
pub proof fn samples_have_values(
    data: Seq<Real>,
    nodata: Seq<bool>,
    width: int,
    height: int,
    r: int,
    c: int,
)
    ensures
        match sampled(data, nodata, width, height, r, c) {
            Sample::Blend(a, b, d, e) => a.finite() && b.finite() && d.finite() && e.finite(),
            Sample::Take(a) => a.finite(),
            Sample::Nothing => true,
        },
{
}

// Means.

/// The mean that is handed in can be asked of any values.
pub open spec fn averages_any<M: Fn(Vec<Real>) -> Real>(m: M) -> bool {
    forall|v: Vec<Real>| v@.len() > 0 ==> #[trigger] m.requires((v,))
}

/// The mean that is handed in gives `r` for some values.
pub open spec fn averages<M: Fn(Vec<Real>) -> Real>(
    m: M,
    values: Seq<Real>,
    v: Vec<Real>,
    r: Real,
) -> bool {
    v@ == values && m.ensures((v,), r)
}

/// A value is the mean of some, `none` where there are none.
pub open spec fn is_mean<M: Fn(Vec<Real>) -> Real>(
    m: M,
    values: Seq<Real>,
    none: Real,
    r: Real,
) -> bool {
    if values.len() == 0 {
        r == none
    } else {
        exists|v: Vec<Real>| #[trigger] averages(m, values, v, r)
    }
}

/// The mean of some values, `none` where there are none.
pub fn mean_of<M: Fn(Vec<Real>) -> Real>(m: &M, values: &Vec<Real>, none: Real) -> (r: Real)
    requires
        averages_any(*m),
    ensures
        is_mean(*m, values@, none, r),
{
    if values.len() == 0 {
        return none;
    }
    let mut own: Vec<Real> = Vec::new();
    for k in 0..values.len()
        invariant
            own@ == values@.take(k as int),
    {
        own.push(values[k]);
        assert(own@ =~= values@.take(k + 1));
    }
    assert(own@ =~= values@);
    let ghost given = own;
    let r = m(own);
    assert(averages(*m, values@, given, r));
    r
}

// Blocks of a resident raster.

/// The cells of a row or column that a block of `factor` from a start on
/// covers, kept inside the raster.
pub open spec fn block_span(start: int, factor: int, extent: int) -> (int, int) {
    (
        if start < 0 {
            0
        } else {
            start
        },
        if start + factor < 0 {
            0
        } else if start + factor > extent {
            extent
        } else {
            start + factor
        },
    )
}

/// The cells of a row or column that a block of `factor` from a start on
/// covers.
pub fn block_range(start: i64, factor: usize, extent: usize) -> (r: (usize, usize))
    requires
        factor <= i64::MAX,
        start + factor <= i64::MAX,
        start <= usize::MAX,
        extent <= i64::MAX,
    ensures
        (r.0 as int, r.1 as int) == block_span(start as int, factor as int, extent as int),
{
    let first: usize = if start < 0 {
        0
    } else {
        start as usize
    };
    let end: i64 = start + factor as i64;
    let last: usize = if end < 0 {
        0
    } else if end as u64 > extent as u64 {
        extent
    } else {
        end as usize
    };
    (first, last)
}

/// A cell of a thinned raster is the mean of the block from a row and a
/// column on.
pub open spec fn is_thinned_cell<M: Fn(Vec<Real>) -> Real>(
    m: M,
    data: Seq<Real>,
    nodata: Seq<bool>,
    width: int,
    height: int,
    factor: int,
    start: (int, int),
    none: Real,
    r: Real,
) -> bool {
    is_mean(
        m,
        block_values(
            data,
            nodata,
            width,
            height,
            block_span(start.0, factor, height),
            block_span(start.1, factor, width),
        ),
        none,
        r,
    )
}

/// The starts of blocks of `factor` can be counted on.
pub open spec fn countable(starts: Seq<i64>, factor: int) -> bool {
    forall|k: int|
        0 <= k < starts.len() ==> (#[trigger] starts[k]) + factor <= i64::MAX && starts[k]
            <= usize::MAX
}

/// A plane thinned to a window: its rows and columns start at `starts_r`
/// and `starts_c` of the plane, each cell the mean of a block of `factor`
/// by `factor`, `none` where the block has no value.
pub fn sample_level<M: Fn(Vec<Real>) -> Real>(
    m: &M,
    data: &Vec<Real>,
    nodata: &Vec<bool>,
    width: usize,
    height: usize,
    starts_r: &Vec<i64>,
    starts_c: &Vec<i64>,
    factor: usize,
    none: Real,
) -> (r: Vec<Real>)
    requires
        averages_any(*m),
        data@.len() == width * height,
        nodata@.len() == data@.len(),
        width <= i64::MAX,
        height <= i64::MAX,
        factor <= i64::MAX,
        countable(starts_r@, factor as int),
        countable(starts_c@, factor as int),
    ensures
        r@.len() == starts_r@.len() * starts_c@.len(),
        forall|row: int, col: int|
            0 <= row < starts_r@.len() && 0 <= col < starts_c@.len() ==> is_thinned_cell(
                *m,
                data@,
                nodata@,
                width as int,
                height as int,
                factor as int,
                (starts_r@[row] as int, starts_c@[col] as int),
                none,
                #[trigger] r@[row * starts_c@.len() + col],
            ),
{
    let mut r: Vec<Real> = Vec::new();
    let rows: usize = starts_r.len();
    let cols: usize = starts_c.len();
    assert(0 * cols == 0);
    for row in 0..rows
        invariant
            averages_any(*m),
            data@.len() == width * height,
            nodata@.len() == data@.len(),
            width <= i64::MAX,
            height <= i64::MAX,
            factor <= i64::MAX,
            countable(starts_r@, factor as int),
            countable(starts_c@, factor as int),
            rows == starts_r@.len(),
            cols == starts_c@.len(),
            r@.len() == row * cols,
            forall|p: int|
                0 <= p < r@.len() ==> is_thinned_cell(
                    *m,
                    data@,
                    nodata@,
                    width as int,
                    height as int,
                    factor as int,
                    (starts_r@[p / cols as int] as int, starts_c@[p % cols as int] as int),
                    none,
                    #[trigger] r@[p],
                ),
    {
        assert(starts_r@[row as int] + factor <= i64::MAX);
        let across = block_range(starts_r[row], factor, height);
        for col in 0..cols
            invariant
                averages_any(*m),
                data@.len() == width * height,
                nodata@.len() == data@.len(),
                width <= i64::MAX,
                height <= i64::MAX,
                factor <= i64::MAX,
                countable(starts_c@, factor as int),
                rows == starts_r@.len(),
                cols == starts_c@.len(),
                row < rows,
                (across.0 as int, across.1 as int) == block_span(
                    starts_r@[row as int] as int,
                    factor as int,
                    height as int,
                ),
                r@.len() == row * cols + col,
                forall|p: int|
                    0 <= p < r@.len() ==> is_thinned_cell(
                        *m,
                        data@,
                        nodata@,
                        width as int,
                        height as int,
                        factor as int,
                        (starts_r@[p / cols as int] as int, starts_c@[p % cols as int] as int),
                        none,
                        #[trigger] r@[p],
                    ),
        {
            assert(starts_c@[col as int] + factor <= i64::MAX);
            let down = block_range(starts_c[col], factor, width);
            let values = gather_block(data, nodata, width, height, across, down);
            proof {
                vstd::arithmetic::div_mod::lemma_fundamental_div_mod_converse(
                    row * cols + col,
                    cols as int,
                    row as int,
                    col as int,
                );
            }
            r.push(mean_of(m, &values, none));
        }
        assert(row * cols + cols == (row + 1) * cols) by (nonlinear_arith);
    }
    assert forall|row: int, col: int| 0 <= row < rows && 0 <= col < cols implies is_thinned_cell(
        *m,
        data@,
        nodata@,
        width as int,
        height as int,
        factor as int,
        (starts_r@[row] as int, starts_c@[col] as int),
        none,
        #[trigger] r@[row * cols + col],
    ) by {
        assert(0 <= row * cols + col < rows * cols) by (nonlinear_arith)
            requires
                0 <= row < rows,
                0 <= col < cols,
        ;
        vstd::arithmetic::div_mod::lemma_fundamental_div_mod_converse(
            row * cols + col,
            cols as int,
            row,
            col,
        );
        let p = row * cols + col;
        assert(is_thinned_cell(
            *m,
            data@,
            nodata@,
            width as int,
            height as int,
            factor as int,
            (starts_r@[p / cols as int] as int, starts_c@[p % cols as int] as int),
            none,
            r@[p],
        ));
    }
    r
}

} // verus!
