//! Composites that need every value of a pixel at once: a window is reduced
//! strip by strip, so that only the stack of one strip is held.

use vstd::prelude::*;

use crate::chunk::RasterChunk;
use crate::composite;

verus! {

/// The most values of a stack that are held at once.
pub const STRIP_VALUE_BUDGET: usize = 16777216;

/// How many values the stack of one row holds.
pub open spec fn row_values(cols: usize, items: usize, bands: u16) -> int {
    cols * items * bands
}

/// How many rows a strip has: as many as the budget has room for, at least
/// one; all of them where a row holds nothing.
pub open spec fn strip_height(
    rows: usize,
    cols: usize,
    items: usize,
    bands: u16,
    budget: usize,
) -> int {
    let row = row_values(cols, items, bands);
    if row == 0 {
        rows as int
    } else if row > budget {
        1
    } else {
        budget as int / row
    }
}

/// The strips from a row on, each from a row up to another.
pub open spec fn strips_from(rows: int, height: int, at: int) -> Seq<(usize, usize)>
    decreases rows - at,
{
    if at >= rows || height <= 0 {
        Seq::empty()
    } else {
        let end = if at + height < rows {
            at + height
        } else {
            rows
        };
        seq![(at as usize, end as usize)] + strips_from(rows, height, end)
    }
}

fn height_of(rows: usize, cols: usize, items: usize, bands: u16, budget: usize) -> (h: usize)
    ensures
        h == strip_height(rows, cols, items, bands, budget),
{
    if cols == 0 || items == 0 || bands == 0 {
        assert(cols * items * bands == 0) by (nonlinear_arith)
            requires
                cols == 0 || items == 0 || bands == 0,
        ;
        return rows;
    }
    let ghost pair = cols * items;
    assert(pair >= 1) by (nonlinear_arith)
        requires
            pair == cols * items,
            cols >= 1,
            items >= 1,
    ;
    assert(pair * bands >= pair) by (nonlinear_arith)
        requires
            pair >= 1,
            bands >= 1,
    ;
    match cols.checked_mul(items) {
        None => 1,
        Some(pair) => match pair.checked_mul(bands as usize) {
            None => 1,
            Some(row) => if row > budget {
                1
            } else {
                budget / row
            },
        },
    }
}

/// The strips in which a window is reduced over a number of items.
pub fn plan_strips(rows: usize, cols: usize, items: usize, bands: u16, budget: usize) -> (r: Vec<
    (usize, usize),
>)
    ensures
        r@ == strips_from(
            rows as int,
            strip_height(rows, cols, items, bands, budget),
            0,
        ),
{
    let h: usize = height_of(rows, cols, items, bands, budget);
    let ghost whole = strips_from(rows as int, h as int, 0);
    let mut r: Vec<(usize, usize)> = Vec::new();
    if rows == 0 {
        return r;
    }
    proof {
        height_is_some(rows, cols, items, bands, budget);
    }
    let mut at: usize = 0;
    assert(r@ + whole =~= whole);
    while at < rows
        invariant
            h > 0,
            at <= rows,
            whole == r@ + strips_from(rows as int, h as int, at as int),
        decreases rows - at,
    {
        let end: usize = if h < rows - at {
            at + h
        } else {
            rows
        };
        let ghost before = r@;
        let ghost rest = strips_from(rows as int, h as int, end as int);
        r.push((at, end));
        assert(r@ + rest =~= before + (seq![(at, end)] + rest));
        at = end;
    }
    assert(r@ + Seq::<(usize, usize)>::empty() =~= r@);
    r
}

proof fn height_is_some(rows: usize, cols: usize, items: usize, bands: u16, budget: usize)
    requires
        rows > 0,
    ensures
        strip_height(rows, cols, items, bands, budget) > 0,
{
    let row = row_values(cols, items, bands);
    assert(row >= 0) by (nonlinear_arith)
        requires
            row == cols * items * bands,
    ;
    if 0 < row <= budget {
        assert(budget as int / row >= 1) by (nonlinear_arith)
            requires
                0 < row <= budget,
        ;
    }
}

/// Strips, from a row up to another, follow each other from a row on up to
/// the last.
pub open spec fn follow_each_other(strips: Seq<(usize, usize)>, at: int, rows: int) -> bool
    decreases strips.len(),
{
    if strips.len() == 0 {
        at == rows
    } else {
        let (from, to) = strips[0];
        from == at && from < to <= rows && follow_each_other(strips.drop_first(), to as int, rows)
    }
}

/// The stack of a strip is within the budget, or the strip is one row.
pub open spec fn strip_fits(
    strip: (usize, usize),
    cols: usize,
    items: usize,
    bands: u16,
    budget: usize,
) -> bool {
    strip.1 - strip.0 == 1 || (strip.1 - strip.0) * row_values(cols, items, bands) <= budget
}

proof fn strips_cover(
    rows: usize,
    cols: usize,
    items: usize,
    bands: u16,
    budget: usize,
    height: int,
    at: int,
)
    requires
        rows > 0,
        height == strip_height(rows, cols, items, bands, budget),
        0 <= at <= rows,
    ensures
        ({
            let strips = strips_from(rows as int, height, at);
            &&& follow_each_other(strips, at, rows as int)
            &&& forall|k: int|
                0 <= k < strips.len() ==> strip_fits(
                    #[trigger] strips[k],
                    cols,
                    items,
                    bands,
                    budget,
                )
        }),
    decreases rows - at,
{
    let strips = strips_from(rows as int, height, at);
    height_is_some(rows, cols, items, bands, budget);
    if at < rows {
        let end = if at + height < rows {
            at + height
        } else {
            rows as int
        };
        strips_cover(rows, cols, items, bands, budget, height, end);
        let rest = strips_from(rows as int, height, end);
        assert(strips.drop_first() =~= rest);
        let row = row_values(cols, items, bands);
        let n = end - at;
        assert(row >= 0) by (nonlinear_arith)
            requires
                row == cols * items * bands,
        ;
        if row == 0 {
            assert(n * row == 0) by (nonlinear_arith)
                requires
                    row == 0,
            ;
        } else if row <= budget {
            assert(n * row <= budget) by (nonlinear_arith)
                requires
                    0 < n <= budget as int / row,
                    0 < row <= budget,
            ;
        }
        assert forall|k: int| 0 <= k < strips.len() implies strip_fits(
            #[trigger] strips[k],
            cols,
            items,
            bands,
            budget,
        ) by {
            if k > 0 {
                assert(strips[k] == rest[k - 1]);
            }
        }
    }
}

/// Strips cover a window row by row, none twice, each with at least one row
/// and, unless it is a single row, its whole stack within the budget.
pub proof fn strips_cover_a_window(
    rows: usize,
    cols: usize,
    items: usize,
    bands: u16,
    budget: usize,
)
    ensures
        ({
            let strips = strips_from(
                rows as int,
                strip_height(rows, cols, items, bands, budget),
                0,
            );
            &&& follow_each_other(strips, 0, rows as int)
            &&& forall|k: int|
                0 <= k < strips.len() ==> strip_fits(
                    #[trigger] strips[k],
                    cols,
                    items,
                    bands,
                    budget,
                )
        }),
{
    if rows > 0 {
        strips_cover(
            rows,
            cols,
            items,
            bands,
            budget,
            strip_height(rows, cols, items, bands, budget),
            0,
        );
    }
}

/// A chunk is some cells of another, from a cell on.
pub open spec fn is_part_of(part: RasterChunk, whole: RasterChunk, b: int, from: int, p: int) -> bool {
    part.bands@[b].data@[p] == whole.bands@[b].data@[from + p]
}

/// A pixel has the same stack in a strip as in the whole window.
pub proof fn strips_hold_the_same_stacks(
    parts: Seq<RasterChunk>,
    wholes: Seq<RasterChunk>,
    b: int,
    from: int,
    p: int,
    k: int,
)
    requires
        forall|i: int|
            0 <= i < k ==> is_part_of(#[trigger] parts[i], wholes[i], b, from, p),
    ensures
        composite::stack_at(parts, b, p, k) == composite::stack_at(wholes, b, from + p, k),
    decreases k,
{
    if k > 0 {
        strips_hold_the_same_stacks(parts, wholes, b, from, p, k - 1);
        assert(is_part_of(parts[k - 1], wholes[k - 1], b, from, p));
    }
}

} // verus!
