//! Kernels that read a cell's surroundings: a window that is widened by a
//! kernel's halo, computed and cropped back is that window of the whole.

use vstd::prelude::*;

use crate::chunk_ops;

verus! {

/// A kernel: what it makes of a plane of so many columns and rows at a row
/// and column.
pub type Kernel<T, U> = spec_fn(Seq<T>, int, int, int, int) -> U;

/// The cell of a plane, where it lies on it.
pub open spec fn cell_at<T>(plane: Seq<T>, cols: int, rows: int, r: int, c: int) -> Option<T> {
    if 0 <= r < rows && 0 <= c < cols {
        Some(plane[r * cols + c])
    } else {
        None
    }
}

/// A place in a plane.
pub struct Spot<T> {
    pub plane: Seq<T>,
    pub cols: int,
    pub rows: int,
    pub r: int,
    pub c: int,
}

/// Two places look the same so many rows and columns away.
pub open spec fn look_the_same<T>(a: Spot<T>, b: Spot<T>, dr: int, dc: int) -> bool {
    cell_at(a.plane, a.cols, a.rows, a.r + dr, a.c + dc) == cell_at(
        b.plane,
        b.cols,
        b.rows,
        b.r + dr,
        b.c + dc,
    )
}

/// Two places have the same surroundings up to a halo.
pub open spec fn same_around<T>(a: Spot<T>, b: Spot<T>, halo: int) -> bool {
    forall|dr: int, dc: int|
        -halo <= dr <= halo && -halo <= dc <= halo ==> #[trigger] look_the_same(a, b, dr, dc)
}

/// A kernel reads nothing beyond its halo: where the surroundings are the
/// same, so is what it makes.
pub open spec fn reads_within<T, U>(kernel: Kernel<T, U>, halo: int) -> bool {
    forall|a: Spot<T>, b: Spot<T>| #[trigger]
        same_around(a, b, halo) ==> kernel(a.plane, a.cols, a.rows, a.r, a.c) == kernel(
            b.plane,
            b.cols,
            b.rows,
            b.r,
            b.c,
        )
}

/// A part of a plane, by where it starts and its size.
pub struct Part {
    pub col0: int,
    pub row0: int,
    pub cols: int,
    pub rows: int,
}

impl Part {
    /// The part lies on a plane of so many columns and rows.
    pub open spec fn lies_on(self, width: int, height: int) -> bool {
        &&& 0 <= self.col0
        &&& 0 <= self.row0
        &&& 0 <= self.cols
        &&& 0 <= self.rows
        &&& self.col0 + self.cols <= width
        &&& self.row0 + self.rows <= height
    }

    /// The cells of the part.
    pub open spec fn of<T>(self, plane: Seq<T>, width: int) -> Seq<T> {
        chunk_ops::cut_out(plane, width, self.col0, self.row0, self.cols, self.rows)
    }

    /// The part widened by a halo, as far as the plane reaches.
    pub open spec fn widened(self, width: int, height: int, halo: int) -> Part {
        let left = if self.col0 < halo {
            0
        } else {
            self.col0 - halo
        };
        let top = if self.row0 < halo {
            0
        } else {
            self.row0 - halo
        };
        let right = if self.col0 + self.cols + halo > width {
            width
        } else {
            self.col0 + self.cols + halo
        };
        let bottom = if self.row0 + self.rows + halo > height {
            height
        } else {
            self.row0 + self.rows + halo
        };
        Part { col0: left, row0: top, cols: right - left, rows: bottom - top }
    }
}

/// A cell of a part has all of its surroundings there, up to a halo, that it
/// has in the plane.
pub open spec fn surroundings_are_there(
    width: int,
    height: int,
    part: Part,
    r: int,
    c: int,
    halo: int,
) -> bool {
    &&& 0 <= r < part.rows
    &&& 0 <= c < part.cols
    &&& r >= halo || part.row0 == 0
    &&& c >= halo || part.col0 == 0
    &&& r + halo < part.rows || part.row0 + part.rows == height
    &&& c + halo < part.cols || part.col0 + part.cols == width
}

proof fn parts_look_the_same<T>(
    plane: Seq<T>,
    width: int,
    height: int,
    part: Part,
    r: int,
    c: int,
    halo: int,
)
    requires
        part.lies_on(width, height),
        surroundings_are_there(width, height, part, r, c, halo),
    ensures
        same_around(
            Spot { plane: part.of(plane, width), cols: part.cols, rows: part.rows, r, c },
            Spot { plane, cols: width, rows: height, r: part.row0 + r, c: part.col0 + c },
            halo,
        ),
{
    let own = part.of(plane, width);
    let a = Spot { plane: own, cols: part.cols, rows: part.rows, r, c };
    let b = Spot { plane, cols: width, rows: height, r: part.row0 + r, c: part.col0 + c };
    assert forall|dr: int, dc: int|
        -halo <= dr <= halo && -halo <= dc <= halo implies #[trigger] look_the_same(
        a,
        b,
        dr,
        dc,
    ) by {
        let y = r + dr;
        let x = c + dc;
        let cols = part.cols;
        let rows = part.rows;
        if 0 <= y < rows && 0 <= x < cols {
            assert(0 <= y * cols + x < cols * rows) by (nonlinear_arith)
                requires
                    0 <= y < rows,
                    0 <= x < cols,
            ;
            vstd::arithmetic::div_mod::lemma_fundamental_div_mod_converse(y * cols + x, cols, y, x);
        }
    }
}

/// Seams do not show: what a kernel makes of a cell in a part of a plane
/// that holds the cell's surroundings is what it makes in the whole plane.
pub proof fn a_part_shows_no_seam<T, U>(
    kernel: Kernel<T, U>,
    plane: Seq<T>,
    width: int,
    height: int,
    part: Part,
    r: int,
    c: int,
    halo: int,
)
    requires
        reads_within(kernel, halo),
        part.lies_on(width, height),
        surroundings_are_there(width, height, part, r, c, halo),
    ensures
        kernel(part.of(plane, width), part.cols, part.rows, r, c) == kernel(
            plane,
            width,
            height,
            part.row0 + r,
            part.col0 + c,
        ),
{
    parts_look_the_same(plane, width, height, part, r, c, halo);
    let a = Spot { plane: part.of(plane, width), cols: part.cols, rows: part.rows, r, c };
    let b = Spot { plane, cols: width, rows: height, r: part.row0 + r, c: part.col0 + c };
    assert(same_around(a, b, halo));
}

/// What a kernel makes of every cell of a plane.
pub open spec fn applied<T, U>(kernel: Kernel<T, U>, plane: Seq<T>, cols: int, rows: int) -> Seq<U> {
    Seq::new((cols * rows) as nat, |p: int| kernel(plane, cols, rows, p / cols, p % cols))
}

proof fn cell_of_applied<T, U>(
    kernel: Kernel<T, U>,
    plane: Seq<T>,
    cols: int,
    rows: int,
    r: int,
    c: int,
)
    requires
        0 <= r < rows,
        0 <= c < cols,
    ensures
        0 <= r * cols + c < cols * rows,
        applied(kernel, plane, cols, rows)[r * cols + c] == kernel(plane, cols, rows, r, c),
{
    assert(0 <= r * cols + c < cols * rows) by (nonlinear_arith)
        requires
            0 <= r < rows,
            0 <= c < cols,
    ;
    vstd::arithmetic::div_mod::lemma_fundamental_div_mod_converse(r * cols + c, cols, r, c);
}

/// A window widened by a kernel's halo, computed and cropped back is that
/// window of the whole plane computed.
pub proof fn a_widened_window_is_seam_free<T, U>(
    kernel: Kernel<T, U>,
    plane: Seq<T>,
    width: int,
    height: int,
    window: Part,
    halo: int,
)
    requires
        0 <= halo,
        reads_within(kernel, halo),
        window.lies_on(width, height),
    ensures
        ({
            let wide = window.widened(width, height, halo);
            let inner = Part {
                col0: window.col0 - wide.col0,
                row0: window.row0 - wide.row0,
                ..window
            };
            inner.of(
                applied(kernel, wide.of(plane, width), wide.cols, wide.rows),
                wide.cols,
            ) == window.of(applied(kernel, plane, width, height), width)
        }),
{
    let wide = window.widened(width, height, halo);
    let inner = Part { col0: window.col0 - wide.col0, row0: window.row0 - wide.row0, ..window };
    let part = wide.of(plane, width);
    let a = inner.of(applied(kernel, part, wide.cols, wide.rows), wide.cols);
    let b = window.of(applied(kernel, plane, width, height), width);
    let cols = window.cols;
    let rows = window.rows;
    assert(wide.lies_on(width, height));
    assert forall|i: int| 0 <= i < a.len() implies a[i] == b[i] by {
        assert(cols > 0) by (nonlinear_arith)
            requires
                0 <= i < cols * rows,
                0 <= cols,
        ;
        let y = i / cols;
        let x = i % cols;
        vstd::arithmetic::div_mod::lemma_fundamental_div_mod(i, cols);
        assert(0 <= x < cols);
        assert(0 <= y < rows) by (nonlinear_arith)
            requires
                i == cols * y + x,
                0 <= i < cols * rows,
                0 <= x < cols,
                cols > 0,
        ;
        let r = inner.row0 + y;
        let c = inner.col0 + x;
        cell_of_applied(kernel, part, wide.cols, wide.rows, r, c);
        cell_of_applied(kernel, plane, width, height, window.row0 + y, window.col0 + x);
        assert(surroundings_are_there(width, height, wide, r, c, halo));
        a_part_shows_no_seam(kernel, plane, width, height, wide, r, c, halo);
        assert(wide.row0 + r == window.row0 + y && wide.col0 + c == window.col0 + x);
    }
    assert(a =~= b);
}

} // verus!
