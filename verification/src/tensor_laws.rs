//! What a convolution makes of a tensor, cell by cell.

use vstd::prelude::*;

use crate::chunk_ops;
use crate::tensor;
use crate::tensor::Offset;

verus! {

/// The bits of single precision's one.
pub open spec fn one_32() -> u32 {
    0x3f80_0000
}

/// The arithmetic of numbers: a value times zero adds nothing, and a value
/// times one adds the value to nothing.
pub open spec fn adds_products<F: Fn(u32, u32, u32) -> u32>(f: F) -> bool {
    &&& forall|sum: u32, v: u32| #[trigger] tensor::mixed(f, sum, v, 0) == sum
    &&& forall|v: u32| #[trigger] tensor::mixed(f, 0, v, one_32()) == v
}

/// A kernel that is one at a row and a column, and zero elsewhere.
pub open spec fn is_single_tap(kernel: Seq<u32>, i: int, j: int) -> bool {
    &&& kernel.len() == 9
    &&& 0 <= i < 3
    &&& 0 <= j < 3
    &&& forall|y: int, x: int|
        0 <= y < 3 && 0 <= x < 3 ==> #[trigger] kernel[3 * y + x] == (if y == i && x == j {
            one_32()
        } else {
            0
        })
}

proof fn sum_of_single_tap<F: Fn(u32, u32, u32) -> u32>(
    f: F,
    kernel: Seq<u32>,
    plane: Seq<u32>,
    cols: int,
    rows: int,
    r: int,
    c: int,
    i: int,
    j: int,
    n: int,
)
    requires
        adds_products(f),
        is_single_tap(kernel, i, j),
        0 <= n <= 9,
    ensures
        ({
            let v = tensor::tap(plane, cols, rows, r + i - 1, c + j - 1);
            tensor::tap_sum(f, kernel, plane, cols, rows, r, c, n) == (if n <= 3 * i + j
                || tensor::is_nan_32(v) {
                0
            } else {
                v
            })
        }),
    decreases n,
{
    if n > 0 {
        sum_of_single_tap(f, kernel, plane, cols, rows, r, c, i, j, n - 1);
        let y = (n - 1) / 3;
        let x = (n - 1) % 3;
        assert(kernel[3 * y + x] == kernel[n - 1]);
        let before = tensor::tap_sum(f, kernel, plane, cols, rows, r, c, n - 1);
        let v = tensor::tap(plane, cols, rows, r + y - 1, c + x - 1);
        if y == i && x == j {
            assert(tensor::mixed(f, 0, v, one_32()) == v);
        } else {
            assert(tensor::mixed(f, before, v, 0) == before);
        }
    }
}

/// A kernel with one tap moves a plane: at every cell that has a value it
/// gives the value one row up for the upper row of taps, one column left for
/// the left column, and so on; nothing where that value is off the plane or
/// no number. Kernel rows go from top to bottom, and columns from left to
/// right.
pub proof fn a_single_tap_moves_the_plane<F: Fn(u32, u32, u32) -> u32>(
    f: F,
    kernel: Seq<u32>,
    plane: Seq<u32>,
    cols: int,
    rows: int,
    r: int,
    c: int,
    i: int,
    j: int,
)
    requires
        adds_products(f),
        is_single_tap(kernel, i, j),
        0 <= r < rows,
        0 <= c < cols,
        !tensor::is_nan_32(plane[r * cols + c]),
    ensures
        ({
            let made = tensor::convolved_cell(f, kernel, plane, cols, rows, r, c);
            let y = r + i - 1;
            let x = c + j - 1;
            if 0 <= y < rows && 0 <= x < cols && !tensor::is_nan_32(plane[y * cols + x]) {
                made == plane[y * cols + x]
            } else {
                made == 0
            }
        }),
{
    sum_of_single_tap(f, kernel, plane, cols, rows, r, c, i, j, 9);
}

/// Every tap is taken with its own value: the sum over a row or a column of
/// taps more is that sum carried on with those values, each times its tap.
pub proof fn every_tap_counts<F: Fn(u32, u32, u32) -> u32>(
    f: F,
    kernel: Seq<u32>,
    plane: Seq<u32>,
    cols: int,
    rows: int,
    r: int,
    c: int,
    n: int,
    made: u32,
)
    requires
        tensor::is_mixing(f),
        kernel.len() == 9,
        0 <= n < 9,
        0 <= r + n / 3 - 1 < rows,
        0 <= c + n % 3 - 1 < cols,
        ({
            let v = plane[(r + n / 3 - 1) * cols + (c + n % 3 - 1)];
            &&& !tensor::is_nan_32(v)
            &&& f.ensures(
                (tensor::tap_sum(f, kernel, plane, cols, rows, r, c, n), v, kernel[n]),
                made,
            )
        }),
    ensures
        tensor::tap_sum(f, kernel, plane, cols, rows, r, c, n + 1) == made,
{
    let v = plane[(r + n / 3 - 1) * cols + (c + n % 3 - 1)];
    let before = tensor::tap_sum(f, kernel, plane, cols, rows, r, c, n);
    let next = tensor::mixed(f, before, v, kernel[n]);
    assert(f.ensures((before, v, kernel[n]), next));
}

proof fn channel_length<F: Fn(u32, u32, u32) -> u32>(
    f: F,
    kernel: Seq<u32>,
    data: Seq<u32>,
    cols: int,
    rows: int,
    at: Offset,
    n: int,
)
    requires
        0 <= n,
    ensures
        tensor::convolved_channels(f, kernel, data, cols, rows, at, n).len() == n * (at.cols
            * at.rows),
    decreases n,
{
    assert(at.cols * at.rows >= 0) by (nonlinear_arith);
    if n > 0 {
        channel_length(f, kernel, data, cols, rows, at, n - 1);
        assert((n - 1) * (at.cols * at.rows) + at.cols * at.rows == n * (at.cols * at.rows))
            by (nonlinear_arith);
    } else {
        assert(0 * (at.cols * at.rows) == 0);
    }
}

proof fn element_of_channel<F: Fn(u32, u32, u32) -> u32>(
    f: F,
    kernel: Seq<u32>,
    data: Seq<u32>,
    cols: int,
    rows: int,
    at: Offset,
    n: int,
    channel: int,
    p: int,
)
    requires
        0 <= channel < n,
        0 <= p < at.cols * at.rows,
    ensures
        ({
            let all = tensor::convolved_channels(f, kernel, data, cols, rows, at, n);
            let k = channel * (at.cols * at.rows) + p;
            &&& 0 <= k < all.len()
            &&& all[k] == tensor::convolved_plane(
                f,
                kernel,
                chunk_ops::plane_of(data, channel, cols * rows),
                cols,
                rows,
                at,
            )[p]
        }),
    decreases n,
{
    let size = at.cols * at.rows;
    let all = tensor::convolved_channels(f, kernel, data, cols, rows, at, n);
    let before = tensor::convolved_channels(f, kernel, data, cols, rows, at, n - 1);
    channel_length(f, kernel, data, cols, rows, at, n);
    channel_length(f, kernel, data, cols, rows, at, n - 1);
    assert(0 <= channel * size + p < n * size) by (nonlinear_arith)
        requires
            0 <= channel < n,
            0 <= p < size,
    ;
    if channel < n - 1 {
        element_of_channel(f, kernel, data, cols, rows, at, n - 1, channel, p);
        assert(all[channel * size + p] == before[channel * size + p]);
    } else {
        assert(before.len() == channel * size);
    }
}

/// A convolved tensor holds at each row and column of each channel what the
/// kernel makes of the same channel there: the window starts at its offset,
/// and a kernel with one tap moves every channel alike.
pub proof fn every_channel_is_moved<F: Fn(u32, u32, u32) -> u32>(
    f: F,
    kernel: Seq<u32>,
    data: Seq<u32>,
    channels: int,
    cols: int,
    rows: int,
    at: Offset,
    channel: int,
    y: int,
    x: int,
    i: int,
    j: int,
)
    requires
        adds_products(f),
        is_single_tap(kernel, i, j),
        0 < cols,
        0 < rows,
        data.len() == channels * (cols * rows),
        0 <= channel < channels,
        0 <= y < at.rows,
        0 <= x < at.cols,
        0 <= at.row0 + y < rows,
        0 <= at.col0 + x < cols,
        !tensor::is_nan_32(
            data[channel * (cols * rows) + ((at.row0 + y) * cols + (at.col0 + x))],
        ),
    ensures
        ({
            let out = tensor::convolved_channels(f, kernel, data, cols, rows, at, channels);
            let made = out[channel * (at.cols * at.rows) + (y * at.cols + x)];
            let r = at.row0 + y + i - 1;
            let c = at.col0 + x + j - 1;
            let from = data[channel * (cols * rows) + (r * cols + c)];
            if 0 <= r < rows && 0 <= c < cols && !tensor::is_nan_32(from) {
                made == from
            } else {
                made == 0
            }
        }),
{
    let size = cols * rows;
    let plane = chunk_ops::plane_of(data, channel, size);
    let p = y * at.cols + x;
    let width = at.cols as int;
    assert(0 <= p < at.cols * at.rows) by (nonlinear_arith)
        requires
            p == y * at.cols + x,
            0 <= y < at.rows,
            0 <= x < at.cols,
    ;
    vstd::arithmetic::div_mod::lemma_fundamental_div_mod_converse(p, width, y, x);
    element_of_channel(f, kernel, data, cols, rows, at, channels, channel, p);
    assert(size >= 0) by (nonlinear_arith)
        requires
            size == cols * rows,
            cols > 0,
            rows > 0,
    ;
    chunk_ops::channels_fit(channel, channels, size);
    let r0 = at.row0 + y;
    let c0 = at.col0 + x;
    assert(0 <= r0 * cols + c0 < size) by (nonlinear_arith)
        requires
            size == cols * rows,
            0 <= r0 < rows,
            0 <= c0 < cols,
    ;
    assert(plane[r0 * cols + c0] == data[channel * size + (r0 * cols + c0)]);
    let r = r0 + i - 1;
    let c = c0 + j - 1;
    if 0 <= r < rows && 0 <= c < cols {
        assert(0 <= r * cols + c < size) by (nonlinear_arith)
            requires
                size == cols * rows,
                0 <= r < rows,
                0 <= c < cols,
        ;
        assert(plane[r * cols + c] == data[channel * size + (r * cols + c)]);
    }
    a_single_tap_moves_the_plane(f, kernel, plane, cols, rows, r0, c0, i, j);
}

} // verus!
