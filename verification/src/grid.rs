//! Row-major grids.
//!
//! A grid of `width` columns and `height` rows stores the cell at column `x`
//! and row `y` at index `y * width + x` (see [`cell`]).
use vstd::prelude::*;

verus! {

/// Index of the cell at `col` in row `row` of a row-major grid whose rows are
/// `row_len` long.
pub open spec fn cell(row: int, col: int, row_len: int) -> int {
    row * row_len + col
}

/// The cells of a grid with `rows` rows of `row_len` cells lie in
/// `0 .. rows * row_len` (see [`lemma_cell_decompose`] for the converse).
pub proof fn lemma_cell_bounds(row: int, col: int, rows: int, row_len: int)
    requires
        0 <= row < rows,
        0 <= col < row_len,
    ensures
        0 <= cell(row, col, row_len) < rows * row_len,
        rows * row_len == row_len * rows,
{
    assert(row * row_len <= (rows - 1) * row_len) by (nonlinear_arith)
        requires
            0 <= row < rows,
            0 <= col < row_len,
    ;
    assert((rows - 1) * row_len == rows * row_len - row_len) by (nonlinear_arith);
    assert(rows * row_len == row_len * rows) by (nonlinear_arith);
    assert(0 <= row * row_len) by (nonlinear_arith)
        requires
            0 <= row,
            0 <= row_len,
    ;
}

/// A cell is its row times the row length plus its column.
pub proof fn lemma_cell_is_row_major(row: int, col: int, row_len: int)
    ensures
        cell(row, col, row_len) == row * row_len + col,
        cell(row, col + 1, row_len) == cell(row, col, row_len) + 1,
        cell(row + 1, col, row_len) == cell(row, col, row_len) + row_len,
{
    assert((row + 1) * row_len == row * row_len + row_len) by (nonlinear_arith);
}

/// Cells of earlier rows come before cells of later rows, and within a row
/// cells are ordered by column.
pub proof fn lemma_cell_order(r1: int, c1: int, r2: int, c2: int, row_len: int)
    requires
        0 <= c1 < row_len,
        0 <= c2 < row_len,
        r1 < r2 || (r1 == r2 && c1 < c2),
    ensures
        cell(r1, c1, row_len) < cell(r2, c2, row_len),
{
    if r1 < r2 {
        assert(r1 * row_len + row_len <= r2 * row_len) by (nonlinear_arith)
            requires
                r1 < r2,
                0 < row_len,
        ;
    }
}

/// A row-major grid is the transpose of another: its cell at column `y`,
/// row `x` is the other's cell at column `x`, row `y`.
pub open spec fn is_transpose<T>(out: Seq<T>, input: Seq<T>, width: int, height: int) -> bool {
    &&& out.len() == width * height
    &&& forall|x: int, y: int|
        0 <= x < width && 0 <= y < height ==> #[trigger] out[cell(x, y, height)] == input[cell(
            y,
            x,
            width,
        )]
}

/// Transposes the `width` by `height` grid held in the first `width * height`
/// entries of `input`: the result is a `height` by `width` grid whose cell at
/// column `y`, row `x` is the cell of `input` at column `x`, row `y`.
pub fn transpose<T: Copy>(input: &[T], width: usize, height: usize) -> (out: Vec<T>)
    requires
        width * height <= input@.len(),
    ensures
        is_transpose(out@, input@, width as int, height as int),
        forall|x: int, y: int|
            0 <= x < width && 0 <= y < height ==> #[trigger] out@[x * height + y] == input@[y * width
                + x],
{
    let n = input.len();
    let mut out: Vec<T> = Vec::with_capacity(width * height);
    let mut x: usize = 0;
    while x < width
        invariant
            width * height <= input@.len(),
            n == input@.len(),
            x <= width,
            out@.len() == x * height,
            forall|i: int, j: int|
                0 <= i < x && 0 <= j < height ==> #[trigger] out@[cell(i, j, height as int)]
                    == input@[cell(j, i, width as int)],
        decreases width - x,
    {
        let mut y: usize = 0;
        while y < height
            invariant
                width * height <= input@.len(),
                n == input@.len(),
                x < width,
                y <= height,
                out@.len() == x * height + y,
                forall|i: int, j: int|
                    0 <= i < x && 0 <= j < height ==> #[trigger] out@[cell(i, j, height as int)]
                        == input@[cell(j, i, width as int)],
                forall|j: int|
                    0 <= j < y ==> #[trigger] out@[cell(x as int, j, height as int)] == input@[cell(
                        j,
                        x as int,
                        width as int,
                    )],
            decreases height - y,
        {
            proof {
                lemma_cell_bounds(y as int, x as int, height as int, width as int);
            }
            let v = input[y * width + x];
            let ghost before = out@;
            out.push(v);
            proof {
                assert forall|i: int, j: int|
                    0 <= i < x && 0 <= j < height implies #[trigger] out@[cell(
                        i,
                        j,
                        height as int,
                    )] == input@[cell(j, i, width as int)] by {
                    lemma_cell_order(i, j, x as int, y as int, height as int);
                    lemma_cell_bounds(i, j, x as int, height as int);
                    assert(out@[cell(i, j, height as int)] == before[cell(i, j, height as int)]);
                }
                assert forall|j: int| 0 <= j < y + 1 implies #[trigger] out@[cell(
                    x as int,
                    j,
                    height as int,
                )] == input@[cell(j, x as int, width as int)] by {
                    if j < y {
                        lemma_cell_order(x as int, j, x as int, y as int, height as int);
                        assert(out@[cell(x as int, j, height as int)] == before[cell(
                            x as int,
                            j,
                            height as int,
                        )]);
                    }
                }
            }
            y = y + 1;
        }
        proof {
            assert(out@.len() == (x + 1) * height) by (nonlinear_arith)
                requires
                    out@.len() == x * height + height,
            ;
        }
        x = x + 1;
    }
    proof {
        assert forall|i: int, j: int|
            0 <= i < width && 0 <= j < height implies #[trigger] out@[i * height + j] == input@[j
                * width + i] by {
            assert(out@[cell(i, j, height as int)] == input@[cell(j, i, width as int)]);
        }
    }
    out
}


/// Every index below `rows * row_len` is the cell of exactly one row and
/// column.
pub proof fn lemma_cell_decompose(k: int, rows: int, row_len: int)
    requires
        0 <= rows,
        0 <= row_len,
        0 <= k < rows * row_len,
    ensures
        0 <= k / row_len < rows,
        0 <= k % row_len < row_len,
        k == cell(k / row_len, k % row_len, row_len),
{
    if row_len == 0 {
        assert(rows * row_len == 0);
    }
    vstd::arithmetic::div_mod::lemma_fundamental_div_mod(k, row_len);
    let q = k / row_len;
    let r = k % row_len;
    assert(0 <= r < row_len);
    assert(q * row_len == row_len * q) by (nonlinear_arith);
    assert(0 <= q) by (nonlinear_arith)
        requires
            k == row_len * q + r,
            0 <= k,
            0 <= r < row_len,
    ;
    assert(q < rows) by (nonlinear_arith)
        requires
            k == row_len * q + r,
            0 <= r,
            k < rows * row_len,
            row_len > 0,
    ;
}

/// Transposing a grid twice gives the grid back: a `height` by `width`
/// transpose of the `width` by `height` transpose of `grid` is `grid` (its
/// first `width * height` entries).
pub proof fn lemma_transpose_twice<T>(
    grid: Seq<T>,
    once: Seq<T>,
    twice: Seq<T>,
    width: int,
    height: int,
)
    requires
        0 <= width,
        0 <= height,
        width * height <= grid.len(),
        is_transpose(once, grid, width, height),
        is_transpose(twice, once, height, width),
    ensures
        twice == grid.subrange(0, width * height),
{
    assert(height * width == width * height) by (nonlinear_arith);
    assert forall|k: int| 0 <= k < width * height implies twice[k] == grid[k] by {
        lemma_cell_decompose(k, height, width);
        let y = k / width;
        let x = k % width;
        assert(twice[cell(y, x, width)] == once[cell(x, y, height)]);
    }
    assert(twice =~= grid.subrange(0, width * height));
}

/// The cell at row `row`, column `col` of the `2 * width` by `2 * height`
/// zero-padded copy of a `width` by `height` grid.
pub open spec fn padded_value<T>(
    data: Seq<T>,
    width: int,
    height: int,
    zero: T,
    row: int,
    col: int,
) -> T {
    if row < height && col < width {
        data[cell(row, col, width)]
    } else {
        zero
    }
}

/// Embeds the `width` by `height` grid held in the first `width * height`
/// entries of `data` in the top-left quarter of a `2 * width` by
/// `2 * height` grid whose other cells are `zero`.
pub fn pad_grid<T: Copy>(data: &[T], width: usize, height: usize, zero: T) -> (out: Vec<T>)
    requires
        width * height <= data@.len(),
        2 * width <= usize::MAX,
        2 * height <= usize::MAX,
        (2 * width) * (2 * height) <= usize::MAX,
    ensures
        out@.len() == (2 * width) * (2 * height),
        forall|row: int, col: int|
            0 <= row < 2 * height && 0 <= col < 2 * width ==> #[trigger] out@[cell(
                row,
                col,
                2 * width,
            )] == padded_value(data@, width as int, height as int, zero, row, col),
        forall|row: int, col: int|
            0 <= row < 2 * height && 0 <= col < 2 * width ==> #[trigger] out@[row * (2 * width) + col]
                == (if row < height && col < width {
                data@[row * width + col]
            } else {
                zero
            }),
{
    let n = data.len();
    let pw = 2 * width;
    let ph = 2 * height;
    let mut out: Vec<T> = Vec::with_capacity(pw * ph);
    let mut y: usize = 0;
    while y < ph
        invariant
            width * height <= data@.len(),
            n == data@.len(),
            pw == 2 * width,
            ph == 2 * height,
            pw * ph <= usize::MAX,
            y <= ph,
            out@.len() == y * pw,
            forall|r: int, c: int|
                0 <= r < y && 0 <= c < pw ==> #[trigger] out@[cell(r, c, pw as int)]
                    == padded_value(data@, width as int, height as int, zero, r, c),
        decreases ph - y,
    {
        let mut x: usize = 0;
        while x < pw
            invariant
                width * height <= data@.len(),
                n == data@.len(),
                pw == 2 * width,
                ph == 2 * height,
                y < ph,
                x <= pw,
                out@.len() == y * pw + x,
                forall|r: int, c: int|
                    0 <= r < y && 0 <= c < pw ==> #[trigger] out@[cell(r, c, pw as int)]
                        == padded_value(data@, width as int, height as int, zero, r, c),
                forall|c: int|
                    0 <= c < x ==> #[trigger] out@[cell(y as int, c, pw as int)] == padded_value(
                        data@,
                        width as int,
                        height as int,
                        zero,
                        y as int,
                        c,
                    ),
            decreases pw - x,
        {
            let v = if y < height && x < width {
                proof {
                    lemma_cell_bounds(y as int, x as int, height as int, width as int);
                }
                data[y * width + x]
            } else {
                zero
            };
            let ghost before = out@;
            out.push(v);
            proof {
                assert forall|r: int, c: int|
                    0 <= r < y && 0 <= c < pw implies #[trigger] out@[cell(r, c, pw as int)]
                    == padded_value(data@, width as int, height as int, zero, r, c) by {
                    lemma_cell_order(r, c, y as int, x as int, pw as int);
                    assert(out@[cell(r, c, pw as int)] == before[cell(r, c, pw as int)]);
                }
                assert forall|c: int| 0 <= c < x + 1 implies #[trigger] out@[cell(
                    y as int,
                    c,
                    pw as int,
                )] == padded_value(data@, width as int, height as int, zero, y as int, c) by {
                    if c < x {
                        lemma_cell_order(y as int, c, y as int, x as int, pw as int);
                        assert(out@[cell(y as int, c, pw as int)] == before[cell(
                            y as int,
                            c,
                            pw as int,
                        )]);
                    }
                }
            }
            x = x + 1;
        }
        proof {
            assert(out@.len() == (y + 1) * pw) by (nonlinear_arith)
                requires
                    out@.len() == y * pw + pw,
            ;
        }
        y = y + 1;
    }
    proof {
        assert(ph * pw == pw * ph) by (nonlinear_arith);
        assert forall|row: int, col: int|
            0 <= row < 2 * height && 0 <= col < 2 * width implies #[trigger] out@[row * (2 * width)
                + col] == (if row < height && col < width {
                data@[row * width + col]
            } else {
                zero
            }) by {
            lemma_padding_is_zero(data@, width as int, height as int, zero, row, col);
            assert(out@[cell(row, col, 2 * width)] == padded_value(
                data@,
                width as int,
                height as int,
                zero,
                row,
                col,
            ));
        }
    }
    out
}

/// The padded grid holds the grid in its top-left quarter and `zero`
/// everywhere else.
pub proof fn lemma_padding_is_zero<T>(data: Seq<T>, width: int, height: int, zero: T, row: int, col: int)
    ensures
        (row >= height || col >= width) ==> padded_value(data, width, height, zero, row, col) == zero,
        (0 <= row < height && 0 <= col < width) ==> padded_value(data, width, height, zero, row, col)
            == data[row * width + col],
{
}

/// Cuts the top-left `width` by `height` quarter out of a grid whose rows are
/// `2 * width` long.
pub fn crop_grid<T: Copy>(padded: &[T], width: usize, height: usize) -> (out: Vec<T>)
    requires
        2 * width <= usize::MAX,
        height * (2 * width) <= padded@.len(),
    ensures
        out@.len() == width * height,
        forall|row: int, col: int|
            0 <= row < height && 0 <= col < width ==> #[trigger] out@[cell(row, col, width as int)]
                == padded@[cell(row, col, 2 * width)],
        forall|row: int, col: int|
            0 <= row < height && 0 <= col < width ==> #[trigger] out@[row * width + col]
                == padded@[row * (2 * width) + col],
{
    let n = padded.len();
    let pw = 2 * width;
    proof {
        assert(width * height <= height * pw) by (nonlinear_arith)
            requires
                pw == 2 * width,
        ;
    }
    let mut out: Vec<T> = Vec::with_capacity(width * height);
    let mut y: usize = 0;
    while y < height
        invariant
            height * pw <= padded@.len(),
            n == padded@.len(),
            pw == 2 * width,
            y <= height,
            out@.len() == y * width,
            forall|r: int, c: int|
                0 <= r < y && 0 <= c < width ==> #[trigger] out@[cell(r, c, width as int)]
                    == padded@[cell(r, c, pw as int)],
        decreases height - y,
    {
        let mut x: usize = 0;
        while x < width
            invariant
                height * pw <= padded@.len(),
                n == padded@.len(),
                pw == 2 * width,
                y < height,
                x <= width,
                out@.len() == y * width + x,
                forall|r: int, c: int|
                    0 <= r < y && 0 <= c < width ==> #[trigger] out@[cell(r, c, width as int)]
                        == padded@[cell(r, c, pw as int)],
                forall|c: int|
                    0 <= c < x ==> #[trigger] out@[cell(y as int, c, width as int)]
                        == padded@[cell(y as int, c, pw as int)],
            decreases width - x,
        {
            proof {
                lemma_cell_bounds(y as int, x as int, height as int, pw as int);
            }
            let v = padded[y * pw + x];
            let ghost before = out@;
            out.push(v);
            proof {
                assert forall|r: int, c: int|
                    0 <= r < y && 0 <= c < width implies #[trigger] out@[cell(
                        r,
                        c,
                        width as int,
                    )] == padded@[cell(r, c, pw as int)] by {
                    lemma_cell_order(r, c, y as int, x as int, width as int);
                    assert(out@[cell(r, c, width as int)] == before[cell(r, c, width as int)]);
                }
                assert forall|c: int| 0 <= c < x + 1 implies #[trigger] out@[cell(
                    y as int,
                    c,
                    width as int,
                )] == padded@[cell(y as int, c, pw as int)] by {
                    if c < x {
                        lemma_cell_order(y as int, c, y as int, x as int, width as int);
                        assert(out@[cell(y as int, c, width as int)] == before[cell(
                            y as int,
                            c,
                            width as int,
                        )]);
                    }
                }
            }
            x = x + 1;
        }
        proof {
            assert(out@.len() == (y + 1) * width) by (nonlinear_arith)
                requires
                    out@.len() == y * width + width,
            ;
        }
        y = y + 1;
    }
    proof {
        assert(height * width == width * height) by (nonlinear_arith);
        assert forall|row: int, col: int|
            0 <= row < height && 0 <= col < width implies #[trigger] out@[row * width + col]
            == padded@[row * (2 * width) + col] by {
            assert(out@[cell(row, col, width as int)] == padded@[cell(row, col, pw as int)]);
        }
    }
    out
}

/// Cropping a zero-padded grid gives the grid back.
pub proof fn lemma_crop_of_pad<T>(
    data: Seq<T>,
    padded: Seq<T>,
    cropped: Seq<T>,
    width: int,
    height: int,
    zero: T,
)
    requires
        0 <= width,
        0 <= height,
        width * height <= data.len(),
        padded.len() == (2 * width) * (2 * height),
        forall|row: int, col: int|
            0 <= row < 2 * height && 0 <= col < 2 * width ==> #[trigger] padded[cell(
                row,
                col,
                2 * width,
            )] == padded_value(data, width, height, zero, row, col),
        cropped.len() == width * height,
        forall|row: int, col: int|
            0 <= row < height && 0 <= col < width ==> #[trigger] cropped[cell(row, col, width)]
                == padded[cell(row, col, 2 * width)],
    ensures
        cropped == data.subrange(0, width * height),
{
    assert forall|k: int| 0 <= k < width * height implies cropped[k] == data[k] by {
        assert(width * height == height * width) by (nonlinear_arith);
        lemma_cell_decompose(k, height, width);
        let y = k / width;
        let x = k % width;
        assert(cropped[cell(y, x, width)] == padded[cell(y, x, 2 * width)]);
        assert(padded[cell(y, x, 2 * width)] == padded_value(data, width, height, zero, y, x));
    }
    assert(cropped =~= data.subrange(0, width * height));
}

/// Interleaves two equally long columns into `x0, y0, x1, y1, ...`: the
/// result holds `xs[i]` at `2 * i` and `ys[i]` at `2 * i + 1`.
pub fn interleave<T: Copy>(xs: &[T], ys: &[T]) -> (out: Vec<T>)
    requires
        xs@.len() <= ys@.len(),
        2 * xs@.len() <= usize::MAX,
    ensures
        out@.len() == 2 * xs@.len(),
        forall|i: int|
            0 <= i < xs@.len() ==> #[trigger] out@[2 * i] == xs@[i] && out@[2 * i + 1] == ys@[i],
{
    let n = xs.len();
    let mut out: Vec<T> = Vec::with_capacity(n * 2);
    let mut i: usize = 0;
    while i < n
        invariant
            n == xs@.len(),
            n <= ys@.len(),
            i <= n,
            out@.len() == 2 * i,
            forall|j: int| 0 <= j < i ==> #[trigger] out@[2 * j] == xs@[j] && out@[2 * j + 1] == ys@[j],
        decreases n - i,
    {
        let ghost before = out@;
        out.push(xs[i]);
        out.push(ys[i]);
        assert forall|j: int| 0 <= j < i + 1 implies #[trigger] out@[2 * j] == xs@[j] && out@[2 * j
            + 1] == ys@[j] by {
            if j < i {
                assert(out@[2 * j] == before[2 * j]);
                assert(out@[2 * j + 1] == before[2 * j + 1]);
            }
        }
        i = i + 1;
    }
    out
}

/// The lower sample of the finite difference at `i`.
pub open spec fn span_lo(i: int) -> int {
    if i > 0 {
        i - 1
    } else {
        i
    }
}

/// The upper sample of the finite difference at `i` on a line of `len`.
pub open spec fn span_hi(len: int, i: int) -> int {
    if i + 1 < len {
        i + 1
    } else {
        i
    }
}

/// What the finite difference at `i` on a line of `len` is divided by.
pub open spec fn span_div(len: int, i: int) -> int {
    if i > 0 && i + 1 < len {
        2
    } else {
        1
    }
}

/// The two samples a finite difference at position `i` of a line of `len`
/// samples reads, and what their difference is divided by: the neighbours on
/// both sides (divided by 2) inside the line, the sample itself and its one
/// neighbour (divided by 1) at either end.
pub fn neighbour_span(len: usize, i: usize) -> (span: (usize, usize, usize))
    requires
        i < len,
    ensures
        span.0 == span_lo(i as int),
        span.1 == span_hi(len as int, i as int),
        span.2 == span_div(len as int, i as int),
        0 < i && i + 1 < len ==> span.0 == i - 1 && span.1 == i + 1 && span.2 == 2,
        i == 0 ==> span.0 == 0,
        i + 1 == len ==> span.1 == i,
        (i == 0 || i + 1 == len) ==> span.2 == 1,
{
    let lo = if i > 0 { i - 1 } else { i };
    let hi = if i + 1 < len { i + 1 } else { i };
    let div: usize = if i > 0 && i + 1 < len { 2 } else { 1 };
    (lo, hi, div)
}

/// On a line of at least two samples every finite difference divides by the
/// distance between the two samples it reads, both of which lie on the line
/// around `i`. (On a line of one sample it reads that sample twice and
/// divides by 1.)
/// Inside a line the finite difference is central: it reads the samples on
/// both sides and divides by 2; at an end it is one-sided and divides by 1.
pub proof fn lemma_span_central_inside(len: int, i: int)
    requires
        0 <= i < len,
    ensures
        0 < i < len - 1 ==> span_lo(i) == i - 1 && span_hi(len, i) == i + 1 && span_div(len, i) == 2,
        i == 0 ==> span_lo(i) == 0 && span_div(len, i) == 1,
        i == len - 1 ==> span_hi(len, i) == len - 1 && span_div(len, i) == 1,
{
}

pub proof fn lemma_span_matches_distance(len: int, i: int)
    requires
        0 <= i < len,
    ensures
        0 <= span_lo(i) <= i <= span_hi(len, i) < len,
        len >= 2 ==> span_hi(len, i) - span_lo(i) == span_div(len, i),
        len == 1 ==> span_lo(i) == span_hi(len, i),
{
}

/// The force field of a `width` by `height` potential, as [`calculate_forces`]
/// computes it: at each cell the `slope` between the two samples of the
/// finite difference along each axis.
pub open spec fn is_gradient<T, F: Fn(T, T, usize) -> T>(
    potential: Seq<T>,
    width: int,
    height: int,
    slope: F,
    row: int,
    col: int,
    fx: T,
    fy: T,
) -> bool {
    &&& call_ensures(
        slope,
        (
            potential[cell(row, span_hi(width, col), width)],
            potential[cell(row, span_lo(col), width)],
            span_div(width, col) as usize,
        ),
        fx,
    )
    &&& call_ensures(
        slope,
        (
            potential[cell(span_hi(height, row), col, width)],
            potential[cell(span_lo(row), col, width)],
            span_div(height, row) as usize,
        ),
        fy,
    )
}

/// Inside the grid the force is the central difference of the potential
/// along each axis: the slope between the cells on both sides, divided by 2;
/// on the border the difference is one-sided and divided by 1.
pub proof fn lemma_gradient_is_central_inside<T, F: Fn(T, T, usize) -> T>(
    potential: Seq<T>,
    width: int,
    height: int,
    slope: F,
    row: int,
    col: int,
    fx: T,
    fy: T,
)
    requires
        0 <= row < height,
        0 <= col < width,
        is_gradient(potential, width, height, slope, row, col, fx, fy),
    ensures
        0 < col < width - 1 ==> call_ensures(
            slope,
            (potential[row * width + col + 1], potential[row * width + col - 1], 2usize),
            fx,
        ),
        0 < row < height - 1 ==> call_ensures(
            slope,
            (potential[(row + 1) * width + col], potential[(row - 1) * width + col], 2usize),
            fy,
        ),
        col == 0 && width > 1 ==> call_ensures(
            slope,
            (potential[row * width + 1], potential[row * width], 1usize),
            fx,
        ),
        col == width - 1 && width > 1 ==> call_ensures(
            slope,
            (potential[row * width + col], potential[row * width + col - 1], 1usize),
            fx,
        ),
{
    lemma_cell_is_row_major(row, col, width);
    lemma_cell_is_row_major(row - 1, col, width);
    lemma_cell_is_row_major(row, col - 1, width);
    assert(cell(row + 1, col, width) == (row + 1) * width + col);
}

/// The gradient of the `width` by `height` potential held in the first
/// `width * height` entries of `potential`, by finite differences: at each
/// cell and along each axis, `slope(upper, lower, divisor)` of the samples
/// that [`neighbour_span`] picks. Returns the x and the y components.
pub fn calculate_forces<T: Copy, F: Fn(T, T, usize) -> T>(
    width: usize,
    height: usize,
    potential: &[T],
    slope: F,
) -> (forces: (Vec<T>, Vec<T>))
    requires
        width * height <= potential@.len(),
        forall|a: T, b: T, d: usize| slope.requires((a, b, d)),
    ensures
        forces.0@.len() == width * height,
        forces.1@.len() == width * height,
        forall|row: int, col: int|
            0 <= row < height && 0 <= col < width ==> is_gradient(
                potential@,
                width as int,
                height as int,
                slope,
                row,
                col,
                #[trigger] forces.0@[cell(row, col, width as int)],
                forces.1@[cell(row, col, width as int)],
            ),
{
    let n = potential.len();
    let mut fx: Vec<T> = Vec::with_capacity(width * height);
    let mut fy: Vec<T> = Vec::with_capacity(width * height);
    let mut y: usize = 0;
    while y < height
        invariant
            width * height <= potential@.len(),
            n == potential@.len(),
            forall|a: T, b: T, d: usize| slope.requires((a, b, d)),
            y <= height,
            fx@.len() == y * width,
            fy@.len() == y * width,
            forall|r: int, c: int|
                0 <= r < y && 0 <= c < width ==> is_gradient(
                    potential@,
                    width as int,
                    height as int,
                    slope,
                    r,
                    c,
                    #[trigger] fx@[cell(r, c, width as int)],
                    fy@[cell(r, c, width as int)],
                ),
        decreases height - y,
    {
        let (top, bottom, dy_div) = neighbour_span(height, y);
        let mut x: usize = 0;
        while x < width
            invariant
                width * height <= potential@.len(),
                n == potential@.len(),
                forall|a: T, b: T, d: usize| slope.requires((a, b, d)),
                y < height,
                x <= width,
                top == span_lo(y as int),
                bottom == span_hi(height as int, y as int),
                dy_div == span_div(height as int, y as int),
                fx@.len() == y * width + x,
                fy@.len() == y * width + x,
                forall|r: int, c: int|
                    0 <= r < y && 0 <= c < width ==> is_gradient(
                        potential@,
                        width as int,
                        height as int,
                        slope,
                        r,
                        c,
                        #[trigger] fx@[cell(r, c, width as int)],
                        fy@[cell(r, c, width as int)],
                    ),
                forall|c: int|
                    0 <= c < x ==> is_gradient(
                        potential@,
                        width as int,
                        height as int,
                        slope,
                        y as int,
                        c,
                        #[trigger] fx@[cell(y as int, c, width as int)],
                        fy@[cell(y as int, c, width as int)],
                    ),
            decreases width - x,
        {
            let (left, right, dx_div) = neighbour_span(width, x);
            proof {
                lemma_cell_bounds(y as int, left as int, height as int, width as int);
                lemma_cell_bounds(y as int, right as int, height as int, width as int);
                lemma_cell_bounds(top as int, x as int, height as int, width as int);
                lemma_cell_bounds(bottom as int, x as int, height as int, width as int);
            }
            let gx = slope(potential[y * width + right], potential[y * width + left], dx_div);
            let gy = slope(potential[bottom * width + x], potential[top * width + x], dy_div);
            let ghost bx = fx@;
            let ghost by = fy@;
            fx.push(gx);
            fy.push(gy);
            proof {
                assert forall|r: int, c: int|
                    0 <= r < y && 0 <= c < width implies is_gradient(
                        potential@,
                        width as int,
                        height as int,
                        slope,
                        r,
                        c,
                        #[trigger] fx@[cell(r, c, width as int)],
                        fy@[cell(r, c, width as int)],
                    ) by {
                    lemma_cell_order(r, c, y as int, x as int, width as int);
                    assert(fx@[cell(r, c, width as int)] == bx[cell(r, c, width as int)]);
                    assert(fy@[cell(r, c, width as int)] == by[cell(r, c, width as int)]);
                }
                assert forall|c: int| 0 <= c < x + 1 implies is_gradient(
                    potential@,
                    width as int,
                    height as int,
                    slope,
                    y as int,
                    c,
                    #[trigger] fx@[cell(y as int, c, width as int)],
                    fy@[cell(y as int, c, width as int)],
                ) by {
                    if c < x {
                        lemma_cell_order(y as int, c, y as int, x as int, width as int);
                        assert(fx@[cell(y as int, c, width as int)] == bx[cell(y as int, c, width as int)]);
                        assert(fy@[cell(y as int, c, width as int)] == by[cell(y as int, c, width as int)]);
                    }
                }
            }
            x = x + 1;
        }
        proof {
            assert(fx@.len() == (y + 1) * width) by (nonlinear_arith)
                requires
                    fx@.len() == y * width + width,
            ;
        }
        y = y + 1;
    }
    proof {
        assert(height * width == width * height) by (nonlinear_arith);
    }
    (fx, fy)
}

/// The four cells a bilinear sample in cell (`col`, `row`) of a `width` by
/// `height` grid touches, in the order top-left, top-right, bottom-left,
/// bottom-right; at the last column or row the right or bottom neighbour is
/// the cell itself.
pub fn cell_corners(width: usize, height: usize, col: usize, row: usize) -> (corners: (
    usize,
    usize,
    usize,
    usize,
))
    requires
        col < width,
        row < height,
        width * height <= usize::MAX,
    ensures
        ({
            let next_col = if col + 1 < width { col + 1 } else { width - 1 };
            let next_row = if row + 1 < height { row + 1 } else { height - 1 };
            &&& corners.0 == cell(row as int, col as int, width as int)
            &&& corners.1 == cell(row as int, next_col, width as int)
            &&& corners.2 == cell(next_row, col as int, width as int)
            &&& corners.3 == cell(next_row, next_col, width as int)
        }),
        corners.0 < width * height,
        corners.1 < width * height,
        corners.2 < width * height,
        corners.3 < width * height,
{
    let next_col = if col + 1 < width { col + 1 } else { width - 1 };
    let next_row = if row + 1 < height { row + 1 } else { height - 1 };
    proof {
        lemma_cell_bounds(row as int, col as int, height as int, width as int);
        lemma_cell_bounds(row as int, next_col as int, height as int, width as int);
        lemma_cell_bounds(next_row as int, col as int, height as int, width as int);
        lemma_cell_bounds(next_row as int, next_col as int, height as int, width as int);
    }
    (row * width + col, row * width + next_col, next_row * width + col, next_row * width + next_col)
}

/// The signed distance from the origin that column (or row) `x` of a
/// periodic grid of `2 * width` columns stands for: `x` in the first half,
/// `x - 2 * width` in the second.
pub fn wrapped_offset(width: usize, x: usize) -> (offset: i64)
    requires
        x < 2 * width,
        2 * width <= i64::MAX,
    ensures
        offset == wrapped(width as int, x as int),
{
    if x < width {
        x as i64
    } else {
        x as i64 - 2 * (width as i64)
    }
}

/// The signed offset of column `x` on a periodic line of `2 * width`.
pub open spec fn wrapped(width: int, x: int) -> int {
    if x < width {
        x
    } else {
        x - 2 * width
    }
}

/// A wrapped offset is the one representative of `x` modulo `2 * width` that
/// lies in `-width .. width`.
pub proof fn lemma_wrapped_is_centred_residue(width: int, x: int)
    requires
        0 <= x < 2 * width,
    ensures
        -width <= wrapped(width, x) < width,
        wrapped(width, x) == x || wrapped(width, x) == x - 2 * width,
        x < width ==> wrapped(width, x) == x,
{
}

/// The convolution kernel of a `width` by `height` grid, laid out on the
/// `2 * width` by `2 * height` periodic grid the convolution runs on: the
/// cell at column `x`, row `y` holds `term` of the signed offsets that `x`
/// and `y` stand for ([`wrapped_offset`]).
pub fn generate_kernel_padded<T: Copy, F: Fn(i64, i64) -> T>(
    width: usize,
    height: usize,
    term: F,
) -> (kernel: Vec<T>)
    requires
        2 * width <= i64::MAX,
        2 * height <= i64::MAX,
        2 * width <= usize::MAX,
        2 * height <= usize::MAX,
        (2 * width) * (2 * height) <= usize::MAX,
        forall|dx: i64, dy: i64| term.requires((dx, dy)),
    ensures
        kernel@.len() == (2 * width) * (2 * height),
        forall|row: int, col: int|
            0 <= row < 2 * height && 0 <= col < 2 * width ==> call_ensures(
                term,
                (wrapped(width as int, col) as i64, wrapped(height as int, row) as i64),
                #[trigger] kernel@[cell(row, col, 2 * width)],
            ),
{
    let pw = 2 * width;
    let ph = 2 * height;
    let mut out: Vec<T> = Vec::with_capacity(pw * ph);
    let mut y: usize = 0;
    while y < ph
        invariant
            pw == 2 * width,
            ph == 2 * height,
            2 * width <= i64::MAX,
            2 * height <= i64::MAX,
            pw * ph <= usize::MAX,
            forall|dx: i64, dy: i64| term.requires((dx, dy)),
            y <= ph,
            out@.len() == y * pw,
            forall|r: int, c: int|
                0 <= r < y && 0 <= c < pw ==> call_ensures(
                    term,
                    (wrapped(width as int, c) as i64, wrapped(height as int, r) as i64),
                    #[trigger] out@[cell(r, c, pw as int)],
                ),
        decreases ph - y,
    {
        let dy = wrapped_offset(height, y);
        let mut x: usize = 0;
        while x < pw
            invariant
                pw == 2 * width,
                ph == 2 * height,
                2 * width <= i64::MAX,
                2 * height <= i64::MAX,
                forall|dx: i64, dy: i64| term.requires((dx, dy)),
                y < ph,
                x <= pw,
                dy == wrapped(height as int, y as int),
                out@.len() == y * pw + x,
                forall|r: int, c: int|
                    0 <= r < y && 0 <= c < pw ==> call_ensures(
                        term,
                        (wrapped(width as int, c) as i64, wrapped(height as int, r) as i64),
                        #[trigger] out@[cell(r, c, pw as int)],
                    ),
                forall|c: int|
                    0 <= c < x ==> call_ensures(
                        term,
                        (wrapped(width as int, c) as i64, wrapped(height as int, y as int) as i64),
                        #[trigger] out@[cell(y as int, c, pw as int)],
                    ),
            decreases pw - x,
        {
            let dx = wrapped_offset(width, x);
            let v = term(dx, dy);
            let ghost before = out@;
            out.push(v);
            proof {
                assert forall|r: int, c: int| 0 <= r < y && 0 <= c < pw implies call_ensures(
                    term,
                    (wrapped(width as int, c) as i64, wrapped(height as int, r) as i64),
                    #[trigger] out@[cell(r, c, pw as int)],
                ) by {
                    lemma_cell_order(r, c, y as int, x as int, pw as int);
                    assert(out@[cell(r, c, pw as int)] == before[cell(r, c, pw as int)]);
                }
                assert forall|c: int| 0 <= c < x + 1 implies call_ensures(
                    term,
                    (wrapped(width as int, c) as i64, wrapped(height as int, y as int) as i64),
                    #[trigger] out@[cell(y as int, c, pw as int)],
                ) by {
                    if c < x {
                        lemma_cell_order(y as int, c, y as int, x as int, pw as int);
                        assert(out@[cell(y as int, c, pw as int)] == before[cell(y as int, c, pw as int)]);
                    }
                }
            }
            x = x + 1;
        }
        proof {
            assert(out@.len() == (y + 1) * pw) by (nonlinear_arith)
                requires
                    out@.len() == y * pw + pw,
            ;
        }
        y = y + 1;
    }
    proof {
        assert(ph * pw == pw * ph) by (nonlinear_arith);
    }
    out
}

/// Wrapped offsets lie in `-width .. width`, and columns `x` and `2 * width - x`
/// stand for opposite offsets, except at `x == width`, which stands for
/// `-width` and is its own mirror.
pub proof fn lemma_wrapped_offset_symmetric(width: int, x: int)
    requires
        0 < x < 2 * width,
        x != width,
    ensures
        -width <= wrapped(width, x) < width,
        wrapped(width, 2 * width - x) == -wrapped(width, x),
{
}

} // verus!
