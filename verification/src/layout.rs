//! Row-major index arithmetic.
//!
//! A matrix keeps its cells in one flat buffer, row after row. This module
//! holds the mathematics of that layout: where a coordinate lands in the
//! buffer, and how the buffer is cut into rows.

use vstd::prelude::*;

verus! {

/// The linear offset of the cell at `(row, col)` in a row-major buffer
/// whose rows are `cols` cells wide.
pub open spec fn offset_of(cols: int, row: int, col: int) -> int {
    row * cols + col
}

/// How many pieces a buffer of `len` cells falls into when it is cut every
/// `width` cells. The last piece may be shorter than `width`.
pub open spec fn chunk_count(len: int, width: int) -> int {
    if width <= 0 || len <= 0 {
        0
    } else {
        (len + width - 1) / width
    }
}

/// Where the `i`-th piece begins.
pub open spec fn chunk_start(width: int, i: int) -> int {
    i * width
}

/// Where the `i`-th piece ends: one full width after its start, or at the
/// end of the buffer if that comes first.
pub open spec fn chunk_end(len: int, width: int, i: int) -> int {
    if (i + 1) * width <= len {
        (i + 1) * width
    } else {
        len
    }
}

/// The `i`-th piece of `s` when it is cut every `width` items.
pub open spec fn chunk<A>(s: Seq<A>, width: int, i: int) -> Seq<A> {
    s.subrange(chunk_start(width, i), chunk_end(s.len() as int, width, i))
}

/// A coordinate inside a `rows` by `cols` shape lands inside a buffer of
/// `rows * cols` cells.
pub proof fn lemma_offset_in_buffer(rows: int, cols: int, row: int, col: int)
    requires
        0 <= row < rows,
        0 <= col < cols,
    ensures
        0 <= offset_of(cols, row, col) < rows * cols,
{
    assert(0 <= row * cols + col < rows * cols) by (nonlinear_arith)
        requires
            0 <= row < rows,
            0 <= col < cols,
    ;
}

/// Two coordinates whose columns are both inside the width share an offset
/// only if they are the same coordinate.
pub proof fn lemma_offset_injective(cols: int, row1: int, col1: int, row2: int, col2: int)
    requires
        0 <= col1 < cols,
        0 <= col2 < cols,
        offset_of(cols, row1, col1) == offset_of(cols, row2, col2),
    ensures
        row1 == row2,
        col1 == col2,
{
    assert(row1 == row2 && col1 == col2) by (nonlinear_arith)
        requires
            0 <= col1 < cols,
            0 <= col2 < cols,
            row1 * cols + col1 == row2 * cols + col2,
    ;
}

/// Every piece but those past the end is in range, starts before it ends and
/// is at most `width` long; pieces follow one another without gap.
pub proof fn lemma_chunk_bounds(len: int, width: int, i: int)
    requires
        0 < width,
        0 <= i < chunk_count(len, width),
    ensures
        0 <= chunk_start(width, i) < chunk_end(len, width, i) <= len,
        chunk_end(len, width, i) - chunk_start(width, i) <= width,
        i + 1 < chunk_count(len, width) ==> chunk_end(len, width, i) == chunk_start(
            width,
            i + 1,
        ),
        i + 1 == chunk_count(len, width) ==> chunk_end(len, width, i) == len,
{
    let n = chunk_count(len, width);
    assert(n * width >= len && (n - 1) * width < len) by (nonlinear_arith)
        requires
            0 < width,
            0 < len,
            n == (len + width - 1) / width,
    ;
    assert(0 <= i * width && i * width <= (n - 1) * width && (i + 1) * width == i * width + width)
        by (nonlinear_arith)
        requires
            0 <= i <= n - 1,
            0 < width,
    ;
    if i + 1 < n {
        assert((i + 1) * width <= (n - 1) * width) by (nonlinear_arith)
            requires
                i + 1 <= n - 1,
                0 < width,
        ;
    } else {
        assert((i + 1) * width == n * width);
    }
}

/// A piece begins inside the buffer exactly when it is one of the pieces.
pub proof fn lemma_chunk_exists(len: int, width: int, i: int)
    requires
        0 < width,
        0 <= i,
        0 <= len,
    ensures
        i < chunk_count(len, width) <==> chunk_start(width, i) < len,
{
    if len > 0 {
        let n = chunk_count(len, width);
        assert(n * width >= len && (n - 1) * width < len) by (nonlinear_arith)
            requires
                0 < width,
                0 < len,
                n == (len + width - 1) / width,
        ;
        if i < n {
            assert(i * width <= (n - 1) * width) by (nonlinear_arith)
                requires
                    0 <= i <= n - 1,
                    0 < width,
            ;
        } else {
            assert(i * width >= n * width) by (nonlinear_arith)
                requires
                    i >= n,
                    0 < width,
            ;
        }
    } else {
        assert(i * width >= 0) by (nonlinear_arith)
            requires
                0 <= i,
                0 < width,
        ;
    }
}

/// A buffer of exactly `rows * cols` cells, cut every `cols` cells, falls
/// into `rows` pieces of `cols` cells each.
pub proof fn lemma_chunks_of_full_buffer(rows: int, cols: int)
    requires
        0 <= rows,
        0 < cols,
    ensures
        chunk_count(rows * cols, cols) == rows,
        forall|i: int|
            0 <= i < rows ==> #[trigger] chunk_end(rows * cols, cols, i) == chunk_start(cols, i)
                + cols,
{
    let len = rows * cols;
    assert(len >= 0 && (rows == 0 ==> len == 0) && (rows > 0 ==> len > 0)) by (nonlinear_arith)
        requires
            len == rows * cols,
            0 <= rows,
            0 < cols,
    ;
    if rows > 0 {
        assert((rows * cols + cols - 1) / cols == rows) by (nonlinear_arith)
            requires
                0 < cols,
        ;
    }
    assert forall|i: int| 0 <= i < rows implies #[trigger] chunk_end(rows * cols, cols, i)
        == chunk_start(cols, i) + cols by {
        assert((i + 1) * cols <= rows * cols && (i + 1) * cols == i * cols + cols)
            by (nonlinear_arith)
            requires
                0 <= i < rows,
                0 < cols,
        ;
    }
}

} // verus!
