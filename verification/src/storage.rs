//! Storage and indexing: the matrix itself, its mathematical view, its
//! constructors and cell access.

use crate::layout::{
    chunk, chunk_count, chunk_end, chunk_start, lemma_chunk_bounds, lemma_chunk_exists,
    lemma_chunks_of_full_buffer, lemma_offset_in_buffer, lemma_offset_injective, offset_of,
};
use vstd::slice::slice_subrange;
use vstd::prelude::*;

verus! {

/// What a matrix is, mathematically: a declared shape and the cells of its
/// buffer in row-major order.
pub struct MatrixView<T> {
    pub rows: nat,
    pub cols: nat,
    pub cells: Seq<T>,
}

impl<T> MatrixView<T> {
    /// The buffer holds exactly one cell for every coordinate of the shape.
    ///
    /// `Matrix::new_empty` makes a filled matrix, and so does
    /// `Matrix::from_vec` from rows of one length. `Matrix::new` declares a
    /// shape and leaves the buffer empty: its result is filled only if the
    /// shape has no cell.
    pub open spec fn is_filled(self) -> bool {
        self.cells.len() == self.rows * self.cols
    }

    /// The offset of `(row, col)` in the buffer.
    pub open spec fn offset(self, row: int, col: int) -> int {
        offset_of(self.cols as int, row, col)
    }

    /// The buffer has a cell at the offset of `(row, col)`.
    pub open spec fn has_cell(self, row: int, col: int) -> bool {
        0 <= self.offset(row, col) < self.cells.len()
    }

    /// `(row, col)` lies inside the declared shape.
    pub open spec fn in_shape(self, row: int, col: int) -> bool {
        0 <= row < self.rows && 0 <= col < self.cols
    }

    /// The cell found at the offset of `(row, col)`, if the buffer reaches
    /// that far.
    pub open spec fn cell(self, row: int, col: int) -> Option<T> {
        if self.has_cell(row, col) {
            Some(self.cells[self.offset(row, col)])
        } else {
            None
        }
    }

    /// The same matrix with `value` written at the offset of `(row, col)`.
    pub open spec fn put(self, row: int, col: int, value: T) -> MatrixView<T>
        recommends
            self.has_cell(row, col),
    {
        MatrixView { cells: self.cells.update(self.offset(row, col), value), ..self }
    }

    /// Both matrices declare the same number of rows and of columns.
    pub open spec fn same_shape<U>(self, other: MatrixView<U>) -> bool {
        self.rows == other.rows && self.cols == other.cols
    }

    /// The number of row slices the buffer falls into.
    pub open spec fn row_count(self) -> int {
        chunk_count(self.cells.len() as int, self.cols as int)
    }

    /// The `i`-th row slice of the buffer.
    pub open spec fn row(self, i: int) -> Seq<T> {
        chunk(self.cells, self.cols as int, i)
    }

    /// All row slices, first to last.
    pub open spec fn row_slices(self) -> Seq<Seq<T>> {
        Seq::new(self.row_count() as nat, |i: int| self.row(i))
    }
}

/// `value` is what `T::default()` may return.
pub open spec fn is_default_value<T: Default>(value: T) -> bool {
    call_ensures(T::default, (), value)
}

/// The contents of each row, in order.
pub open spec fn row_views<T>(rows: Seq<Vec<T>>) -> Seq<Seq<T>> {
    rows.map_values(|r: Vec<T>| r@)
}

/// The message of the error that `set` and `apply` return.
pub const OUT_OF_BOUNDS: &'static str = "Index out of bounds";

/// A dense matrix: a shape and a flat buffer of cells in row-major order.
#[derive(Debug)]
pub struct Matrix<T> where T: Default {
    pub(crate) rows: usize,
    pub(crate) cols: usize,
    pub(crate) matrix: Vec<T>,
}

impl<T: Default> View for Matrix<T> {
    type V = MatrixView<T>;

    open(crate) spec fn view(&self) -> MatrixView<T> {
        MatrixView { rows: self.rows as nat, cols: self.cols as nat, cells: self.matrix@ }
    }
}

impl<T> Matrix<T> where T: Default + Copy + Clone {
    /// Declares a shape without allocating any cell.
    ///
    /// The result is not a zero matrix: its buffer is empty, so no
    /// coordinate has a cell until the matrix is replaced by a filled one.
    /// Use [`Matrix::new_empty`] for a matrix that is ready to use.
    pub fn new(rows: usize, cols: usize) -> (m: Self)
        ensures
            m@.rows == rows,
            m@.cols == cols,
            m@.cells == Seq::<T>::empty(),
    {
        Self { rows, cols, matrix: Vec::new() }
    }

    /// A matrix of the given shape whose every cell holds the default value.
    pub fn new_empty(rows: usize, cols: usize) -> (m: Self)
        requires
            rows * cols <= usize::MAX,
        ensures
            m@.rows == rows,
            m@.cols == cols,
            m@.is_filled(),
            forall|i: int| 0 <= i < m@.cells.len() ==> is_default_value(#[trigger] m@.cells[i]),
            forall|i: int, j: int|
                0 <= i < m@.cells.len() && 0 <= j < m@.cells.len() ==> m@.cells[i] == m@.cells[j],
    {
        Self::filled_with(rows, cols, T::default())
    }

    /// A matrix of the given shape whose every cell holds `value`.
    pub(crate) fn filled_with(rows: usize, cols: usize, value: T) -> (m: Self)
        requires
            rows * cols <= usize::MAX,
        ensures
            m@.rows == rows,
            m@.cols == cols,
            m@.cells == Seq::new((rows * cols) as nat, |i: int| value),
    {
        let n: usize = rows * cols;
        let mut cells: Vec<T> = Vec::with_capacity(n);
        let mut i: usize = 0;
        while i < n
            invariant
                i <= n,
                cells@ == Seq::new(i as nat, |k: int| value),
            decreases n - i,
        {
            cells.push(value);
            i += 1;
        }
        Self { rows, cols, matrix: cells }
    }

    /// Builds a matrix from its rows.
    ///
    /// The row count is the number of rows given and the column count is the
    /// length of the first row. The cells are the rows laid end to end. The
    /// lengths of the later rows are not compared with the first: when they
    /// all agree the matrix is filled, and when they do not the cells still
    /// lie end to end and the layout no longer matches the shape.
    pub fn from_vec(v: Vec<Vec<T>>) -> (m: Self)
        requires
            v.len() > 0,
        ensures
            m@.rows == v.len(),
            m@.cols == v[0].len(),
            m@.cells == row_views(v@).flatten(),
            (forall|i: int| 0 <= i < v.len() ==> (#[trigger] v[i]).len() == v[0].len())
                ==> m@.is_filled(),
    {
        let rows: usize = v.len();
        let cols: usize = v[0].len();
        let mut cells: Vec<T> = Vec::new();
        let mut i: usize = 0;
        while i < rows
            invariant
                rows == v.len(),
                i <= rows,
                cells@ == row_views(v@.take(i as int)).flatten(),
            decreases rows - i,
        {
            let row = &v[i];
            let ghost before = cells@;
            let mut j: usize = 0;
            while j < row.len()
                invariant
                    j <= row.len(),
                    cells@ == before + row@.take(j as int),
                decreases row.len() - j,
            {
                cells.push(row[j]);
                j += 1;
            }
            proof {
                let done = row_views(v@.take(i as int));
                assert(row@.take(row.len() as int) == row@);
                assert(v@.take(i + 1) == v@.take(i as int).push(v@[i as int]));
                assert(row_views(v@.take(i + 1)) == done.push(row@));
                done.lemma_flatten_push(row@);
            }
            i += 1;
        }
        proof {
            assert(v@.take(rows as int) == v@);
            if forall|i: int| 0 <= i < v.len() ==> (#[trigger] v[i]).len() == v[0].len() {
                lemma_flatten_uniform(row_views(v@), cols as nat);
            }
        }
        Self { rows, cols, matrix: cells }
    }
}

impl<T> Matrix<T> where T: Default {
    /// The declared number of rows.
    pub fn num_rows(&self) -> (n: usize)
        ensures
            n == self@.rows,
    {
        self.rows
    }

    /// The declared number of columns.
    pub fn num_cols(&self) -> (n: usize)
        ensures
            n == self@.cols,
    {
        self.cols
    }

    /// The declared shape, rows first.
    pub fn shape(&self) -> (s: (usize, usize))
        ensures
            s.0 == self@.rows,
            s.1 == self@.cols,
    {
        (self.rows, self.cols)
    }
}

impl<T> Matrix<T> where T: Default + Copy + Clone {
    /// The offset of `(row, col)`, or `None` if it does not fit in a `usize`.
    fn checked_index(&self, row: usize, col: usize) -> (r: Option<usize>)
        ensures
            r == (if self@.offset(row as int, col as int) <= usize::MAX {
                Some(self@.offset(row as int, col as int) as usize)
            } else {
                None
            }),
    {
        match row.checked_mul(self.cols) {
            Some(base) => base.checked_add(col),
            None => {
                assert(row * self.cols + col > usize::MAX);
                None
            },
        }
    }

    /// Validates a coordinate against the shape and gives its offset.
    ///
    /// The result is `Some` exactly for the coordinates with
    /// `row < rows` and `col < cols` whose offset is representable; in a
    /// filled matrix that is every coordinate of the shape, and the offset
    /// then has a cell.
    pub fn index_inbounds(&self, row: usize, col: usize) -> (r: Option<usize>)
        ensures
            r == (if self@.in_shape(row as int, col as int) && self@.offset(row as int, col as int)
                <= usize::MAX {
                Some(self@.offset(row as int, col as int) as usize)
            } else {
                None
            }),
            self@.is_filled() ==> (r is Some <==> self@.in_shape(row as int, col as int)),
            self@.is_filled() && r is Some ==> self@.has_cell(row as int, col as int),
    {
        proof {
            assert(self.matrix.len() <= usize::MAX);
            if self@.is_filled() && self@.in_shape(row as int, col as int) {
                lemma_offset_in_buffer(
                    self@.rows as int,
                    self@.cols as int,
                    row as int,
                    col as int,
                );
            }
        }
        if row < self.rows && col < self.cols {
            self.checked_index(row, col)
        } else {
            None
        }
    }

    /// The offset of `(row, col)`: `row * cols + col`, whether or not the
    /// coordinate lies in the shape or the offset in the buffer.
    pub fn index(&self, row: usize, col: usize) -> (i: usize)
        requires
            self@.offset(row as int, col as int) <= usize::MAX,
        ensures
            i == self@.offset(row as int, col as int),
    {
        row * self.cols + col
    }

    /// The cell at the offset of `(row, col)`, or `None` if the buffer does
    /// not reach that far.
    ///
    /// Only the offset is compared with the buffer. A column at or past
    /// `cols` therefore reads a cell of a later row whenever its offset still
    /// lies inside the buffer.
    pub fn at(&self, row: usize, col: usize) -> (r: Option<&T>)
        ensures
            r == (match self@.cell(row as int, col as int) {
                Some(value) => Some(&value),
                None => None,
            }),
    {
        let len: usize = self.matrix.len();
        match self.checked_index(row, col) {
            Some(index) => {
                if index < len {
                    Some(&self.matrix[index])
                } else {
                    None
                }
            },
            None => None,
        }
    }

    /// The cell at the offset of `(row, col)`, or the default value if the
    /// buffer does not reach that far.
    pub fn at_or_default(&self, row: usize, col: usize) -> (value: T)
        ensures
            match self@.cell(row as int, col as int) {
                Some(found) => value == found,
                None => is_default_value(value),
            },
    {
        match self.at(row, col) {
            Some(found) => *found,
            None => T::default(),
        }
    }

    /// Writes `value` at the offset of `(row, col)`.
    ///
    /// Fails with the message `"Index out of bounds"`, and writes nothing,
    /// if the buffer does not reach that offset.
    pub fn set(&mut self, row: usize, col: usize, value: T) -> (r: Result<&mut Self, &str>)
        ensures
            match r {
                Ok(m) => {
                    &&& old(self)@.has_cell(row as int, col as int)
                    &&& m@ == old(self)@.put(row as int, col as int, value)
                    &&& *final(self) == *final(m)
                },
                Err(message) => {
                    &&& !old(self)@.has_cell(row as int, col as int)
                    &&& *final(self) == *old(self)
                    &&& message@ == OUT_OF_BOUNDS@
                },
            },
    {
        let len: usize = self.matrix.len();
        match self.checked_index(row, col) {
            Some(index) => {
                if index < len {
                    self.matrix[index] = value;
                    Ok(self)
                } else {
                    Err(OUT_OF_BOUNDS)
                }
            },
            None => Err(OUT_OF_BOUNDS),
        }
    }

    /// Replaces the cell at the offset of `(row, col)` by what `map` makes
    /// of it.
    ///
    /// Fails with the message `"Index out of bounds"`, and neither calls
    /// `map` nor writes, if the buffer does not reach that offset.
    pub fn apply<F>(&mut self, row: usize, col: usize, map: F) -> (r: Result<&mut Self, &str>)
        where F: Fn(&T) -> T,
        requires
            old(self)@.has_cell(row as int, col as int) ==> call_requires(
                map,
                (&old(self)@.cells[old(self)@.offset(row as int, col as int)],),
            ),
        ensures
            match r {
                Ok(m) => {
                    &&& old(self)@.has_cell(row as int, col as int)
                    &&& call_ensures(
                        map,
                        (&old(self)@.cells[old(self)@.offset(row as int, col as int)],),
                        m@.cells[old(self)@.offset(row as int, col as int)],
                    )
                    &&& m@ == old(self)@.put(
                        row as int,
                        col as int,
                        m@.cells[old(self)@.offset(row as int, col as int)],
                    )
                    &&& *final(self) == *final(m)
                },
                Err(message) => {
                    &&& !old(self)@.has_cell(row as int, col as int)
                    &&& *final(self) == *old(self)
                    &&& message@ == OUT_OF_BOUNDS@
                },
            },
    {
        let len: usize = self.matrix.len();
        match self.checked_index(row, col) {
            Some(index) => {
                if index < len {
                    let value = map(&self.matrix[index]);
                    self.matrix[index] = value;
                    Ok(self)
                } else {
                    Err(OUT_OF_BOUNDS)
                }
            },
            None => Err(OUT_OF_BOUNDS),
        }
    }

    /// A matrix of the same shape whose cells are what `map` makes of the
    /// cells of this one, in buffer order. This matrix is left as it is.
    pub fn map<F, TResult>(&self, map: F) -> (r: Matrix<TResult>)
        where F: Fn(&T) -> TResult, TResult: Default,
        requires
            forall|i: int|
                0 <= i < self@.cells.len() ==> call_requires(map, (&#[trigger] self@.cells[i],)),
        ensures
            r@.same_shape(self@),
            r@.cells.len() == self@.cells.len(),
            forall|i: int|
                0 <= i < self@.cells.len() ==> call_ensures(
                    map,
                    (&self@.cells[i],),
                    #[trigger] r@.cells[i],
                ),
    {
        let n: usize = self.matrix.len();
        let mut cells: Vec<TResult> = Vec::with_capacity(n);
        let mut i: usize = 0;
        while i < n
            invariant
                n == self@.cells.len(),
                i <= n,
                cells@.len() == i,
                forall|k: int|
                    0 <= k < n ==> call_requires(map, (&#[trigger] self@.cells[k],)),
                forall|k: int|
                    0 <= k < i ==> call_ensures(map, (&self@.cells[k],), #[trigger] cells@[k]),
            decreases n - i,
        {
            let value = map(&self.matrix[i]);
            cells.push(value);
            i += 1;
        }
        Matrix { rows: self.rows, cols: self.cols, matrix: cells }
    }
}

/// The contents of each slice, in order.
pub open spec fn slice_views<T>(slices: Seq<&[T]>) -> Seq<Seq<T>> {
    Seq::new(slices.len(), |i: int| slices[i]@)
}

impl<T> Matrix<T> where T: Default + Copy + Clone {
    /// Where the row slice that begins at `start` ends.
    fn row_end(&self, i: Ghost<int>, start: usize) -> (end: usize)
        requires
            self@.cols > 0,
            0 <= i@ < self@.row_count(),
            start == chunk_start(self@.cols as int, i@),
        ensures
            end == chunk_end(self@.cells.len() as int, self@.cols as int, i@),
            start < end <= self@.cells.len(),
    {
        let len: usize = self.matrix.len();
        proof {
            lemma_chunk_bounds(len as int, self.cols as int, i@);
            assert((i@ + 1) * self.cols == i@ * self.cols + self.cols) by (nonlinear_arith);
        }
        if len - start >= self.cols {
            start + self.cols
        } else {
            len
        }
    }

    /// The buffer cut into row slices of `cols` cells, first row first.
    ///
    /// In a filled matrix there are `rows` slices of `cols` cells each.
    /// Otherwise the slices follow the buffer: the last one is shorter when
    /// the buffer does not end on a row boundary.
    pub fn rows(&self) -> (r: Vec<&[T]>)
        requires
            self@.cols > 0,
        ensures
            slice_views(r@) == self@.row_slices(),
    {
        let len: usize = self.matrix.len();
        let cells: &[T] = self.matrix.as_slice();
        let mut r: Vec<&[T]> = Vec::new();
        let mut start: usize = 0;
        proof {
            lemma_chunk_exists(len as int, self.cols as int, 0);
        }
        while start < len
            invariant
                self@.cols > 0,
                len == self@.cells.len(),
                cells@ == self@.cells,
                0 <= r@.len() <= self@.row_count(),
                r@.len() < self@.row_count() ==> start == chunk_start(
                    self@.cols as int,
                    r@.len() as int,
                ),
                r@.len() == self@.row_count() ==> start == len,
                forall|k: int| 0 <= k < r@.len() ==> (#[trigger] r@[k])@ == self@.row(k),
            decreases len - start,
        {
            let ghost i = r@.len() as int;
            let end: usize = self.row_end(Ghost(i), start);
            proof {
                lemma_chunk_bounds(len as int, self.cols as int, i);
            }
            r.push(slice_subrange(cells, start, end));
            start = end;
        }
        proof {
            lemma_chunk_exists(len as int, self.cols as int, r@.len() as int);
            assert(slice_views(r@) =~= self@.row_slices());
        }
        r
    }

    /// The `i`-th row slice, or `None` if the buffer has fewer slices.
    pub fn get_row(&self, i: usize) -> (r: Option<&[T]>)
        requires
            self@.cols > 0,
        ensures
            match r {
                Some(row) => i < self@.row_count() && row@ == self@.row_slices()[i as int],
                None => i >= self@.row_count(),
            },
    {
        let len: usize = self.matrix.len();
        proof {
            lemma_chunk_exists(len as int, self.cols as int, i as int);
        }
        match i.checked_mul(self.cols) {
            Some(start) => {
                if start < len {
                    let end: usize = self.row_end(Ghost(i as int), start);
                    Some(slice_subrange(self.matrix.as_slice(), start, end))
                } else {
                    None
                }
            },
            None => None,
        }
    }
}

/// In a filled matrix with at least one column the row slices are the
/// rows: there are `rows` of them, each `cols` long, and the slice of row
/// `i` holds at `j` the cell of `(i, j)`.
pub proof fn lemma_rows_of_filled<T>(m: MatrixView<T>)
    requires
        m.is_filled(),
        m.cols > 0,
    ensures
        m.row_slices().len() == m.rows,
        forall|i: int| 0 <= i < m.rows ==> (#[trigger] m.row_slices()[i]).len() == m.cols,
        forall|i: int, j: int|
            m.in_shape(i, j) ==> m.cell(i, j) == Some(#[trigger] m.row_slices()[i][j]),
{
    let len = (m.rows as int) * (m.cols as int);
    lemma_chunks_of_full_buffer(m.rows as int, m.cols as int);
    assert forall|i: int| 0 <= i < m.rows implies (#[trigger] m.row_slices()[i]).len()
        == m.cols by {
        lemma_chunk_bounds(m.cells.len() as int, m.cols as int, i);
        assert(chunk_end(len, m.cols as int, i) == chunk_start(m.cols as int, i) + m.cols);
    }
    assert forall|i: int, j: int| m.in_shape(i, j) implies m.cell(i, j) == Some(
        #[trigger] m.row_slices()[i][j],
    ) by {
        lemma_offset_in_buffer(m.rows as int, m.cols as int, i, j);
        lemma_chunk_bounds(m.cells.len() as int, m.cols as int, i);
        assert(chunk_end(len, m.cols as int, i) == chunk_start(m.cols as int, i) + m.cols);
    }
}

/// Two calls of `rows` on one matrix give the same slices: each call gives
/// the row slices of the view, whatever was called before. In a filled
/// matrix with at least one column there are `rows` of them, each `cols`
/// long.
pub proof fn lemma_rows_twice<T>(m: MatrixView<T>, first: Seq<&[T]>, second: Seq<&[T]>)
    requires
        slice_views(first) == m.row_slices(),
        slice_views(second) == m.row_slices(),
    ensures
        slice_views(first) == slice_views(second),
        first.len() == second.len(),
        m.is_filled() && m.cols > 0 ==> {
            &&& first.len() == m.rows
            &&& forall|i: int| 0 <= i < first.len() ==> (#[trigger] first[i])@.len() == m.cols
        },
{
    assert(slice_views(first).len() == first.len());
    assert(slice_views(second).len() == second.len());
    if m.is_filled() && m.cols > 0 {
        lemma_rows_of_filled(m);
        assert forall|i: int| 0 <= i < first.len() implies (#[trigger] first[i])@.len()
            == m.cols by {
            assert(slice_views(first)[i] == first[i]@);
            assert(m.row_slices()[i].len() == m.cols);
        }
    }
}

/// A value written to a cell is the value read back from it.
pub proof fn lemma_set_then_at<T>(m: MatrixView<T>, row: int, col: int, value: T)
    requires
        m.has_cell(row, col),
    ensures
        m.put(row, col, value).cell(row, col) == Some(value),
        m.put(row, col, value).same_shape(m),
        m.put(row, col, value).cells.len() == m.cells.len(),
{
}

/// A write leaves the cells at all other offsets as they were; inside the
/// shape, those are the cells of all other coordinates.
pub proof fn lemma_set_keeps_others<T>(
    m: MatrixView<T>,
    row: int,
    col: int,
    value: T,
    other_row: int,
    other_col: int,
)
    requires
        m.has_cell(row, col),
        m.offset(other_row, other_col) != m.offset(row, col) || {
            &&& 0 <= col < m.cols
            &&& 0 <= other_col < m.cols
            &&& (other_row != row || other_col != col)
        },
    ensures
        m.put(row, col, value).cell(other_row, other_col) == m.cell(other_row, other_col),
{
    if m.offset(other_row, other_col) == m.offset(row, col) {
        lemma_offset_injective(m.cols as int, row, col, other_row, other_col);
    }
}

/// In a filled matrix every coordinate of the shape has a cell.
pub proof fn lemma_filled_has_cells<T>(m: MatrixView<T>, row: int, col: int)
    requires
        m.is_filled(),
        m.in_shape(row, col),
    ensures
        m.has_cell(row, col),
{
    lemma_offset_in_buffer(m.rows as int, m.cols as int, row, col);
}

/// Rows that are all `width` long flatten to `rows.len() * width` items.
pub proof fn lemma_flatten_uniform<T>(rows: Seq<Seq<T>>, width: nat)
    requires
        forall|i: int| 0 <= i < rows.len() ==> (#[trigger] rows[i]).len() == width,
    ensures
        rows.flatten().len() == rows.len() * width,
    decreases rows.len(),
{
    if rows.len() == 0 {
        assert(rows.len() * width == 0) by (nonlinear_arith)
            requires
                rows.len() == 0,
        ;
    } else {
        let front = rows.drop_last();
        lemma_flatten_uniform(front, width);
        assert(rows == front.push(rows.last()));
        front.lemma_flatten_push(rows.last());
        assert(rows.len() * width == front.len() * width + width) by (nonlinear_arith)
            requires
                rows.len() == front.len() + 1,
        ;
    }
}

} // verus!
