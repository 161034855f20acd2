//! Arithmetic on matrices whose cells can be added, subtracted, multiplied
//! and divided.
//!
//! What the cell type's operators compute is known through the operator
//! specifications of `vstd`: `add_spec`, `sub_spec` and `mul_spec` give the
//! result of an operation, `add_req`, `sub_req` and `mul_req` say when it may
//! be evaluated (for the integer types: when it does not overflow).

use crate::layout::{lemma_offset_in_buffer, lemma_offset_injective};
use crate::storage::{is_default_value, Matrix, MatrixView};
use core::ops::{Add, Div, Mul, Sub};
use vstd::prelude::*;
use vstd::std_specs::ops::{AddSpec, MulSpec, SubSpec};

verus! {

/// `result` is what `left + right` may evaluate to.
pub open spec fn is_sum<Q: Add<Output = Q>>(left: Q, right: Q, result: Q) -> bool {
    call_ensures(<Q as Add>::add, (left, right), result)
}

/// `result` is what `left - right` may evaluate to.
pub open spec fn is_difference<Q: Sub<Output = Q>>(left: Q, right: Q, result: Q) -> bool {
    call_ensures(<Q as Sub>::sub, (left, right), result)
}

/// `result` is what `left * right` may evaluate to.
pub open spec fn is_product<Q: Mul<Output = Q>>(left: Q, right: Q, result: Q) -> bool {
    call_ensures(<Q as Mul>::mul, (left, right), result)
}

/// Every cell of `m` with `value` added to it.
pub open spec fn scalar_sum<Q: Add<Output = Q>>(m: MatrixView<Q>, value: Q) -> MatrixView<Q> {
    MatrixView { cells: Seq::new(m.cells.len(), |i: int| m.cells[i].add_spec(value)), ..m }
}

/// Every cell of `m` with `value` subtracted from it.
pub open spec fn scalar_difference<Q: Sub<Output = Q>>(m: MatrixView<Q>, value: Q) -> MatrixView<
    Q,
> {
    MatrixView { cells: Seq::new(m.cells.len(), |i: int| m.cells[i].sub_spec(value)), ..m }
}

/// Every cell of `m` multiplied by `value`.
pub open spec fn scalar_product<Q: Mul<Output = Q>>(m: MatrixView<Q>, value: Q) -> MatrixView<Q> {
    MatrixView { cells: Seq::new(m.cells.len(), |i: int| m.cells[i].mul_spec(value)), ..m }
}

/// How many offsets have a cell in both buffers.
pub open spec fn paired_len<Q>(a: MatrixView<Q>, b: MatrixView<Q>) -> nat {
    if a.cells.len() <= b.cells.len() {
        a.cells.len()
    } else {
        b.cells.len()
    }
}

/// The cells of `a` and `b` added offset by offset, under the shape of `a`.
///
/// Two filled matrices of one shape have their cells at the same offsets,
/// and the sum is filled too. Where one buffer is shorter, the sum ends
/// with it.
pub open spec fn sum<Q: Add<Output = Q>>(a: MatrixView<Q>, b: MatrixView<Q>) -> MatrixView<Q> {
    MatrixView {
        rows: a.rows,
        cols: a.cols,
        cells: Seq::new(paired_len(a, b), |i: int| a.cells[i].add_spec(b.cells[i])),
    }
}

/// The cell at the offset of `(row, col)`, or `fallback` if the buffer does
/// not reach that far.
pub open spec fn cell_or<Q>(m: MatrixView<Q>, row: int, col: int, fallback: Q) -> Q {
    match m.cell(row, col) {
        Some(value) => value,
        None => fallback,
    }
}

/// The `k`-th term of the product cell `(i, j)`: the cell `(i, k)` of `a`
/// times the cell `(k, j)` of `b`.
pub open spec fn term<Q: Mul<Output = Q>>(
    a: MatrixView<Q>,
    b: MatrixView<Q>,
    zero: Q,
    i: int,
    j: int,
    k: int,
) -> Q {
    cell_or(a, i, k, zero).mul_spec(cell_or(b, k, j, zero))
}

/// The first `n` terms of the product cell `(i, j)`, added one after the
/// other to `zero`.
pub open spec fn dot<Q: Add<Output = Q> + Mul<Output = Q>>(
    a: MatrixView<Q>,
    b: MatrixView<Q>,
    zero: Q,
    i: int,
    j: int,
    n: nat,
) -> Q
    decreases n,
{
    if n == 0 {
        zero
    } else {
        dot(a, b, zero, i, j, (n - 1) as nat).add_spec(term(a, b, zero, i, j, n - 1))
    }
}

/// Each multiplication and each addition on the way to the product cell
/// `(i, j)` may be evaluated.
pub open spec fn dot_defined<Q: Add<Output = Q> + Mul<Output = Q>>(
    a: MatrixView<Q>,
    b: MatrixView<Q>,
    zero: Q,
    i: int,
    j: int,
) -> bool {
    forall|k: nat|
        k < b.rows ==> {
            &&& cell_or(a, i, k as int, zero).mul_req(cell_or(b, k as int, j, zero))
            &&& (#[trigger] dot(a, b, zero, i, j, k)).add_req(term(a, b, zero, i, j, k as int))
        }
}

/// Each product cell can be computed.
pub open spec fn product_defined<Q: Add<Output = Q> + Mul<Output = Q>>(
    a: MatrixView<Q>,
    b: MatrixView<Q>,
    zero: Q,
) -> bool {
    forall|i: int, j: int|
        0 <= i < a.rows && 0 <= j < b.cols ==> #[trigger] dot_defined(a, b, zero, i, j)
}

/// The product of `a` and `b`: a filled matrix of `a.rows` by `b.cols`
/// cells, where the cell `(i, j)` is `zero` plus, for each `k` below
/// `b.rows` in turn, the cell `(i, k)` of `a` times the cell `(k, j)` of
/// `b`. A cell that a buffer does not reach counts as `zero`.
pub open spec fn product<Q: Add<Output = Q> + Mul<Output = Q>>(
    a: MatrixView<Q>,
    b: MatrixView<Q>,
    zero: Q,
) -> MatrixView<Q> {
    MatrixView {
        rows: a.rows,
        cols: b.cols,
        cells: Seq::new(
            a.rows * b.cols,
            |o: int| dot(a, b, zero, o / (b.cols as int), o % (b.cols as int), b.rows),
        ),
    }
}

/// What the product holds at `(r, c)` while the cell `(i, j)` is being
/// computed and has its first `k` terms: the cells before `(i, j)` are
/// finished, those after it still hold `zero`.
spec fn product_so_far<Q: Add<Output = Q> + Mul<Output = Q>>(
    a: MatrixView<Q>,
    b: MatrixView<Q>,
    zero: Q,
    i: int,
    j: int,
    k: nat,
    r: int,
    c: int,
) -> Q {
    if r < i || (r == i && c < j) {
        dot(a, b, zero, r, c, b.rows)
    } else if r == i && c == j {
        dot(a, b, zero, r, c, k)
    } else {
        zero
    }
}

/// `p` is the product of `a` and `b` as far as `product_so_far` says.
spec fn is_partial_product<Q: Add<Output = Q> + Mul<Output = Q>>(
    p: MatrixView<Q>,
    a: MatrixView<Q>,
    b: MatrixView<Q>,
    zero: Q,
    i: int,
    j: int,
    k: nat,
) -> bool {
    &&& p.rows == a.rows
    &&& p.cols == b.cols
    &&& p.is_filled()
    &&& forall|r: int, c: int|
        p.in_shape(r, c) ==> p.cells[p.offset(r, c)] == #[trigger] product_so_far(
            a,
            b,
            zero,
            i,
            j,
            k,
            r,
            c,
        )
}

/// A matrix of the product's shape that holds `zero` everywhere is the
/// product before its first term.
proof fn lemma_product_begins<Q: Add<Output = Q> + Mul<Output = Q>>(
    p: MatrixView<Q>,
    a: MatrixView<Q>,
    b: MatrixView<Q>,
    zero: Q,
)
    requires
        p.rows == a.rows,
        p.cols == b.cols,
        p.cells == Seq::new(a.rows * b.cols, |o: int| zero),
    ensures
        is_partial_product(p, a, b, zero, 0, 0, 0),
{
    assert forall|r: int, c: int| p.in_shape(r, c) implies p.cells[p.offset(r, c)]
        == #[trigger] product_so_far(a, b, zero, 0, 0, 0, r, c) by {
        lemma_offset_in_buffer(p.rows as int, p.cols as int, r, c);
    }
}

/// The cell being computed has a place in the buffer and holds the terms
/// added so far.
proof fn lemma_product_cell<Q: Add<Output = Q> + Mul<Output = Q>>(
    p: MatrixView<Q>,
    a: MatrixView<Q>,
    b: MatrixView<Q>,
    zero: Q,
    i: int,
    j: int,
    k: nat,
)
    requires
        is_partial_product(p, a, b, zero, i, j, k),
        p.in_shape(i, j),
    ensures
        p.has_cell(i, j),
        p.cells[p.offset(i, j)] == dot(a, b, zero, i, j, k),
{
    lemma_offset_in_buffer(p.rows as int, p.cols as int, i, j);
    assert(p.cells[p.offset(i, j)] == product_so_far(a, b, zero, i, j, k, i, j));
}

/// Adding the next term to the cell being computed leaves every other cell
/// as it was and takes the product one term further.
proof fn lemma_product_gains_term<Q: Add<Output = Q> + Mul<Output = Q>>(
    p: MatrixView<Q>,
    a: MatrixView<Q>,
    b: MatrixView<Q>,
    zero: Q,
    i: int,
    j: int,
    k: nat,
)
    requires
        is_partial_product(p, a, b, zero, i, j, k),
        p.in_shape(i, j),
    ensures
        is_partial_product(
            p.put(i, j, dot(a, b, zero, i, j, k + 1)),
            a,
            b,
            zero,
            i,
            j,
            k + 1,
        ),
{
    let q = p.put(i, j, dot(a, b, zero, i, j, k + 1));
    lemma_offset_in_buffer(p.rows as int, p.cols as int, i, j);
    assert forall|r: int, c: int| q.in_shape(r, c) implies q.cells[q.offset(r, c)]
        == #[trigger] product_so_far(a, b, zero, i, j, k + 1, r, c) by {
        lemma_offset_in_buffer(p.rows as int, p.cols as int, r, c);
        if r != i || c != j {
            if p.offset(r, c) == p.offset(i, j) {
                lemma_offset_injective(p.cols as int, r, c, i, j);
            }
            assert(p.cells[p.offset(r, c)] == product_so_far(a, b, zero, i, j, k, r, c));
        }
    }
}

/// A cell with all its terms is finished: the next cell of the row is the
/// one being computed, with no term yet.
proof fn lemma_product_next_cell<Q: Add<Output = Q> + Mul<Output = Q>>(
    p: MatrixView<Q>,
    a: MatrixView<Q>,
    b: MatrixView<Q>,
    zero: Q,
    i: int,
    j: int,
)
    requires
        is_partial_product(p, a, b, zero, i, j, b.rows),
    ensures
        is_partial_product(p, a, b, zero, i, j + 1, 0),
{
    assert forall|r: int, c: int| p.in_shape(r, c) implies p.cells[p.offset(r, c)]
        == #[trigger] product_so_far(a, b, zero, i, j + 1, 0, r, c) by {
        assert(p.cells[p.offset(r, c)] == product_so_far(a, b, zero, i, j, b.rows, r, c));
    }
}

/// A row whose cells are all finished is finished: the first cell of the
/// next row is the one being computed.
proof fn lemma_product_next_row<Q: Add<Output = Q> + Mul<Output = Q>>(
    p: MatrixView<Q>,
    a: MatrixView<Q>,
    b: MatrixView<Q>,
    zero: Q,
    i: int,
)
    requires
        is_partial_product(p, a, b, zero, i, b.cols as int, 0),
    ensures
        is_partial_product(p, a, b, zero, i + 1, 0, 0),
{
    assert forall|r: int, c: int| p.in_shape(r, c) implies p.cells[p.offset(r, c)]
        == #[trigger] product_so_far(a, b, zero, i + 1, 0, 0, r, c) by {
        assert(p.cells[p.offset(r, c)] == product_so_far(a, b, zero, i, b.cols as int, 0, r, c));
    }
}

/// A matrix whose every cell is finished is the product.
proof fn lemma_finished_product<Q: Add<Output = Q> + Mul<Output = Q>>(
    p: MatrixView<Q>,
    a: MatrixView<Q>,
    b: MatrixView<Q>,
    zero: Q,
)
    requires
        is_partial_product(p, a, b, zero, a.rows as int, 0, 0),
    ensures
        p == product(a, b, zero),
{
    let width = b.cols as int;
    assert forall|o: int| 0 <= o < p.cells.len() implies p.cells[o] == product(
        a,
        b,
        zero,
    ).cells[o] by {
        assert(width > 0) by (nonlinear_arith)
            requires
                0 <= o < a.rows * b.cols,
                width == b.cols,
        ;
        let r = o / width;
        let c = o % width;
        assert(0 <= r < a.rows && 0 <= c < width && r * width + c == o) by (nonlinear_arith)
            requires
                0 <= o < a.rows * width,
                width > 0,
                r == o / width,
                c == o % width,
        ;
        assert(p.in_shape(r, c));
        assert(p.cells[p.offset(r, c)] == product_so_far(a, b, zero, a.rows as int, 0, 0, r, c));
    }
    assert(p.cells =~= product(a, b, zero).cells);
}

/// In filled matrices of one shape that has no more rows than columns, every
/// term of the product reads a cell of each operand: the product is then the
/// usual sum of row-by-column products and never looks at the fallback.
pub proof fn lemma_terms_read_cells<Q: Mul<Output = Q>>(
    a: MatrixView<Q>,
    b: MatrixView<Q>,
    zero: Q,
    i: int,
    j: int,
    k: int,
)
    requires
        a.same_shape(b),
        a.is_filled(),
        b.is_filled(),
        a.rows <= a.cols,
        0 <= i < a.rows,
        0 <= j < b.cols,
        0 <= k < b.rows,
    ensures
        a.has_cell(i, k),
        b.has_cell(k, j),
        term(a, b, zero, i, j, k) == a.cells[a.offset(i, k)].mul_spec(b.cells[b.offset(k, j)]),
{
    lemma_offset_in_buffer(a.rows as int, a.cols as int, i, k);
    lemma_offset_in_buffer(b.rows as int, b.cols as int, k, j);
}

/// Adding two filled matrices of one shape that both hold `zero` in every
/// cell gives a filled matrix of that shape that holds `zero` in every cell,
/// provided `zero + zero` is `zero`, as it is for the default value of the
/// number types.
pub proof fn lemma_sum_of_zeros<Q: Add<Output = Q>>(a: MatrixView<Q>, b: MatrixView<Q>, zero: Q)
    requires
        a.same_shape(b),
        a.is_filled(),
        b.is_filled(),
        forall|i: int| 0 <= i < a.cells.len() ==> a.cells[i] == zero,
        forall|i: int| 0 <= i < b.cells.len() ==> b.cells[i] == zero,
        zero.add_spec(zero) == zero,
    ensures
        sum(a, b).same_shape(a),
        sum(a, b).is_filled(),
        forall|i: int| 0 <= i < sum(a, b).cells.len() ==> sum(a, b).cells[i] == zero,
        sum(a, b) == a,
{
    assert(sum(a, b).cells =~= a.cells);
}

impl<Q> Matrix<Q> where
    Q: Default + Copy + Clone,
    Q: Add<Output = Q> + Sub<Output = Q> + Mul<Output = Q> + Div<Output = Q>,
    for<'a> &'a Q: Add<Output = Q> + Sub<Output = Q> + Mul<Output = Q> + Div<Output = Q>,
{
    /// Adds `value` to every cell.
    pub fn add(&self, value: Q) -> (r: Matrix<Q>)
        requires
            forall|i: int|
                0 <= i < self@.cells.len() ==> (#[trigger] self@.cells[i]).add_req(value),
        ensures
            r@.same_shape(self@),
            r@.cells.len() == self@.cells.len(),
            forall|i: int|
                0 <= i < self@.cells.len() ==> is_sum(
                    self@.cells[i],
                    value,
                    #[trigger] r@.cells[i],
                ),
            Q::obeys_add_spec() ==> r@ == scalar_sum(self@, value),
    {
        let add_value = |x: &Q| -> (y: Q)
            requires
                (*x).add_req(value),
            ensures
                is_sum(*x, value, y),
                Q::obeys_add_spec() ==> y == (*x).add_spec(value),
            {
                *x + value
            };
        let r = self.map(add_value);
        assert(Q::obeys_add_spec() ==> r@.cells =~= scalar_sum(self@, value).cells);
        r
    }

    /// Subtracts `value` from every cell.
    pub fn subtract(&self, value: Q) -> (r: Matrix<Q>)
        requires
            forall|i: int|
                0 <= i < self@.cells.len() ==> (#[trigger] self@.cells[i]).sub_req(value),
        ensures
            r@.same_shape(self@),
            r@.cells.len() == self@.cells.len(),
            forall|i: int|
                0 <= i < self@.cells.len() ==> is_difference(
                    self@.cells[i],
                    value,
                    #[trigger] r@.cells[i],
                ),
            Q::obeys_sub_spec() ==> r@ == scalar_difference(self@, value),
    {
        let subtract_value = |x: &Q| -> (y: Q)
            requires
                (*x).sub_req(value),
            ensures
                is_difference(*x, value, y),
                Q::obeys_sub_spec() ==> y == (*x).sub_spec(value),
            {
                *x - value
            };
        let r = self.map(subtract_value);
        assert(Q::obeys_sub_spec() ==> r@.cells =~= scalar_difference(self@, value).cells);
        r
    }

    /// Multiplies every cell by `value`.
    pub fn multiply(&self, value: Q) -> (r: Matrix<Q>)
        requires
            forall|i: int|
                0 <= i < self@.cells.len() ==> (#[trigger] self@.cells[i]).mul_req(value),
        ensures
            r@.same_shape(self@),
            r@.cells.len() == self@.cells.len(),
            forall|i: int|
                0 <= i < self@.cells.len() ==> is_product(
                    self@.cells[i],
                    value,
                    #[trigger] r@.cells[i],
                ),
            Q::obeys_mul_spec() ==> r@ == scalar_product(self@, value),
    {
        let multiply_by_value = |x: &Q| -> (y: Q)
            requires
                (*x).mul_req(value),
            ensures
                is_product(*x, value, y),
                Q::obeys_mul_spec() ==> y == (*x).mul_spec(value),
            {
                *x * value
            };
        let r = self.map(multiply_by_value);
        assert(Q::obeys_mul_spec() ==> r@.cells =~= scalar_product(self@, value).cells);
        r
    }

    /// The sum of two matrices of one shape, cell by cell, in a new matrix;
    /// `None` if the shapes differ.
    pub fn matrix_add(&self, m: &Matrix<Q>) -> (r: Option<Matrix<Q>>)
        requires
            self@.same_shape(m@) ==> forall|i: int|
                0 <= i < paired_len(self@, m@) ==> (#[trigger] self@.cells[i]).add_req(
                    m@.cells[i],
                ),
        ensures
            match r {
                Some(s) => {
                    &&& self@.same_shape(m@)
                    &&& s@.same_shape(self@)
                    &&& s@.cells.len() == paired_len(self@, m@)
                    &&& forall|i: int|
                        0 <= i < paired_len(self@, m@) ==> is_sum(
                            self@.cells[i],
                            m@.cells[i],
                            #[trigger] s@.cells[i],
                        )
                    &&& Q::obeys_add_spec() ==> s@ == sum(self@, m@)
                },
                None => !self@.same_shape(m@),
            },
    {
        if self.rows != m.rows || self.cols != m.cols {
            return None;
        }
        let n: usize = if self.matrix.len() <= m.matrix.len() {
            self.matrix.len()
        } else {
            m.matrix.len()
        };
        let mut cells: Vec<Q> = Vec::with_capacity(n);
        let mut i: usize = 0;
        while i < n
            invariant
                n == paired_len(self@, m@),
                i <= n,
                cells@.len() == i,
                forall|k: int| 0 <= k < n ==> (#[trigger] self@.cells[k]).add_req(m@.cells[k]),
                forall|k: int|
                    0 <= k < i ==> is_sum(self@.cells[k], m@.cells[k], #[trigger] cells@[k]),
                Q::obeys_add_spec() ==> forall|k: int|
                    0 <= k < i ==> #[trigger] cells@[k] == self@.cells[k].add_spec(m@.cells[k]),
            decreases n - i,
        {
            let z = self.matrix[i] + m.matrix[i];
            cells.push(z);
            i += 1;
        }
        let s = Matrix { rows: self.rows, cols: self.cols, matrix: cells };
        assert(Q::obeys_add_spec() ==> s@.cells =~= sum(self@, m@).cells);
        Some(s)
    }

    /// The cell at the offset of `(row, col)`, or `fallback` if the buffer
    /// does not reach that far.
    fn at_or(&self, row: usize, col: usize, fallback: Q) -> (value: Q)
        ensures
            value == cell_or(self@, row as int, col as int, fallback),
    {
        match self.at(row, col) {
            Some(found) => *found,
            None => fallback,
        }
    }

    /// The product of two matrices of one shape in a new matrix; `None` if
    /// the shapes differ.
    ///
    /// Both operands must declare the same number of rows and the same
    /// number of columns, as for [`Matrix::matrix_add`]; for square matrices
    /// the result is the usual matrix product. The cell `(i, j)` of the
    /// result starts from the default value and receives, for each `k` below
    /// the row count in turn, the cell `(i, k)` of `self` times the cell
    /// `(k, j)` of `m`; a cell that a buffer does not reach counts as the
    /// default value.
    pub fn matrix_multiply(&self, m: &Matrix<Q>) -> (r: Option<Matrix<Q>>)
        requires
            Q::obeys_add_spec(),
            Q::obeys_mul_spec(),
            self@.same_shape(m@) ==> self@.rows * self@.cols <= usize::MAX,
            self@.same_shape(m@) ==> forall|zero: Q|
                is_default_value(zero) ==> #[trigger] product_defined(self@, m@, zero),
        ensures
            match r {
                Some(p) => {
                    &&& self@.same_shape(m@)
                    &&& exists|zero: Q|
                        is_default_value(zero) && p@ == #[trigger] product(self@, m@, zero)
                },
                None => !self@.same_shape(m@),
            },
    {
        if self.rows != m.rows || self.cols != m.cols {
            return None;
        }
        let zero = Q::default();
        let mut result = Matrix::filled_with(self.rows, m.num_cols(), zero);
        proof {
            lemma_product_begins(result@, self@, m@, zero);
        }
        let mut i: usize = 0;
        while i < self.num_rows()
            invariant
                Q::obeys_add_spec(),
                Q::obeys_mul_spec(),
                self@.same_shape(m@),
                product_defined(self@, m@, zero),
                i <= self@.rows,
                is_partial_product(result@, self@, m@, zero, i as int, 0, 0),
            decreases self@.rows - i,
        {
            let mut j: usize = 0;
            while j < self.num_cols()
                invariant
                    Q::obeys_add_spec(),
                    Q::obeys_mul_spec(),
                    self@.same_shape(m@),
                    product_defined(self@, m@, zero),
                    i < self@.rows,
                    j <= self@.cols,
                    is_partial_product(result@, self@, m@, zero, i as int, j as int, 0),
                decreases self@.cols - j,
            {
                let mut k: usize = 0;
                while k < m.num_rows()
                    invariant
                        Q::obeys_add_spec(),
                        Q::obeys_mul_spec(),
                        self@.same_shape(m@),
                        dot_defined(self@, m@, zero, i as int, j as int),
                        i < self@.rows,
                        j < self@.cols,
                        k <= m@.rows,
                        is_partial_product(result@, self@, m@, zero, i as int, j as int, k as nat),
                    decreases m@.rows - k,
                {
                    let ghost before = result@;
                    let ghost so_far = dot(self@, m@, zero, i as int, j as int, k as nat);
                    proof {
                        lemma_product_cell(before, self@, m@, zero, i as int, j as int, k as nat);
                    }
                    let prod = self.at_or(i, k, zero) * m.at_or(k, j, zero);
                    let add_prod = |x: &Q| -> (y: Q)
                        requires
                            (*x).add_req(prod),
                        ensures
                            y == (*x).add_spec(prod),
                        {
                            *x + prod
                        };
                    let _ = result.apply(i, j, add_prod);
                    proof {
                        assert(result@ == before.put(i as int, j as int, so_far.add_spec(prod)));
                        lemma_product_gains_term(
                            before,
                            self@,
                            m@,
                            zero,
                            i as int,
                            j as int,
                            k as nat,
                        );
                    }
                    k += 1;
                }
                proof {
                    lemma_product_next_cell(result@, self@, m@, zero, i as int, j as int);
                }
                j += 1;
            }
            proof {
                lemma_product_next_row(result@, self@, m@, zero, i as int);
            }
            i += 1;
        }
        proof {
            lemma_finished_product(result@, self@, m@, zero);
        }
        Some(result)
    }
}

} // verus!
