//! Two-dimensional arrays of numbers, kept by `ndarray`.
use crate::binary64::{Binary64, ZERO_BITS};
use crate::numerics::{is_difference, is_sum, Numerics};
use vstd::prelude::*;

verus! {

/// A two-dimensional `ndarray` array of binary64 encodings.
#[verifier::external_body]
pub struct Matrix {
    cells: ndarray::Array2<u64>,
}

/// What an array holds, by row and column.
pub uninterp spec fn array_cells(m: Matrix) -> Map<(int, int), u64>;

/// How many rows and how many columns an array has.
pub uninterp spec fn array_shape(m: Matrix) -> (nat, nat);

/// An array of this shape can be laid out in memory: the product of the lengths that are
/// not zero, and the bytes of all elements, stay within `isize`.
pub open spec fn can_allocate(rows: int, columns: int) -> bool {
    &&& (if rows == 0 { 1 } else { rows }) * (if columns == 0 { 1 } else { columns }) <= isize::MAX
    &&& rows * columns * 8 <= isize::MAX
}

/// `ndarray::Array2::from_elem`: an array of the given shape with `elem` everywhere. The
/// call panics where the shape cannot be laid out.
#[verifier::external_body]
fn array_from_elem(rows: usize, columns: usize, elem: u64) -> (r: Matrix)
    requires
        can_allocate(rows as int, columns as int),
    ensures
        array_shape(r) == (rows as nat, columns as nat),
        forall|i: int, j: int|
            0 <= i < rows && 0 <= j < columns ==> #[trigger] array_cells(r)[(i, j)] == elem,
{
    Matrix { cells: ndarray::Array2::from_elem((rows, columns), elem) }
}

/// `ndarray::ArrayBase::nrows`: the length of the first axis.
#[verifier::external_body]
fn array_nrows(m: &Matrix) -> (r: usize)
    ensures
        r == array_shape(*m).0,
{
    m.cells.nrows()
}

/// `ndarray::ArrayBase::ncols`: the length of the second axis.
#[verifier::external_body]
fn array_ncols(m: &Matrix) -> (r: usize)
    ensures
        r == array_shape(*m).1,
{
    m.cells.ncols()
}

/// Reading `[[row, column]]` of an `ndarray` array. The call panics out of bounds.
#[verifier::external_body]
fn array_get(m: &Matrix, row: usize, column: usize) -> (r: u64)
    requires
        row < array_shape(*m).0,
        column < array_shape(*m).1,
    ensures
        r == array_cells(*m)[(row as int, column as int)],
{
    m.cells[[row, column]]
}

/// Writing `[[row, column]]` of an `ndarray` array: this element changes, no other one and
/// not the shape. The call panics out of bounds.
#[verifier::external_body]
fn array_set(m: &mut Matrix, row: usize, column: usize, elem: u64)
    requires
        row < array_shape(*old(m)).0,
        column < array_shape(*old(m)).1,
    ensures
        array_shape(*final(m)) == array_shape(*old(m)),
        array_cells(*final(m)) == array_cells(*old(m)).insert((row as int, column as int), elem),
{
    m.cells[[row, column]] = elem;
}

/// `Clone` of an `ndarray` array: the same shape and the same elements.
#[verifier::external_body]
fn array_clone(m: &Matrix) -> (r: Matrix)
    ensures
        array_shape(r) == array_shape(*m),
        array_cells(r) == array_cells(*m),
{
    Matrix { cells: m.cells.clone() }
}

impl Matrix {
    /// The number of rows.
    pub open spec fn height(self) -> nat {
        array_shape(self).0
    }

    /// The number of columns.
    pub open spec fn width(self) -> nat {
        array_shape(self).1
    }

    /// The number in row `i` and column `j`, zero where there is none.
    pub open spec fn at(self, i: int, j: int) -> Binary64 {
        if 0 <= i < self.height() && 0 <= j < self.width() {
            Binary64 { bits: array_cells(self)[(i, j)] }
        } else {
            Binary64 { bits: ZERO_BITS }
        }
    }

    /// The numbers of row `i`.
    pub open spec fn row(self, i: int) -> Seq<Binary64> {
        Seq::new(self.width(), |j: int| self.at(i, j))
    }

    /// The numbers of column `j`.
    pub open spec fn column(self, j: int) -> Seq<Binary64> {
        Seq::new(self.height(), |i: int| self.at(i, j))
    }

    pub open spec fn same_shape(self, other: Matrix) -> bool {
        self.height() == other.height() && self.width() == other.width()
    }

    /// An array with `value` everywhere.
    pub fn filled(rows: usize, columns: usize, value: Binary64) -> (r: Matrix)
        requires
            can_allocate(rows as int, columns as int),
        ensures
            r.height() == rows,
            r.width() == columns,
            forall|i: int, j: int|
                0 <= i < rows && 0 <= j < columns ==> #[trigger] r.at(i, j) == value,
    {
        array_from_elem(rows, columns, value.bits)
    }

    pub fn nrows(&self) -> (r: usize)
        ensures
            r == self.height(),
    {
        array_nrows(self)
    }

    pub fn ncols(&self) -> (r: usize)
        ensures
            r == self.width(),
    {
        array_ncols(self)
    }

    pub fn get(&self, row: usize, column: usize) -> (r: Binary64)
        requires
            row < self.height(),
            column < self.width(),
        ensures
            r == self.at(row as int, column as int),
    {
        Binary64 { bits: array_get(self, row, column) }
    }

    /// Reads a column.
    pub fn read_column(&self, column: usize) -> (r: Vec<Binary64>)
        requires
            column < self.width(),
        ensures
            r@ == self.column(column as int),
    {
        let rows = self.nrows();
        let mut r: Vec<Binary64> = Vec::new();
        for i in 0..rows
            invariant
                rows == self.height(),
                column < self.width(),
                r@ == self.column(column as int).take(i as int),
        {
            r.push(self.get(i, column));
            assert(r@ =~= self.column(column as int).take(i + 1));
        }
        assert(r@ =~= self.column(column as int));
        r
    }

    /// Writes a column.
    pub fn write_column(&mut self, column: usize, values: &Vec<Binary64>)
        requires
            column < old(self).width(),
            values@.len() == old(self).height(),
        ensures
            final(self).same_shape(*old(self)),
            final(self).column(column as int) == values@,
            forall|i: int, j: int|
                j != column ==> #[trigger] final(self).at(i, j) == old(self).at(i, j),
    {
        let rows = self.nrows();
        for i in 0..rows
            invariant
                rows == old(self).height(),
                values@.len() == rows,
                column < old(self).width(),
                self.same_shape(*old(self)),
                forall|k: int| 0 <= k < i ==> #[trigger] self.at(k, column as int) == values@[k],
                forall|k: int, j: int|
                    j != column ==> #[trigger] self.at(k, j) == old(self).at(k, j),
        {
            self.set(i, column, values[i]);
        }
        assert(self.column(column as int) =~= values@);
    }

    pub fn set(&mut self, row: usize, column: usize, value: Binary64)
        requires
            row < old(self).height(),
            column < old(self).width(),
        ensures
            final(self).same_shape(*old(self)),
            forall|i: int, j: int| #[trigger]
                final(self).at(i, j) == if i == row && j == column {
                    value
                } else {
                    old(self).at(i, j)
                },
    {
        array_set(self, row, column, value.bits)
    }
}

impl Clone for Matrix {
    fn clone(&self) -> (r: Self)
        ensures
            r.same_shape(*self),
            forall|i: int, j: int| #[trigger] r.at(i, j) == self.at(i, j),
    {
        array_clone(self)
    }
}

/// Every element of `r` is what `num` answers to the sum of those of `a` and `b`.
pub open spec fn is_matrix_sum<N: Numerics>(num: &N, a: Matrix, b: Matrix, r: Matrix) -> bool {
    &&& r.same_shape(a)
    &&& forall|i: int, j: int|
        0 <= i < a.height() && 0 <= j < a.width() ==> is_sum(
            num,
            a.at(i, j),
            b.at(i, j),
            #[trigger] r.at(i, j),
        )
}

/// Every element of `r` is what `num` answers to the difference of those of `a` and `b`.
pub open spec fn is_matrix_difference<N: Numerics>(
    num: &N,
    a: Matrix,
    b: Matrix,
    r: Matrix,
) -> bool {
    &&& r.same_shape(a)
    &&& forall|i: int, j: int|
        0 <= i < a.height() && 0 <= j < a.width() ==> is_difference(
            num,
            a.at(i, j),
            b.at(i, j),
            #[trigger] r.at(i, j),
        )
}

/// `a + b`, element by element.
pub fn matrix_sum<N: Numerics>(num: &N, a: &Matrix, b: &Matrix) -> (r: Matrix)
    requires
        a.same_shape(*b),
        can_allocate(a.height() as int, a.width() as int),
    ensures
        is_matrix_sum(num, *a, *b, r),
{
    let rows = a.nrows();
    let columns = a.ncols();
    let mut r = Matrix::filled(rows, columns, Binary64 { bits: 0 });
    for i in 0..rows
        invariant
            rows == a.height(),
            columns == a.width(),
            a.same_shape(*b),
            r.same_shape(*a),
            forall|k: int, l: int|
                0 <= k < i && 0 <= l < columns ==> is_sum(
                    num,
                    a.at(k, l),
                    b.at(k, l),
                    #[trigger] r.at(k, l),
                ),
    {
        for j in 0..columns
            invariant
                i < rows,
                rows == a.height(),
                columns == a.width(),
                a.same_shape(*b),
                r.same_shape(*a),
                forall|k: int, l: int|
                    0 <= k < i && 0 <= l < columns ==> is_sum(
                        num,
                        a.at(k, l),
                        b.at(k, l),
                        #[trigger] r.at(k, l),
                    ),
                forall|l: int|
                    0 <= l < j ==> is_sum(
                        num,
                        a.at(i as int, l),
                        b.at(i as int, l),
                        #[trigger] r.at(i as int, l),
                    ),
        {
            let value = num.plus(a.get(i, j), b.get(i, j));
            r.set(i, j, value);
        }
    }
    r
}

/// `a - b`, element by element.
pub fn matrix_difference<N: Numerics>(num: &N, a: &Matrix, b: &Matrix) -> (r: Matrix)
    requires
        a.same_shape(*b),
        can_allocate(a.height() as int, a.width() as int),
    ensures
        is_matrix_difference(num, *a, *b, r),
{
    let rows = a.nrows();
    let columns = a.ncols();
    let mut r = Matrix::filled(rows, columns, Binary64 { bits: 0 });
    for i in 0..rows
        invariant
            rows == a.height(),
            columns == a.width(),
            a.same_shape(*b),
            r.same_shape(*a),
            forall|k: int, l: int|
                0 <= k < i && 0 <= l < columns ==> is_difference(
                    num,
                    a.at(k, l),
                    b.at(k, l),
                    #[trigger] r.at(k, l),
                ),
    {
        for j in 0..columns
            invariant
                i < rows,
                rows == a.height(),
                columns == a.width(),
                a.same_shape(*b),
                r.same_shape(*a),
                forall|k: int, l: int|
                    0 <= k < i && 0 <= l < columns ==> is_difference(
                        num,
                        a.at(k, l),
                        b.at(k, l),
                        #[trigger] r.at(k, l),
                    ),
                forall|l: int|
                    0 <= l < j ==> is_difference(
                        num,
                        a.at(i as int, l),
                        b.at(i as int, l),
                        #[trigger] r.at(i as int, l),
                    ),
        {
            let value = num.minus(a.get(i, j), b.get(i, j));
            r.set(i, j, value);
        }
    }
    r
}

/// The numbers of the first `n` rows in one sequence, row after row.
pub open spec fn flattened_rows(m: Matrix, n: nat) -> Seq<Binary64>
    decreases n,
{
    if n == 0 {
        Seq::empty()
    } else {
        flattened_rows(m, (n - 1) as nat) + m.row(n - 1)
    }
}

/// The numbers of an array in one sequence, row after row.
pub open spec fn flattened(m: Matrix) -> Seq<Binary64> {
    flattened_rows(m, m.height())
}

/// Lays the rows of an array one after the other.
pub fn flat(m: &Matrix) -> (r: Vec<Binary64>)
    ensures
        r@ == flattened(*m),
{
    let rows = m.nrows();
    let columns = m.ncols();
    let mut r: Vec<Binary64> = Vec::new();
    for i in 0..rows
        invariant
            rows == m.height(),
            columns == m.width(),
            r@ == flattened_rows(*m, i as nat),
    {
        let ghost before = r@;
        for j in 0..columns
            invariant
                i < rows,
                rows == m.height(),
                columns == m.width(),
                r@ == before + m.row(i as int).take(j as int),
        {
            r.push(m.get(i, j));
            assert(r@ =~= before + m.row(i as int).take(j + 1));
        }
        assert(m.row(i as int).take(columns as int) =~= m.row(i as int));
    }
    r
}

} // verus!
