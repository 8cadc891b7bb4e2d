use vstd::prelude::*;

verus! {

/// A read-only view of a square matrix: `column_len` columns over a flat
/// row-major slice, so cell (r, c) sits at index `r * column_len + c`.
#[derive(Clone, Debug)]
pub struct Matrix<'r, T: 'r> {
    column_len: usize,
    values: &'r [T],
}

impl<'r, T: Copy> Matrix<'r, T> {
    /// The number of columns (and of rows).
    pub closed spec fn spec_column_len(self) -> int {
        self.column_len as int
    }

    /// The flat row-major contents.
    pub closed spec fn spec_values(self) -> Seq<T> {
        self.values@
    }

    pub fn new(column_len: usize, values: &'r [T]) -> (r: Matrix<'r, T>)
        ensures
            r.spec_column_len() == column_len,
            r.spec_values() == values@,
    {
        Matrix { column_len, values }
    }

    pub fn column_len(&self) -> (r: usize)
        ensures
            r == self.spec_column_len(),
    {
        self.column_len
    }

    pub fn values(&self) -> (r: &[T])
        ensures
            r@ == self.spec_values(),
    {
        self.values
    }

    /// The `row`-th row, as a contiguous slice of `column_len` cells.
    pub fn row(&self, row: usize) -> (r: &[T])
        requires
            (row + 1) * self.spec_column_len() <= self.spec_values().len(),
        ensures
            r@ == self.spec_values().subrange(
                row * self.spec_column_len(),
                (row + 1) * self.spec_column_len(),
            ),
    {
        let len = self.values.len();
        assert(len == self.spec_values().len());
        assert(row * self.column_len + self.column_len == (row + 1) * self.column_len)
            by (nonlinear_arith);
        let start = row * self.column_len;
        let end = start + self.column_len;
        vstd::slice::slice_subrange(self.values, start, end)
    }
}

impl<'r, T: PartialEq> PartialEq for Matrix<'r, T> {
    fn eq(&self, other: &Matrix<'r, T>) -> bool {
        if self.column_len != other.column_len || self.values.len() != other.values.len() {
            return false;
        }
        let n = self.values.len();
        let mut i: usize = 0;
        while i < n
            invariant
                n == self.values@.len(),
                n == other.values@.len(),
                i <= n,
            decreases n - i,
        {
            let a = vstd::slice::slice_index_get(self.values, i);
            let b = vstd::slice::slice_index_get(other.values, i);
            if !(a == b) {
                return false;
            }
            i = i + 1;
        }
        true
    }
}

impl<'r, T: PartialEq> vstd::std_specs::cmp::PartialEqSpecImpl for Matrix<'r, T> {
    open spec fn obeys_eq_spec() -> bool {
        false
    }

    open spec fn eq_spec(&self, other: &Matrix<'r, T>) -> bool {
        true
    }
}

/// A mutable view of a square matrix over a flat row-major slice.  The
/// fields are public so that contracts can connect the view to the slice
/// it borrows from.
#[derive(Debug)]
pub struct MatrixMut<'r, T: 'r> {
    pub column_len: usize,
    pub values: &'r mut [T],
}

impl<'r, T: Copy> MatrixMut<'r, T> {
    pub fn new(column_len: usize, values: &'r mut [T]) -> (r: MatrixMut<'r, T>)
        ensures
            r.column_len == column_len,
            r.values@ == old(values)@,
            final(values)@ == final(r.values)@,
    {
        MatrixMut { column_len, values }
    }

    pub fn column_len(&self) -> (r: usize)
        ensures
            r == self.column_len,
    {
        self.column_len
    }

    pub fn values(&mut self) -> (r: &mut [T])
        ensures
            (*r)@ == old(self).values@,
            final(self).column_len == old(self).column_len,
            final(self).values@ == final(r)@,
            final(final(self).values)@ == final(old(self).values)@,
    {
        self.values
    }

    /// Writes cell (`row`, `column`).
    pub fn set(&mut self, row: usize, column: usize, value: T)
        requires
            row * old(self).column_len + column < old(self).values@.len(),
        ensures
            final(self).column_len == old(self).column_len,
            final(self).values@ == old(self).values@.update(
                row * old(self).column_len + column,
                value,
            ),
            final(final(self).values)@ == final(old(self).values)@,
    {
        let index = self.to_index(row, column);
        self.set_by_index(index, value)
    }

    /// Writes the cell at flat row-major position `index`.
    pub fn set_by_index(&mut self, index: usize, value: T)
        requires
            index < old(self).values@.len(),
        ensures
            final(self).column_len == old(self).column_len,
            final(self).values@ == old(self).values@.update(index as int, value),
            final(final(self).values)@ == final(old(self).values)@,
    {
        self.values[index] = value
    }

    fn to_index(&self, row: usize, column: usize) -> (r: usize)
        requires
            row * self.column_len + column < self.values@.len(),
        ensures
            r == row * self.column_len + column,
    {
        let len = self.values.len();
        assert(len == self.values@.len());
        row * self.column_len + column
    }
}

/// Owned square-matrix storage: `column_len * column_len` cells, read
/// through `Matrix` views and written through `MatrixMut` views.
#[derive(Clone, Debug)]
pub struct MatrixBuf<T> {
    column_len: usize,
    values: Vec<T>,
}

impl<T: Copy> MatrixBuf<T> {
    /// The number of columns (and of rows).
    pub closed spec fn spec_column_len(self) -> int {
        self.column_len as int
    }

    /// The flat row-major contents.
    pub closed spec fn spec_values(self) -> Seq<T> {
        self.values@
    }

    /// A fresh matrix with every cell holding `value`.
    pub fn new(column_len: usize, value: T) -> (r: MatrixBuf<T>)
        requires
            column_len * column_len <= usize::MAX,
        ensures
            r.spec_column_len() == column_len,
            r.spec_values() == Seq::new((column_len * column_len) as nat, |i: int| value),
    {
        let total = column_len * column_len;
        let mut values: Vec<T> = Vec::new();
        while values.len() < total
            invariant
                values@.len() <= total,
                values@ == Seq::new(values@.len(), |i: int| value),
            decreases total - values@.len(),
        {
            values.push(value);
            assert(values@ =~= Seq::new(values@.len(), |i: int| value));
        }
        assert(values@ =~= Seq::new(total as nat, |i: int| value));
        MatrixBuf { column_len, values }
    }

    /// Writes cell (`row`, `column`) in place.
    pub(crate) fn set_cell(&mut self, row: usize, column: usize, value: T)
        requires
            row * old(self).spec_column_len() + column < old(self).spec_values().len(),
        ensures
            final(self).spec_column_len() == old(self).spec_column_len(),
            final(self).spec_values() == old(self).spec_values().update(
                row * old(self).spec_column_len() + column,
                value,
            ),
    {
        let len = self.values.len();
        assert(len == self.spec_values().len());
        let index = row * self.column_len + column;
        self.values[index] = value;
    }

    pub fn as_matrix<'r>(&'r self) -> (r: Matrix<'r, T>)
        ensures
            r.spec_column_len() == self.spec_column_len(),
            r.spec_values() == self.spec_values(),
    {
        Matrix::new(self.column_len, self.values.as_slice())
    }

    pub fn as_matrix_mut<'r>(&'r mut self) -> (r: MatrixMut<'r, T>)
        ensures
            r.column_len == old(self).spec_column_len(),
            r.values@ == old(self).spec_values(),
            final(self).spec_column_len() == old(self).spec_column_len(),
            final(self).spec_values() == final(r.values)@,
    {
        MatrixMut::new(self.column_len, self.values.as_mut_slice())
    }
}

} // verus!
