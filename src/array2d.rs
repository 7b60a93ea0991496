use vstd::prelude::*;

verus! {

/// A matrix of `rows` by `columns` cells held in one row-major buffer: cell
/// `(r, c)` lives at offset `r * columns + c`, and row `r` is the contiguous
/// range `[r * columns, (r + 1) * columns)`.
///
/// Convention: `rows_len` reports the number of rows and `columns_len` the
/// number of columns.
pub struct Array2D<T> {
    vec: Vec<T>,
    columns: usize,
    rows: usize,
}

impl<T> View for Array2D<T> {
    type V = Seq<Seq<T>>;

    /// The matrix as a sequence of rows.
    open spec fn view(&self) -> Seq<Seq<T>> {
        Seq::new(self.spec_rows(), |r: int| self.row_view(r))
    }
}

impl<T> Array2D<T> {
    /// The number of rows.
    pub closed spec fn spec_rows(&self) -> nat {
        self.rows as nat
    }

    /// The number of columns.
    pub closed spec fn spec_columns(&self) -> nat {
        self.columns as nat
    }

    /// The backing buffer, row after row.
    pub closed spec fn cells(&self) -> Seq<T> {
        self.vec@
    }

    /// The buffer holds exactly `rows * columns` cells, a count that fits in
    /// `usize`.
    pub open spec fn wf(&self) -> bool {
        &&& self.cells().len() == self.spec_rows() * self.spec_columns()
        &&& self.spec_rows() * self.spec_columns() <= usize::MAX
    }

    /// Whether `(row, column)` lies inside the matrix.
    pub open spec fn in_bounds(&self, row: int, column: int) -> bool {
        0 <= row < self.spec_rows() && 0 <= column < self.spec_columns()
    }

    /// The cell at `(row, column)`.
    pub open spec fn at(&self, row: int, column: int) -> T {
        self.cells()[row * self.spec_columns() + column]
    }

    /// Row `row` as a sequence of `columns` cells.
    pub open spec fn row_view(&self, row: int) -> Seq<T> {
        self.cells().subrange(row * self.spec_columns(), (row + 1) * self.spec_columns())
    }

    /// Makes a `rows` by `columns` matrix whose cells all hold `T::default()`.
    pub fn new(rows: usize, columns: usize) -> (r: Self)
        where
            T: Default,
        requires
            rows * columns <= usize::MAX,
        ensures
            r.wf(),
            r.spec_rows() == rows,
            r.spec_columns() == columns,
    {
        let total: usize = rows * columns;
        let mut vec: Vec<T> = Vec::with_capacity(total);
        let mut k: usize = 0;
        while k < total
            invariant
                k <= total,
                vec@.len() == k,
            decreases total - k,
        {
            vec.push(T::default());
            k = k + 1;
        }
        Array2D { vec, columns, rows }
    }

    /// Stores `value` at `(row, column)`; every other cell keeps its value.
    pub fn insert(&mut self, row: usize, column: usize, value: T)
        requires
            old(self).wf(),
            old(self).in_bounds(row as int, column as int),
        ensures
            final(self).wf(),
            final(self).spec_rows() == old(self).spec_rows(),
            final(self).spec_columns() == old(self).spec_columns(),
            final(self).cells() == old(self).cells().update(
                row * old(self).spec_columns() + column,
                value,
            ),
    {
        let ok = self.check_values(row, column);
        if ok {
            let index = self.get_index(row, column);
            self.vec.set(index, value);
        }
    }

    /// Stores `value` at `(row, column)` without testing the bounds at run
    /// time; the caller has established them.
    pub fn insert_unchecked(&mut self, row: usize, column: usize, value: T)
        requires
            old(self).wf(),
            old(self).in_bounds(row as int, column as int),
        ensures
            final(self).wf(),
            final(self).spec_rows() == old(self).spec_rows(),
            final(self).spec_columns() == old(self).spec_columns(),
            final(self).cells() == old(self).cells().update(
                row * old(self).spec_columns() + column,
                value,
            ),
    {
        let index = self.get_index(row, column);
        self.vec.set(index, value);
    }

    /// The cell at `(row, column)`.
    pub fn get(&self, row: usize, column: usize) -> (r: &T)
        requires
            self.wf(),
            self.in_bounds(row as int, column as int),
        ensures
            *r == self.at(row as int, column as int),
    {
        let index = self.get_index(row, column);
        &self.vec[index]
    }

    /// The number of rows.
    pub fn rows_len(&self) -> (r: usize)
        ensures
            r == self.spec_rows(),
    {
        self.rows
    }

    /// The number of columns.
    pub fn columns_len(&self) -> (r: usize)
        ensures
            r == self.spec_columns(),
    {
        self.columns
    }

    /// The buffer offset of `(row, column)`.
    fn get_index(&self, row: usize, column: usize) -> (r: usize)
        requires
            self.wf(),
            self.in_bounds(row as int, column as int),
        ensures
            r == row * self.spec_columns() + column,
            r < self.cells().len(),
    {
        proof {
            lemma_cell_in_buffer(row as int, column as int, self.rows as int, self.columns as int);
        }
        row * self.columns + column
    }

    /// Whether `(row, column)` lies inside the matrix; an access outside it is
    /// refused.
    pub fn check_values(&self, row: usize, column: usize) -> (r: bool)
        ensures
            r == self.in_bounds(row as int, column as int),
    {
        row < self.rows && column < self.columns
    }
}

impl<T> Array2D<T> {
    /// Row `row`: a view of exactly `columns` contiguous cells. Views of two
    /// different rows never share a cell.
    pub fn row(&self, row: usize) -> (r: &[T])
        requires
            self.wf(),
            row < self.spec_rows(),
        ensures
            r@ == self.row_view(row as int),
    {
        proof {
            lemma_row_in_buffer(row as int, self.rows as int, self.columns as int);
        }
        let start = row * self.columns;
        let end = start + self.columns;
        vstd::slice::slice_subrange(self.vec.as_slice(), start, end)
    }

    /// Walks the rows by reference, in ascending order.
    pub fn iter(&self) -> (r: Array2DIterator<'_, T>)
        requires
            self.wf(),
        ensures
            r.wf(),
            r.pending() == self@,
    {
        Array2DIterator { array: self, index: 0 }
    }

    /// Hands out the rows by value, in ascending order, consuming the matrix.
    pub fn into_iter(self) -> (r: Array2DIntoIterator<T>)
        requires
            self.wf(),
        ensures
            r.pending() == self@,
    {
        let ghost whole = self;
        let rows = self.rows;
        let columns = self.columns;
        let mut rest = self.vec;
        let mut reversed: Vec<Vec<T>> = Vec::new();
        let mut r: usize = rows;
        while r > 0
            invariant
                whole.wf(),
                r <= rows,
                r * columns <= rows * columns,
                rows == whole.spec_rows(),
                columns == whole.spec_columns(),
                rest@ == whole.cells().subrange(0, r * columns),
                reversed@.len() == rows - r,
                forall|k: int|
                    0 <= k < reversed@.len() ==> (#[trigger] reversed@[k])@ == whole.row_view(
                        rows - 1 - k,
                    ),
            decreases r,
        {
            proof {
                lemma_row_in_buffer((r - 1) as int, rows as int, columns as int);
                assert((r - 1) * columns + columns == r * columns) by (nonlinear_arith);
            }
            let tail = rest.split_off((r - 1) * columns);
            proof {
                assert(tail@ =~= whole.row_view(r - 1));
                assert(rest@ =~= whole.cells().subrange(0, (r - 1) * columns));
            }
            reversed.push(tail);
            r = r - 1;
            proof {
                lemma_row_in_buffer(r as int, rows as int, columns as int);
            }
        }
        let out = Array2DIntoIterator { reversed };
        assert(out.pending() =~= whole@);
        out
    }
}

/// Walks the rows of a borrowed matrix in ascending order; a new walk can be
/// started from the matrix at any time.
pub struct Array2DIterator<'a, T> {
    array: &'a Array2D<T>,
    index: usize,
}

impl<'a, T> Array2DIterator<'a, T> {
    /// The borrowed matrix is well formed and the walk has not run past it.
    pub closed spec fn wf(&self) -> bool {
        self.array.wf() && self.index <= self.array.spec_rows()
    }

    /// The rows not yet handed out, in order.
    pub closed spec fn pending(&self) -> Seq<Seq<T>> {
        self.array@.subrange(self.index as int, self.array.spec_rows() as int)
    }

    /// The next row, or `None` once every row has been handed out.
    pub fn next(&mut self) -> (r: Option<&'a [T]>)
        requires
            old(self).wf(),
        ensures
            final(self).wf(),
            old(self).pending().len() == 0 ==> r.is_none() && final(self).pending() == old(
                self,
            ).pending(),
            old(self).pending().len() > 0 ==> r.is_some() && r.unwrap()@ == old(self).pending()[0]
                && final(self).pending() == old(self).pending().drop_first(),
    {
        if self.index >= self.array.rows_len() {
            None
        } else {
            let row = self.array.row(self.index);
            self.index = self.index + 1;
            proof {
                assert(final(self).pending() =~= old(self).pending().drop_first());
            }
            Some(row)
        }
    }
}

/// Hands out the rows of a consumed matrix by value, in ascending order; a
/// single pass.
pub struct Array2DIntoIterator<T> {
    reversed: Vec<Vec<T>>,
}

impl<T> Array2DIntoIterator<T> {
    /// The rows not yet handed out, in order.
    pub closed spec fn pending(&self) -> Seq<Seq<T>> {
        Seq::new(self.reversed@.len(), |i: int| self.reversed@[self.reversed@.len() - 1 - i]@)
    }

    /// The next row, or `None` once every row has been handed out.
    pub fn next(&mut self) -> (r: Option<Vec<T>>)
        ensures
            old(self).pending().len() == 0 ==> r.is_none() && final(self).pending() == old(
                self,
            ).pending(),
            old(self).pending().len() > 0 ==> r.is_some() && r.unwrap()@ == old(self).pending()[0]
                && final(self).pending() == old(self).pending().drop_first(),
    {
        let r = self.reversed.pop();
        proof {
            if old(self).pending().len() > 0 {
                assert(final(self).pending() =~= old(self).pending().drop_first());
            }
        }
        r
    }
}

/// A row inside a `rows` by `columns` grid spans a range inside the buffer.
proof fn lemma_row_in_buffer(row: int, rows: int, columns: int)
    requires
        0 <= row < rows,
        0 <= columns,
    ensures
        0 <= row * columns,
        row * columns + columns == (row + 1) * columns,
        (row + 1) * columns <= rows * columns,
{
    assert(0 <= row * columns) by (nonlinear_arith)
        requires
            0 <= row,
            0 <= columns,
    ;
    assert(row * columns + columns == (row + 1) * columns) by (nonlinear_arith);
    assert((row + 1) * columns <= rows * columns) by (nonlinear_arith)
        requires
            0 <= row < rows,
            0 <= columns,
    ;
}

/// A cell inside a `rows` by `columns` grid has an offset inside the buffer.
proof fn lemma_cell_in_buffer(row: int, column: int, rows: int, columns: int)
    requires
        0 <= row < rows,
        0 <= column < columns,
    ensures
        0 <= row * columns + column < rows * columns,
        (row + 1) * columns <= rows * columns,
{
    assert(0 <= row * columns + column < rows * columns) by (nonlinear_arith)
        requires
            0 <= row < rows,
            0 <= column < columns,
    ;
    assert((row + 1) * columns <= rows * columns) by (nonlinear_arith)
        requires
            0 <= row < rows,
            0 <= column < columns,
    ;
}

} // verus!
