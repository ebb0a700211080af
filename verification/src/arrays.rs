//! The `ndarray` arrays that the cache model and the schedulers share.
//!
//! Each holder keeps one `ndarray` array in a private field. What it holds is
//! named by a specification function; the few array operations the library
//! uses are stated over that name and are not proved here. Everything else in
//! this file is verified against those statements.

use vstd::prelude::*;

verus! {

/// A one-dimensional `ndarray::Array1<usize>`: block counts per query.
#[verifier::external_body]
#[derive(Debug)]
pub struct CountArray {
    inner: ndarray::Array1<usize>,
}

/// The elements of a [`CountArray`], in index order.
pub uninterp spec fn count_items(a: CountArray) -> Seq<usize>;

impl View for CountArray {
    type V = Seq<usize>;

    open spec fn view(&self) -> Seq<usize> {
        count_items(*self)
    }
}

impl Clone for CountArray {
    /// A copy that holds the same elements in the same order.
    fn clone(&self) -> (r: Self)
        ensures
            r@ == self@,
    {
        CountArray::from_vec(self.to_vec())
    }
}

impl CountArray {
    /// `Array1::zeros`: an array of `n` zeros. The shape must fit in `isize`,
    /// which is what the constructor asks for.
    #[verifier::external_body]
    fn raw_zeros(n: usize) -> (r: CountArray)
        requires
            n <= isize::MAX,
        ensures
            count_items(r) == Seq::new(n as nat, |i: int| 0usize),
    {
        CountArray { inner: ndarray::Array1::zeros(n) }
    }

    /// `ArrayBase::len`: the number of elements.
    #[verifier::external_body]
    fn raw_len(&self) -> (r: usize)
        ensures
            r == count_items(*self).len(),
    {
        self.inner.len()
    }

    /// `ArrayBase::get`: the element at `i`, or `None` past the end.
    #[verifier::external_body]
    fn raw_get(&self, i: usize) -> (r: Option<usize>)
        ensures
            r == (if i < count_items(*self).len() {
                Some(count_items(*self)[i as int])
            } else {
                None
            }),
    {
        self.inner.get(i).copied()
    }

    /// Indexing with `[i]`, which panics past the end.
    #[verifier::external_body]
    fn raw_at(&self, i: usize) -> (r: usize)
        requires
            i < count_items(*self).len(),
        ensures
            r == count_items(*self)[i as int],
    {
        self.inner[i]
    }

    /// Assignment through `[i]`, which panics past the end.
    #[verifier::external_body]
    fn raw_set(&mut self, i: usize, v: usize)
        requires
            i < count_items(*old(self)).len(),
        ensures
            count_items(*final(self)) == count_items(*old(self)).update(i as int, v),
    {
        self.inner[i] = v;
    }

    /// `ArrayBase::fill`: every element becomes `v`.
    #[verifier::external_body]
    fn raw_fill(&mut self, v: usize)
        ensures
            count_items(*final(self)) == Seq::new(count_items(*old(self)).len(), |i: int| v),
    {
        self.inner.fill(v);
    }

    /// `Array1::from_vec`: the array takes over the vector's elements, in
    /// order. A vector of machine words is never too long for an array.
    #[verifier::external_body]
    fn raw_from_vec(v: Vec<usize>) -> (r: CountArray)
        ensures
            count_items(r) == v@,
    {
        CountArray { inner: ndarray::Array1::from_vec(v) }
    }

    /// An array of `n` zeros.
    pub fn zeros(n: usize) -> (r: CountArray)
        requires
            n <= isize::MAX,
        ensures
            r@ == Seq::new(n as nat, |i: int| 0usize),
    {
        CountArray::raw_zeros(n)
    }

    /// The number of elements.
    pub fn len(&self) -> (r: usize)
        ensures
            r == self@.len(),
    {
        self.raw_len()
    }

    /// The element at `i`, or `None` when `i` is past the end.
    pub fn get(&self, i: usize) -> (r: Option<usize>)
        ensures
            r == (if i < self@.len() { Some(self@[i as int]) } else { None::<usize> }),
    {
        self.raw_get(i)
    }

    /// The element at `i`.
    pub fn at(&self, i: usize) -> (r: usize)
        requires
            i < self@.len(),
        ensures
            r == self@[i as int],
    {
        self.raw_at(i)
    }

    /// Stores `v` at `i` and leaves the other elements as they are.
    pub fn set(&mut self, i: usize, v: usize)
        requires
            i < old(self)@.len(),
        ensures
            final(self)@ == old(self)@.update(i as int, v),
    {
        self.raw_set(i, v);
    }

    /// Sets every element to `v`.
    pub fn fill(&mut self, v: usize)
        ensures
            final(self)@ == Seq::new(old(self)@.len(), |i: int| v),
    {
        self.raw_fill(v);
    }

    /// The array that holds the elements of `v`, in order.
    pub fn from_vec(v: Vec<usize>) -> (r: CountArray)
        ensures
            r@ == v@,
    {
        CountArray::raw_from_vec(v)
    }

    /// The elements as a vector, in order.
    pub fn to_vec(&self) -> (r: Vec<usize>)
        ensures
            r@ == self@,
    {
        let n: usize = self.raw_len();
        let mut out: Vec<usize> = Vec::new();
        let mut i: usize = 0;
        while i < n
            invariant
                n == self@.len(),
                i <= n,
                out@.len() == i,
                forall|k: int| 0 <= k < i ==> out@[k] == self@[k],
            decreases n - i,
        {
            out.push(self.raw_at(i));
            i += 1;
        }
        assert(out@ =~= self@);
        out
    }
}

/// A one-dimensional `ndarray::Array1<u64>`: fixed-point weights, such as
/// the marginal utility of each further block.
#[verifier::external_body]
#[derive(Debug)]
pub struct WeightArray {
    inner: ndarray::Array1<u64>,
}

/// The elements of a [`WeightArray`], in index order.
pub uninterp spec fn weight_items(a: WeightArray) -> Seq<u64>;

impl View for WeightArray {
    type V = Seq<u64>;

    open spec fn view(&self) -> Seq<u64> {
        weight_items(*self)
    }
}

impl Clone for WeightArray {
    /// A copy that holds the same elements in the same order.
    fn clone(&self) -> (r: Self)
        ensures
            r@ == self@,
    {
        WeightArray::from_vec(self.to_vec())
    }
}

impl WeightArray {
    /// `ArrayBase::len`: the number of elements.
    #[verifier::external_body]
    fn raw_len(&self) -> (r: usize)
        ensures
            r == weight_items(*self).len(),
    {
        self.inner.len()
    }

    /// Indexing with `[i]`, which panics past the end.
    #[verifier::external_body]
    fn raw_at(&self, i: usize) -> (r: u64)
        requires
            i < weight_items(*self).len(),
        ensures
            r == weight_items(*self)[i as int],
    {
        self.inner[i]
    }

    /// `Array1::from_vec`: the array takes over the vector's elements, in
    /// order. A vector of integers is never too long for an array.
    #[verifier::external_body]
    fn raw_from_vec(v: Vec<u64>) -> (r: WeightArray)
        ensures
            weight_items(r) == v@,
    {
        WeightArray { inner: ndarray::Array1::from_vec(v) }
    }

    /// The number of elements.
    pub fn len(&self) -> (r: usize)
        ensures
            r == self@.len(),
    {
        self.raw_len()
    }

    /// The element at `i`.
    pub fn at(&self, i: usize) -> (r: u64)
        requires
            i < self@.len(),
        ensures
            r == self@[i as int],
    {
        self.raw_at(i)
    }

    /// The array that holds the elements of `v`, in order.
    pub fn from_vec(v: Vec<u64>) -> (r: WeightArray)
        ensures
            r@ == v@,
    {
        WeightArray::raw_from_vec(v)
    }

    /// The elements as a vector, in order.
    pub fn to_vec(&self) -> (r: Vec<u64>)
        ensures
            r@ == self@,
    {
        let n: usize = self.raw_len();
        let mut out: Vec<u64> = Vec::new();
        let mut i: usize = 0;
        while i < n
            invariant
                n == self@.len(),
                i <= n,
                out@.len() == i,
                forall|k: int| 0 <= k < i ==> out@[k] == self@[k],
            decreases n - i,
        {
            out.push(self.raw_at(i));
            i += 1;
        }
        assert(out@ =~= self@);
        out
    }
}

/// A two-dimensional `ndarray::Array2<u64>`: one row per query, one column
/// per slot or per block.
#[verifier::external_body]
#[derive(Debug)]
pub struct WeightMatrix {
    inner: ndarray::Array2<u64>,
}

/// The rows of a [`WeightMatrix`], each with its cells in column order.
pub uninterp spec fn matrix_rows(m: WeightMatrix) -> Seq<Seq<u64>>;

/// The number of columns of a [`WeightMatrix`], which it has even without
/// rows.
pub uninterp spec fn matrix_width(m: WeightMatrix) -> nat;

impl View for WeightMatrix {
    type V = Seq<Seq<u64>>;

    open spec fn view(&self) -> Seq<Seq<u64>> {
        matrix_rows(*self)
    }
}

impl WeightMatrix {
    /// `Array2::zeros`: `rows` by `cols` zeros. The constructor panics when
    /// the number of cells overflows `isize`.
    #[verifier::external_body]
    fn raw_zeros(rows: usize, cols: usize) -> (r: WeightMatrix)
        requires
            rows <= isize::MAX,
            cols <= isize::MAX,
            rows * cols <= isize::MAX,
        ensures
            matrix_width(r) == cols,
            matrix_rows(r) == Seq::new(rows as nat, |i: int| Seq::new(cols as nat, |j: int| 0u64)),
    {
        WeightMatrix { inner: ndarray::Array2::zeros((rows, cols)) }
    }

    /// `ArrayBase::nrows`: the number of rows.
    #[verifier::external_body]
    fn raw_nrows(&self) -> (r: usize)
        ensures
            r == matrix_rows(*self).len(),
    {
        self.inner.nrows()
    }

    /// `ArrayBase::ncols`: the number of columns, which every row has.
    #[verifier::external_body]
    fn raw_ncols(&self) -> (r: usize)
        ensures
            r == matrix_width(*self),
            forall|i: int| 0 <= i < matrix_rows(*self).len() ==> (#[trigger] matrix_rows(*self)[i]).len() == r,
    {
        self.inner.ncols()
    }

    /// Indexing with `[(row, col)]`, which panics outside the matrix.
    #[verifier::external_body]
    fn raw_at(&self, row: usize, col: usize) -> (r: u64)
        requires
            row < matrix_rows(*self).len(),
            col < matrix_rows(*self)[row as int].len(),
        ensures
            r == matrix_rows(*self)[row as int][col as int],
    {
        self.inner[(row, col)]
    }

    /// Assignment through `[(row, col)]`, which panics outside the matrix.
    #[verifier::external_body]
    fn raw_set(&mut self, row: usize, col: usize, v: u64)
        requires
            row < matrix_rows(*old(self)).len(),
            col < matrix_rows(*old(self))[row as int].len(),
        ensures
            matrix_width(*final(self)) == matrix_width(*old(self)),
            matrix_rows(*final(self)) == matrix_rows(*old(self)).update(
                row as int,
                matrix_rows(*old(self))[row as int].update(col as int, v),
            ),
    {
        self.inner[(row, col)] = v;
    }

    /// Every row has as many cells as the matrix has columns.
    pub open spec fn wf(&self) -> bool {
        forall|i: int| 0 <= i < self@.len() ==> (#[trigger] self@[i]).len() == self.width()
    }

    /// The number of columns.
    pub open spec fn width(&self) -> nat {
        matrix_width(*self)
    }

    /// A matrix of `rows` by `cols` zeros.
    pub fn zeros(rows: usize, cols: usize) -> (r: WeightMatrix)
        requires
            rows <= isize::MAX,
            cols <= isize::MAX,
            rows * cols <= isize::MAX,
        ensures
            r.wf(),
            r.width() == cols,
            r@ == Seq::new(rows as nat, |i: int| Seq::new(cols as nat, |j: int| 0u64)),
    {
        WeightMatrix::raw_zeros(rows, cols)
    }

    /// The number of rows.
    pub fn nrows(&self) -> (r: usize)
        ensures
            r == self@.len(),
    {
        self.raw_nrows()
    }

    /// The number of columns.
    pub fn ncols(&self) -> (r: usize)
        ensures
            r == self.width(),
            self.wf(),
    {
        self.raw_ncols()
    }

    /// The cell at `row` and `col`.
    pub fn at(&self, row: usize, col: usize) -> (r: u64)
        requires
            row < self@.len(),
            col < self@[row as int].len(),
        ensures
            r == self@[row as int][col as int],
    {
        self.raw_at(row, col)
    }

    /// Stores `v` at `row` and `col` and leaves the other cells as they are.
    pub fn set(&mut self, row: usize, col: usize, v: u64)
        requires
            row < old(self)@.len(),
            col < old(self)@[row as int].len(),
        ensures
            final(self).width() == old(self).width(),
            final(self)@ == old(self)@.update(
                row as int,
                old(self)@[row as int].update(col as int, v),
            ),
    {
        self.raw_set(row, col, v);
    }

    /// The cell at `row` and `col`, or `None` outside the matrix.
    pub fn get(&self, row: usize, col: usize) -> (r: Option<u64>)
        ensures
            r == (if row < self@.len() && col < self@[row as int].len() {
                Some(self@[row as int][col as int])
            } else {
                None::<u64>
            }),
    {
        let cols: usize = self.raw_ncols();
        if row < self.raw_nrows() && col < cols {
            Some(self.raw_at(row, col))
        } else {
            None
        }
    }
}

/// A three-dimensional `ndarray::Array3<u64>`: one layer per query, one row
/// per block, one column per slot.
#[verifier::external_body]
#[derive(Debug)]
pub struct WeightCube {
    inner: ndarray::Array3<u64>,
}

/// The layers of a [`WeightCube`], each with its rows, each row with its
/// cells in column order.
pub uninterp spec fn cube_layers(c: WeightCube) -> Seq<Seq<Seq<u64>>>;

impl View for WeightCube {
    type V = Seq<Seq<Seq<u64>>>;

    open spec fn view(&self) -> Seq<Seq<Seq<u64>>> {
        cube_layers(*self)
    }
}

impl WeightCube {
    /// `Array3::zeros`: `layers` by `rows` by `cols` zeros. The constructor
    /// panics when the number of cells overflows `isize`.
    #[verifier::external_body]
    fn raw_zeros(layers: usize, rows: usize, cols: usize) -> (r: WeightCube)
        requires
            layers <= isize::MAX,
            rows <= isize::MAX,
            cols <= isize::MAX,
            layers * rows <= isize::MAX,
            layers * cols <= isize::MAX,
            rows * cols <= isize::MAX,
            layers * rows * cols <= isize::MAX,
        ensures
            cube_layers(r) == Seq::new(
                layers as nat,
                |i: int| Seq::new(rows as nat, |j: int| Seq::new(cols as nat, |k: int| 0u64)),
            ),
    {
        WeightCube { inner: ndarray::Array3::zeros((layers, rows, cols)) }
    }

    /// Indexing with `[(layer, row, col)]`, which panics outside the cube.
    #[verifier::external_body]
    fn raw_at(&self, layer: usize, row: usize, col: usize) -> (r: u64)
        requires
            layer < cube_layers(*self).len(),
            row < cube_layers(*self)[layer as int].len(),
            col < cube_layers(*self)[layer as int][row as int].len(),
        ensures
            r == cube_layers(*self)[layer as int][row as int][col as int],
    {
        self.inner[(layer, row, col)]
    }

    /// Assignment through `[(layer, row, col)]`, which panics outside the
    /// cube.
    #[verifier::external_body]
    fn raw_set(&mut self, layer: usize, row: usize, col: usize, v: u64)
        requires
            layer < cube_layers(*old(self)).len(),
            row < cube_layers(*old(self))[layer as int].len(),
            col < cube_layers(*old(self))[layer as int][row as int].len(),
        ensures
            cube_layers(*final(self)) == cube_layers(*old(self)).update(
                layer as int,
                cube_layers(*old(self))[layer as int].update(
                    row as int,
                    cube_layers(*old(self))[layer as int][row as int].update(col as int, v),
                ),
            ),
    {
        self.inner[(layer, row, col)] = v;
    }

    /// `ArrayBase::dim`: the numbers of layers, rows and columns, which
    /// every layer and every row has.
    #[verifier::external_body]
    fn raw_dim(&self) -> (r: (usize, usize, usize))
        ensures
            r.0 == cube_layers(*self).len(),
            forall|i: int|
                0 <= i < cube_layers(*self).len() ==> (#[trigger] cube_layers(*self)[i]).len()
                    == r.1,
            forall|i: int, j: int|
                0 <= i < cube_layers(*self).len() && 0 <= j < cube_layers(*self)[i].len() ==> (
                #[trigger] cube_layers(*self)[i][j]).len() == r.2,
    {
        self.inner.dim()
    }

    /// A cube of this shape can be made: neither its sides nor its faces nor
    /// the whole of it has more than `isize::MAX` cells.
    pub open spec fn fits(layers: int, rows: int, cols: int) -> bool {
        &&& 0 <= layers <= isize::MAX
        &&& 0 <= rows <= isize::MAX
        &&& 0 <= cols <= isize::MAX
        &&& layers * rows <= isize::MAX
        &&& layers * cols <= isize::MAX
        &&& rows * cols <= isize::MAX
        &&& layers * rows * cols <= isize::MAX
    }

    /// Whether a cube of this shape can be made.
    pub fn can_hold(layers: usize, rows: usize, cols: usize) -> (r: bool)
        ensures
            r == WeightCube::fits(layers as int, rows as int, cols as int),
    {
        let limit: usize = isize::MAX as usize;
        if layers > limit || rows > limit || cols > limit {
            return false;
        }
        if rows > 0 && layers > limit / rows {
            proof {
                assert(layers * rows > isize::MAX) by (nonlinear_arith)
                    requires
                        layers > (isize::MAX as int) / (rows as int),
                        rows > 0,
                ;
            }
            return false;
        }
        proof {
            assert(layers * rows <= isize::MAX) by (nonlinear_arith)
                requires
                    rows == 0 || layers <= (isize::MAX as int) / (rows as int),
                    0 <= rows,
                    0 <= layers,
            ;
        }
        let faces: usize = layers * rows;
        if cols > 0 && (faces > limit / cols || rows > limit / cols || layers > limit / cols) {
            proof {
                assert(faces * cols > isize::MAX || rows * cols > isize::MAX || layers * cols
                    > isize::MAX) by (nonlinear_arith)
                    requires
                        faces > (isize::MAX as int) / (cols as int) || rows > (isize::MAX as int)
                            / (cols as int) || layers > (isize::MAX as int) / (cols as int),
                        cols > 0,
                ;
            }
            return false;
        }
        proof {
            assert(faces * cols <= isize::MAX && rows * cols <= isize::MAX && layers * cols
                <= isize::MAX) by (nonlinear_arith)
                requires
                    cols == 0 || (faces <= (isize::MAX as int) / (cols as int) && rows
                        <= (isize::MAX as int) / (cols as int) && layers <= (isize::MAX as int)
                        / (cols as int)),
                    0 <= cols,
                    0 <= faces,
                    0 <= rows,
                    0 <= layers,
            ;
        }
        true
    }

    /// A cube of `layers` by `rows` by `cols` zeros.
    pub fn zeros(layers: usize, rows: usize, cols: usize) -> (r: WeightCube)
        requires
            WeightCube::fits(layers as int, rows as int, cols as int),
        ensures
            r@ == Seq::new(
                layers as nat,
                |i: int| Seq::new(rows as nat, |j: int| Seq::new(cols as nat, |k: int| 0u64)),
            ),
    {
        WeightCube::raw_zeros(layers, rows, cols)
    }

    /// The numbers of layers, rows and columns.
    pub fn dim(&self) -> (r: (usize, usize, usize))
        ensures
            r.0 == self@.len(),
            forall|i: int| 0 <= i < self@.len() ==> (#[trigger] self@[i]).len() == r.1,
            forall|i: int, j: int|
                0 <= i < self@.len() && 0 <= j < self@[i].len() ==> (#[trigger] self@[i][j]).len()
                    == r.2,
    {
        self.raw_dim()
    }

    /// The cell at `layer`, `row` and `col`.
    pub fn at(&self, layer: usize, row: usize, col: usize) -> (r: u64)
        requires
            layer < self@.len(),
            row < self@[layer as int].len(),
            col < self@[layer as int][row as int].len(),
        ensures
            r == self@[layer as int][row as int][col as int],
    {
        self.raw_at(layer, row, col)
    }

    /// Stores `v` at `layer`, `row` and `col` and leaves the other cells as
    /// they are.
    pub fn set(&mut self, layer: usize, row: usize, col: usize, v: u64)
        requires
            layer < old(self)@.len(),
            row < old(self)@[layer as int].len(),
            col < old(self)@[layer as int][row as int].len(),
        ensures
            final(self)@ == old(self)@.update(
                layer as int,
                old(self)@[layer as int].update(
                    row as int,
                    old(self)@[layer as int][row as int].update(col as int, v),
                ),
            ),
    {
        self.raw_set(layer, row, col, v);
    }
}

} // verus!
