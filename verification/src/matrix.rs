//! Dense matrices and columns of amplitudes, held by `faer`.
use vstd::prelude::*;
use crate::amplitude::{one_bits, value, zero_bits, Bits, C};

verus! {

/// A dense matrix of amplitudes: a `faer::Mat`, whose own type is bounded by
/// traits of `faer` and so cannot be shown to the verifier, which sees the
/// matrix only through [`mat_cells`] and [`mat_width`].
#[verifier::external_body]
pub struct Matrix {
    inner: faer::Mat<C>,
}

/// What a matrix holds: its rows, top to bottom, each a sequence of the
/// values of its entries, as [`value`] reads them.
pub uninterp spec fn mat_cells(m: Matrix) -> Seq<Seq<Bits>>;

/// The number of columns of a matrix, which its rows cannot tell where there
/// is none.
pub uninterp spec fn mat_width(m: Matrix) -> nat;

/// Whether `faer` can lay out a matrix of amplitudes of this shape: it pads
/// every column to a multiple of four entries, takes sixteen bytes per entry
/// and aligns the block to 64 bytes, all of which must stay within
/// `isize::MAX`. As with every allocation, running out of memory is another
/// matter.
pub open spec fn alloc_fits(nrows: nat, ncols: nat) -> bool {
    nrows + 3 <= usize::MAX && 16 * ((nrows + 3) * ncols) + 64 <= isize::MAX
}

/// Whether all rows have the length of the first.
pub open spec fn rectangular(rows: Seq<Vec<C>>) -> bool {
    forall|i: int| 0 <= i < rows.len() ==> rows[i].len() == row_width(rows)
}

/// The length of the first row, or zero where there is none.
pub open spec fn row_width(rows: Seq<Vec<C>>) -> nat {
    if rows.len() == 0 {
        0
    } else {
        rows[0].len() as nat
    }
}

/// Decides [`alloc_fits`].
pub fn alloc_fits_exec(nrows: usize, ncols: usize) -> (r: bool)
    ensures
        r == alloc_fits(nrows as nat, ncols as nat),
{
    let limit: usize = (isize::MAX as usize - 64) / 16;
    if nrows > usize::MAX - 3 {
        false
    } else if ncols == 0 {
        true
    } else if nrows > limit - 3 {
        assert((nrows + 3) * ncols >= nrows + 3) by (nonlinear_arith)
            requires
                ncols >= 1,
        ;
        false
    } else {
        let padded: usize = nrows + 3;
        let most: usize = limit / padded;
        assert(ncols <= most <==> padded * ncols <= limit) by (nonlinear_arith)
            requires
                padded > 0,
                most == limit / padded,
        ;
        ncols <= most
    }
}

impl Matrix {
    /// The number of rows.
    pub open spec fn height(&self) -> nat {
        mat_cells(*self).len()
    }

    /// The number of columns.
    pub open spec fn width(&self) -> nat {
        mat_width(*self)
    }

    /// Whether `(i, j)` addresses an entry.
    pub open spec fn has(&self, i: int, j: int) -> bool {
        0 <= i < self.height() && 0 <= j < self.width()
    }

    /// The value of the entry in row `i`, column `j`.
    pub open spec fn at(&self, i: int, j: int) -> Bits {
        mat_cells(*self)[i][j]
    }

    /// Whether the matrix is square.
    pub open spec fn is_square(&self) -> bool {
        self.height() == self.width()
    }

    /// `faer::Mat::zeros`: a matrix of the given shape, every entry
    /// `Quad::ZERO`. It panics where the layout does not fit, which
    /// `requires` leaves out.
    #[verifier::external_body]
    pub(crate) fn zeros(nrows: usize, ncols: usize) -> (m: Matrix)
        requires
            alloc_fits(nrows as nat, ncols as nat),
        ensures
            m.height() == nrows,
            m.width() == ncols,
            forall|i: int, j: int| m.has(i, j) ==> m.at(i, j) == zero_bits(),
    {
        Matrix { inner: faer::Mat::zeros(nrows, ncols) }
    }

    /// `faer::Mat::identity`: a matrix of the given shape with `Quad(1.0, 0.0)`
    /// where row and column index agree and `Quad::ZERO` elsewhere. It panics
    /// where the layout does not fit, which `requires` leaves out.
    #[verifier::external_body]
    pub(crate) fn identity(nrows: usize, ncols: usize) -> (m: Matrix)
        requires
            alloc_fits(nrows as nat, ncols as nat),
        ensures
            m.height() == nrows,
            m.width() == ncols,
            forall|i: int, j: int|
                m.has(i, j) ==> m.at(i, j) == if i == j {
                    one_bits()
                } else {
                    zero_bits()
                },
    {
        Matrix { inner: faer::Mat::identity(nrows, ncols) }
    }

    /// `faer::Mat::nrows`.
    #[verifier::external_body]
    pub(crate) fn nrows(&self) -> (n: usize)
        ensures
            n == mat_cells(*self).len(),
    {
        self.inner.nrows()
    }

    /// `faer::Mat::ncols`.
    #[verifier::external_body]
    pub(crate) fn ncols(&self) -> (n: usize)
        ensures
            n == mat_width(*self),
    {
        self.inner.ncols()
    }

    /// Indexing a `faer::Mat` by `(row, column)`, which copies the entry out.
    /// It panics outside the matrix, which `requires` leaves out.
    #[verifier::external_body]
    pub(crate) fn get(&self, i: usize, j: usize) -> (a: C)
        requires
            self.has(i as int, j as int),
        ensures
            value(a) == self.at(i as int, j as int),
    {
        self.inner[(i, j)]
    }

    /// Assigning through the mutable index of a `faer::Mat`: the entry at
    /// `(i, j)` becomes `a`, every other entry and the shape stay. It panics
    /// outside the matrix, which `requires` leaves out.
    #[verifier::external_body]
    pub(crate) fn set(&mut self, i: usize, j: usize, a: C)
        requires
            old(self).has(i as int, j as int),
        ensures
            final(self).height() == old(self).height(),
            final(self).width() == old(self).width(),
            final(self).at(i as int, j as int) == value(a),
            forall|r: int, c: int|
                old(self).has(r, c) && (r != i || c != j) ==> final(self).at(r, c) == old(
                    self,
                ).at(r, c),
    {
        self.inner[(i, j)] = a;
    }

    /// `faer::Mat::adjoint`, copied into a matrix of its own. The entries are
    /// real double-doubles, whose conjugate is themselves, so the adjoint is
    /// the transpose. It panics where the copy cannot be laid out, which
    /// `requires` leaves out.
    #[verifier::external_body]
    pub(crate) fn adjoint(&self) -> (m: Matrix)
        requires
            alloc_fits(self.width(), self.height()),
        ensures
            m.height() == self.width(),
            m.width() == self.height(),
            forall|i: int, j: int| m.has(i, j) ==> m.at(i, j) == self.at(j, i),
    {
        Matrix { inner: self.inner.adjoint().to_owned() }
    }

    /// `faer::Mat::determinant`, by LU factorisation with partial pivoting.
    /// Its rounding follows the vector width of the processor, so nothing is
    /// said of the value. It panics on a matrix that is not square, which
    /// `requires` leaves out, and where `faer`'s global parallelism has been
    /// switched off, which this library never does.
    #[verifier::external_body]
    pub(crate) fn determinant(&self) -> (d: C)
        requires
            self.is_square(),
    {
        self.inner.determinant()
    }

    /// The product `self * rhs` of `faer`. Its rounding follows the vector
    /// width of the processor, so only the shape is stated. It panics where
    /// the inner dimensions differ or the result cannot be laid out, which
    /// `requires` leaves out, and where `faer`'s global parallelism has been
    /// switched off, which this library never does.
    #[verifier::external_body]
    pub(crate) fn times(&self, rhs: &Matrix) -> (m: Matrix)
        requires
            self.width() == rhs.height(),
            alloc_fits(self.height(), rhs.width()),
        ensures
            m.height() == self.height(),
            m.width() == rhs.width(),
    {
        Matrix { inner: &self.inner * &rhs.inner }
    }

    /// The product `self * v` of `faer` with a column. Its rounding follows
    /// the vector width of the processor, so only the length is stated. It
    /// panics where the column's length is not the matrix's width or the
    /// result cannot be laid out, which `requires` leaves out, and where
    /// `faer`'s global parallelism has been switched off, which this library
    /// never does.
    #[verifier::external_body]
    pub(crate) fn apply(&self, v: &Vector) -> (w: Vector)
        requires
            self.width() == v.size(),
            alloc_fits(self.height(), 1),
        ensures
            w.size() == self.height(),
    {
        Vector { inner: &self.inner * &v.inner }
    }

    /// The matrix with the given rows. There is none where the rows differ in
    /// length or the matrix cannot be laid out.
    pub fn from_rows(rows: &Vec<Vec<C>>) -> (r: Option<Matrix>)
        ensures
            r is Some <==> rectangular(rows@) && alloc_fits(rows.len() as nat, row_width(rows@)),
            r matches Some(m) ==> {
                &&& m.height() == rows.len()
                &&& m.width() == row_width(rows@)
                &&& forall|i: int, j: int| m.has(i, j) ==> m.at(i, j) == value(rows@[i]@[j])
            },
    {
        let nrows: usize = rows.len();
        let ncols: usize = if nrows == 0 {
            0
        } else {
            rows[0].len()
        };
        let mut k: usize = 0;
        while k < nrows
            invariant
                k <= nrows,
                nrows == rows.len(),
                ncols == row_width(rows@),
                forall|i: int| 0 <= i < k ==> rows@[i].len() == ncols,
            decreases nrows - k,
        {
            if rows[k].len() != ncols {
                return None;
            }
            k += 1;
        }
        if !alloc_fits_exec(nrows, ncols) {
            return None;
        }
        let mut m = Matrix::zeros(nrows, ncols);
        let mut i: usize = 0;
        while i < nrows
            invariant
                i <= nrows,
                nrows == rows.len(),
                rectangular(rows@),
                ncols == row_width(rows@),
                m.height() == nrows,
                m.width() == ncols,
                forall|r: int, c: int|
                    0 <= r < i && 0 <= c < ncols ==> m.at(r, c) == value(rows@[r]@[c]),
            decreases nrows - i,
        {
            let mut j: usize = 0;
            while j < ncols
                invariant
                    i < nrows,
                    j <= ncols,
                    nrows == rows.len(),
                    rows@[i as int].len() == ncols,
                    m.height() == nrows,
                    m.width() == ncols,
                    forall|r: int, c: int|
                        0 <= r < i && 0 <= c < ncols ==> m.at(r, c) == value(rows@[r]@[c]),
                    forall|c: int| 0 <= c < j ==> m.at(i as int, c) == value(rows@[i as int]@[c]),
                decreases ncols - j,
            {
                m.set(i, j, rows[i][j]);
                j += 1;
            }
            i += 1;
        }
        Some(m)
    }

    /// The numbers of rows and columns.
    pub fn shape(&self) -> (s: (usize, usize))
        ensures
            s.0 == self.height(),
            s.1 == self.width(),
    {
        (self.nrows(), self.ncols())
    }

    /// The entry in row `i`, column `j`, if there is one.
    pub fn entry(&self, i: usize, j: usize) -> (r: Option<C>)
        ensures
            r is Some <==> self.has(i as int, j as int),
            r matches Some(a) ==> value(a) == self.at(i as int, j as int),
    {
        if i < self.nrows() && j < self.ncols() {
            Some(self.get(i, j))
        } else {
            None
        }
    }
}

/// A column of amplitudes, the state of a circuit: a `faer::Col`, which the
/// verifier sees only through [`col_cells`].
#[verifier::external_body]
pub struct Vector {
    inner: faer::Col<C>,
}

/// What a column holds: the values of its entries, top to bottom, as
/// [`value`] reads them.
pub uninterp spec fn col_cells(v: Vector) -> Seq<Bits>;

impl Vector {
    /// The number of entries.
    pub open spec fn size(&self) -> nat {
        col_cells(*self).len()
    }

    /// The value of entry `i`.
    pub open spec fn at(&self, i: int) -> Bits {
        col_cells(*self)[i]
    }

    /// `faer::Col::zeros`: a column of the given length, every entry
    /// `Quad::ZERO`. It panics where the layout does not fit, which
    /// `requires` leaves out.
    #[verifier::external_body]
    pub(crate) fn zeros(nrows: usize) -> (v: Vector)
        requires
            alloc_fits(nrows as nat, 1),
        ensures
            v.size() == nrows,
            forall|i: int| 0 <= i < nrows ==> v.at(i) == zero_bits(),
    {
        Vector { inner: faer::Col::zeros(nrows) }
    }

    /// `faer::Col::nrows`.
    #[verifier::external_body]
    pub(crate) fn nrows(&self) -> (n: usize)
        ensures
            n == col_cells(*self).len(),
    {
        self.inner.nrows()
    }

    /// Indexing a `faer::Col`, which copies the entry out. It panics outside
    /// the column, which `requires` leaves out.
    #[verifier::external_body]
    pub(crate) fn get(&self, i: usize) -> (a: C)
        requires
            i < self.size(),
        ensures
            value(a) == self.at(i as int),
    {
        self.inner[i]
    }

    /// Assigning through the mutable index of a `faer::Col`: entry `i`
    /// becomes `a`, every other entry and the length stay. It panics outside
    /// the column, which `requires` leaves out.
    #[verifier::external_body]
    pub(crate) fn set(&mut self, i: usize, a: C)
        requires
            i < old(self).size(),
        ensures
            final(self).size() == old(self).size(),
            final(self).at(i as int) == value(a),
            forall|k: int|
                0 <= k < old(self).size() && k != i ==> final(self).at(k) == old(self).at(k),
    {
        self.inner[i] = a;
    }

    /// The number of entries.
    pub fn len(&self) -> (n: usize)
        ensures
            n == self.size(),
    {
        self.nrows()
    }

    /// Entry `i`, if there is one.
    pub fn entry(&self, i: usize) -> (r: Option<C>)
        ensures
            r is Some <==> i < self.size(),
            r matches Some(a) ==> value(a) == self.at(i as int),
    {
        if i < self.nrows() {
            Some(self.get(i))
        } else {
            None
        }
    }
}

} // verus!
