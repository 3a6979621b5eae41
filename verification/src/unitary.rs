//! The numeric checks that admit an operator into a gate.
use vstd::prelude::*;
use crate::amplitude::{
    amp_one, amp_sub, below, is_below, one_bits, quad_sub, value, Bits, C,
    DETERMINANT_TOLERANCE, IDENTITY_TOLERANCE,
};
use crate::matrix::{alloc_fits, alloc_fits_exec, Matrix};

verus! {

/// Whether the entry at `(i, j)` is what the identity has there, within
/// `tol`: on the diagonal its difference from one, elsewhere the entry
/// itself, has a magnitude below the tolerance.
pub open spec fn entry_of_identity(m: Matrix, i: int, j: int, tol: u64) -> bool {
    if i == j {
        below(quad_sub(m.at(i, j), one_bits()), tol)
    } else {
        below(m.at(i, j), tol)
    }
}

/// Whether `m` is the identity within `tol`: square, and every entry what the
/// identity has there.
pub open spec fn identity_within(m: Matrix, tol: u64) -> bool {
    m.is_square() && forall|i: int, j: int| m.has(i, j) ==> entry_of_identity(m, i, j, tol)
}

/// The verdict on an operator whose determinant is `det` and whose product
/// with its own adjoint is `product`: the determinant's magnitude is not
/// below `det_tol`, and the product is the identity within `id_tol`.
pub open spec fn unitary_within(det: Bits, product: Matrix, det_tol: u64, id_tol: u64) -> bool {
    !below(det, det_tol) && identity_within(product, id_tol)
}

/// The verdict under the two tolerances of the library.
pub open spec fn unitary_by(det: Bits, product: Matrix) -> bool {
    unitary_within(det, product, DETERMINANT_TOLERANCE, IDENTITY_TOLERANCE)
}

/// Whether the unitarity check can be made on `m`: it is square, and its
/// product with its adjoint can be laid out.
pub open spec fn checkable(m: Matrix) -> bool {
    m.is_square() && alloc_fits(m.height(), m.height())
}

/// Whether `answer` is the verdict on some determinant and on some product of
/// the shape of `m`, under the given tolerances. This is what is known of the
/// unitarity check of `m` whatever `faer` computed.
pub open spec fn is_verdict_on(m: Matrix, answer: bool, det_tol: u64, id_tol: u64) -> bool {
    exists|det: Bits, product: Matrix|
        product.height() == m.height() && product.width() == m.width() && answer
            == #[trigger] unitary_within(det, product, det_tol, id_tol)
}

/// Whether `m` is the identity within the tolerance with bit pattern `tol`.
pub fn is_identity_within(m: &Matrix, tol: u64) -> (r: bool)
    ensures
        r == identity_within(*m, tol),
{
    let (nrows, n) = m.shape();
    if n != nrows {
        return false;
    }
    let one = amp_one();
    let mut j: usize = 0;
    while j < n
        invariant
            j <= n,
            m.height() == n,
            m.width() == n,
            value(one) == one_bits(),
            forall|r: int, c: int| 0 <= r < n && 0 <= c < j ==> entry_of_identity(*m, r, c, tol),
        decreases n - j,
    {
        let mut i: usize = 0;
        while i < n
            invariant
                i <= n,
                j < n,
                m.height() == n,
                m.width() == n,
                value(one) == one_bits(),
                forall|r: int, c: int|
                    0 <= r < n && 0 <= c < j ==> entry_of_identity(*m, r, c, tol),
                forall|r: int| 0 <= r < i ==> entry_of_identity(*m, r, j as int, tol),
            decreases n - i,
        {
            let val = m.get(i, j);
            let close = if i == j {
                is_below(amp_sub(val, one), tol)
            } else {
                is_below(val, tol)
            };
            if !close {
                assert(m.has(i as int, j as int) && !entry_of_identity(
                    *m,
                    i as int,
                    j as int,
                    tol,
                ));
                return false;
            }
            i += 1;
        }
        j += 1;
    }
    true
}

/// Whether `m` is the identity within [`IDENTITY_TOLERANCE`].
pub fn is_identity(m: &Matrix) -> (r: bool)
    ensures
        r == identity_within(*m, IDENTITY_TOLERANCE),
{
    is_identity_within(m, IDENTITY_TOLERANCE)
}

/// The verdict on an operator, given its determinant, its product with its
/// own adjoint, and the two tolerances as bit patterns of doubles.
pub fn unit_verdict_within(det: C, product: &Matrix, det_tol: u64, id_tol: u64) -> (r: bool)
    ensures
        r == unitary_within(value(det), *product, det_tol, id_tol),
{
    if is_below(det, det_tol) {
        false
    } else {
        is_identity_within(product, id_tol)
    }
}

/// The verdict on an operator, given its determinant and its product with its
/// own adjoint, under [`DETERMINANT_TOLERANCE`] and [`IDENTITY_TOLERANCE`].
pub fn unit_verdict(det: C, product: &Matrix) -> (r: bool)
    ensures
        r == unitary_by(value(det), *product),
{
    unit_verdict_within(det, product, DETERMINANT_TOLERANCE, IDENTITY_TOLERANCE)
}

/// Whether `m` passes the unitarity check under the given tolerances: its
/// determinant and its product with its adjoint, both computed by `faer`, get
/// the verdict of [`unit_verdict_within`]. The product is not computed where
/// the determinant alone decides. A matrix that is not square, or whose
/// product cannot be laid out, does not pass.
///
/// The two numbers come out of `faer`'s kernels, whose rounding is theirs, so
/// they are named nowhere: the answer is the verdict on a determinant and a
/// product of the shape of `m`, and which they are is `faer`'s to say.
pub fn is_unit_within(m: &Matrix, det_tol: u64, id_tol: u64) -> (r: bool)
    ensures
        !checkable(*m) ==> !r,
        checkable(*m) ==> is_verdict_on(*m, r, det_tol, id_tol),
{
    let (nrows, ncols) = m.shape();
    if nrows != ncols || !alloc_fits_exec(nrows, nrows) {
        return false;
    }
    let det = m.determinant();
    if is_below(det, det_tol) {
        // the determinant decides alone: no product passes beside it
        assert(!unitary_within(value(det), *m, det_tol, id_tol));
        return false;
    }
    let adjoint = m.adjoint();
    let product = m.times(&adjoint);
    let r = unit_verdict_within(det, &product, det_tol, id_tol);
    assert(r == unitary_within(value(det), product, det_tol, id_tol));
    r
}

/// Whether `m` passes the unitarity check under [`DETERMINANT_TOLERANCE`] and
/// [`IDENTITY_TOLERANCE`]: the answer of [`is_unit_within`] for these two.
pub fn is_unit(m: &Matrix) -> (r: bool)
    ensures
        !checkable(*m) ==> !r,
        checkable(*m) ==> is_verdict_on(*m, r, DETERMINANT_TOLERANCE, IDENTITY_TOLERANCE),
{
    is_unit_within(m, DETERMINANT_TOLERANCE, IDENTITY_TOLERANCE)
}

} // verus!
