//! Amplitudes: the double-double scalars of `qd`, seen through their bits.
//!
//! The verifier knows nothing of floating point. An amplitude is therefore
//! modelled by the IEEE-754 bit patterns of its two doubles, every NaN read
//! as one, and every arithmetic step is a call into `qd` or `num-complex`
//! whose result is only named here, never recomputed.
use vstd::prelude::*;

verus! {

/// `qd::Quad`, a double-double: two doubles whose sum is the number. Nothing
/// is said of it here; values of it are carried, and read by [`amp_bits`].
#[verifier::external_type_specification]
#[verifier::external_body]
#[verifier::reject_recursive_types(T)]
pub struct ExQuad<T>(qd::Quad<T>);

/// An amplitude: a pair of doubles, read as (real, imaginary) when a
/// magnitude is taken.
pub type C = faer::fx128;

/// The bit patterns of a pair of doubles.
pub type Bits = (u64, u64);

/// Bit pattern of the double `1.0`.
pub const ONE_BITS: u64 = 0x3FF0_0000_0000_0000;

/// The sign bit of a double.
pub const SIGN_BIT: u64 = 0x8000_0000_0000_0000;

/// All bits of a double but its sign.
pub const MAGNITUDE_MASK: u64 = 0x7FFF_FFFF_FFFF_FFFF;

/// Bit pattern of positive infinity. Without its sign, the pattern of a
/// number is at most this, and that of a NaN is above it.
pub const INFINITY_BITS: u64 = 0x7FF0_0000_0000_0000;

/// The one pattern as which every NaN is read.
pub const NAN_BITS: u64 = 0x7FF8_0000_0000_0000;

/// Bit pattern of the double `1e-5`: an entry counts as equal to its target
/// when the magnitude of the difference is below this.
pub const IDENTITY_TOLERANCE: u64 = 0x3EE4_F8B5_88E3_68F1;

/// Bit pattern of the double `1e-10`: a determinant whose magnitude is below
/// this counts as zero.
pub const DETERMINANT_TOLERANCE: u64 = 0x3DDB_7CDF_D9D7_BDBB;

/// What an amplitude holds: the IEEE-754 bit patterns of its first and
/// second double.
pub uninterp spec fn amp_bits(a: C) -> Bits;

/// `qd`'s difference of two double-doubles, on values.
pub uninterp spec fn quad_sub(a: Bits, b: Bits) -> Bits;

/// `qd`'s quotient of two double-doubles, on values.
pub uninterp spec fn quad_div(a: Bits, b: Bits) -> Bits;

/// `qd`'s square root of a double-double, on values.
pub uninterp spec fn quad_sqrt(a: Bits) -> Bits;

/// `num-complex`'s squared norm `re * re + im * im` of a pair of doubles, on
/// values.
pub uninterp spec fn complex_norm_sqr(a: Bits) -> u64;

/// Whether `x` is the pattern of a NaN.
pub open spec fn is_nan(x: u64) -> bool {
    x & MAGNITUDE_MASK > INFINITY_BITS
}

/// The pattern `x` with every NaN read as one: which NaN an operation hands
/// out is the machine's choice, that it is a NaN is not.
pub open spec fn number(x: u64) -> u64 {
    if is_nan(x) {
        NAN_BITS
    } else {
        x
    }
}

/// The value of an amplitude: the patterns of its two doubles, every NaN read
/// as one.
pub open spec fn value(a: C) -> Bits {
    (number(amp_bits(a).0), number(amp_bits(a).1))
}

/// The value zero.
pub open spec fn zero_bits() -> Bits {
    (0u64, 0u64)
}

/// The value one.
pub open spec fn one_bits() -> Bits {
    (ONE_BITS, 0u64)
}

/// The negation of a value: both sign bits flipped.
pub open spec fn neg_bits(a: Bits) -> Bits {
    (number(a.0 ^ SIGN_BIT), number(a.1 ^ SIGN_BIT))
}

/// The magnitude of a value read as (real, imaginary): the leading double of
/// the square root of its squared norm.
pub open spec fn magnitude(a: Bits) -> u64 {
    quad_sqrt((complex_norm_sqr(a), 0u64)).0
}

/// Whether the magnitude of `a` is a number below the double with bit pattern
/// `tol`.
///
/// Doubles that are not negative are ordered as their bit patterns are. The
/// patterns above that of infinity are those of the NaNs and of the negative
/// doubles, which a magnitude never is: they are below no tolerance.
pub open spec fn below(a: Bits, tol: u64) -> bool {
    magnitude(a) < tol && magnitude(a) <= INFINITY_BITS
}

/// Reads the two doubles of `a` with `f64::to_bits`. This is what
/// [`amp_bits`] names.
#[verifier::external_body]
pub(crate) fn amp_to_bits(a: C) -> (r: Bits)
    ensures
        r == amp_bits(a),
{
    (a.0.to_bits(), a.1.to_bits())
}

/// `qd::Quad::ONE`, the pair `(1.0, 0.0)`.
#[verifier::external_body]
pub(crate) fn amp_one() -> (r: C)
    ensures
        value(r) == one_bits(),
{
    faer::fx128::ONE
}

/// `qd::Quad::neg`, which negates both doubles; negating a double flips its
/// sign bit and nothing else.
#[verifier::external_body]
pub(crate) fn amp_neg(a: C) -> (r: C)
    ensures
        value(r) == neg_bits(value(a)),
{
    a.neg()
}

/// `a - b` of `qd::Quad` (its `sub_estimate`): a fixed sequence of double
/// additions and subtractions.
#[verifier::external_body]
pub(crate) fn amp_sub(a: C, b: C) -> (r: C)
    ensures
        value(r) == quad_sub(value(a), value(b)),
{
    a - b
}

/// `qd::Quad::div`: a fixed sequence of double divisions, products and fused
/// multiply-adds.
#[verifier::external_body]
pub(crate) fn amp_div(a: C, b: C) -> (r: C)
    ensures
        value(r) == quad_div(value(a), value(b)),
{
    a.div(b)
}

/// `qd::Quad::sqrt`: two Newton steps from the double square root.
#[verifier::external_body]
pub(crate) fn amp_sqrt(a: C) -> (r: C)
    ensures
        value(r) == quad_sqrt(value(a)),
{
    a.sqrt()
}

/// `num_complex::Complex::norm_sqr` of the pair read as (real, imaginary),
/// widened to an amplitude whose second double is `0.0`.
#[verifier::external_body]
pub(crate) fn amp_norm_sqr(a: C) -> (r: C)
    ensures
        value(r) == (complex_norm_sqr(value(a)), 0u64),
{
    faer::fx128::from_f64(faer::complex::Complex::new(a.0, a.1).norm_sqr())
}

/// The magnitude of `x` read as (real, imaginary), as the bit pattern of a
/// double.
pub fn norm(x: C) -> (r: u64)
    ensures
        number(r) == magnitude(value(x)),
{
    let squared = amp_norm_sqr(x);
    let root = amp_sqrt(squared);
    amp_to_bits(root).0
}

/// Whether the magnitude of `x` is a number below the double with bit pattern
/// `tol`.
pub fn is_below(x: C, tol: u64) -> (r: bool)
    ensures
        r == below(value(x), tol),
{
    let m: u64 = norm(x);
    assert(m & MAGNITUDE_MASK > INFINITY_BITS ==> m > INFINITY_BITS) by (bit_vector);
    m < tol && m <= INFINITY_BITS
}

} // verus!
