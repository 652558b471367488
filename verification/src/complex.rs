use vstd::prelude::*;

verus! {

/// A complex number in double precision, held as the IEEE-754 bit patterns
/// of its real and imaginary components. Arithmetic on these values is done
/// by num_complex through the trusted wrappers below; the contracts of the
/// library relate results to arguments through the uninterpreted names
/// `sum_of`, `prod_of`, `conj_of`, `sqrt_of` and `nat_of`.
#[derive(Clone, Copy, Debug, PartialEq, Eq, Structural)]
pub struct C64 {
    pub re_bits: u64,
    pub im_bits: u64,
}

/// Bit pattern of the double-precision value one.
pub const ONE_BITS: u64 = 0x3FF0_0000_0000_0000;

/// Bit pattern of the double-precision value two.
pub const TWO_BITS: u64 = 0x4000_0000_0000_0000;

/// Bit pattern of the double-precision value minus two.
pub const NEG_TWO_BITS: u64 = 0xC000_0000_0000_0000;

impl C64 {
    /// The additive identity: both components are plus zero, whose IEEE-754
    /// bit pattern is all zeros.
    pub open spec fn spec_zero() -> C64 {
        C64 { re_bits: 0, im_bits: 0 }
    }

    /// The multiplicative identity one.
    pub open spec fn spec_one() -> C64 {
        C64 { re_bits: ONE_BITS, im_bits: 0 }
    }

    /// The imaginary unit.
    pub open spec fn spec_i() -> C64 {
        C64 { re_bits: 0, im_bits: ONE_BITS }
    }

    pub fn zero() -> (r: C64)
        ensures
            r == C64::spec_zero(),
    {
        C64 { re_bits: 0, im_bits: 0 }
    }

    pub fn one() -> (r: C64)
        ensures
            r == C64::spec_one(),
    {
        C64 { re_bits: ONE_BITS, im_bits: 0 }
    }

    pub fn i() -> (r: C64)
        ensures
            r == C64::spec_i(),
    {
        C64 { re_bits: 0, im_bits: ONE_BITS }
    }
}

/// Construction of a complex scalar from the bit patterns of its real and
/// imaginary components.
pub trait TrueComplex: Sized {
    /// The value built from the two component bit patterns.
    spec fn new_spec(re_bits: u64, im_bits: u64) -> Self;

    fn new(re_bits: u64, im_bits: u64) -> (r: Self)
        ensures
            r == Self::new_spec(re_bits, im_bits),
    ;
}

impl TrueComplex for C64 {
    open spec fn new_spec(re_bits: u64, im_bits: u64) -> C64 {
        C64 { re_bits, im_bits }
    }

    fn new(re_bits: u64, im_bits: u64) -> (r: C64) {
        C64 { re_bits, im_bits }
    }
}

/// The scalar values state vectors hold.
pub trait Value: Copy + Sized {

}

impl Value for C64 {

}

/// The complex sum of the two values with these component bit patterns.
pub uninterp spec fn sum_of(a: C64, b: C64) -> C64;

/// The complex product of the two values with these component bit patterns.
pub uninterp spec fn prod_of(a: C64, b: C64) -> C64;

/// The complex conjugate of the value with these component bit patterns.
pub uninterp spec fn conj_of(a: C64) -> C64;

/// The principal square root of the value with these component bit patterns.
pub uninterp spec fn sqrt_of(a: C64) -> C64;

/// The complex number nearest to the natural number `k`.
pub uninterp spec fn nat_of(k: usize) -> C64;

/// Relies on num_complex's `Add` for `Complex<f64>`: componentwise addition.
#[verifier::external_body]
pub(crate) fn cadd(a: C64, b: C64) -> (r: C64)
    ensures
        r == sum_of(a, b),
{
    let x = num_complex::Complex64::new(
        <<num_complex::Complex64 as num_complex::ComplexFloat>::Real>::from_bits(a.re_bits),
        <<num_complex::Complex64 as num_complex::ComplexFloat>::Real>::from_bits(a.im_bits),
    );
    let y = num_complex::Complex64::new(
        <<num_complex::Complex64 as num_complex::ComplexFloat>::Real>::from_bits(b.re_bits),
        <<num_complex::Complex64 as num_complex::ComplexFloat>::Real>::from_bits(b.im_bits),
    );
    let z = x + y;
    C64 { re_bits: z.re.to_bits(), im_bits: z.im.to_bits() }
}

/// Relies on num_complex's `Mul` for `Complex<f64>`: the complex product.
#[verifier::external_body]
pub(crate) fn cmul(a: C64, b: C64) -> (r: C64)
    ensures
        r == prod_of(a, b),
{
    let x = num_complex::Complex64::new(
        <<num_complex::Complex64 as num_complex::ComplexFloat>::Real>::from_bits(a.re_bits),
        <<num_complex::Complex64 as num_complex::ComplexFloat>::Real>::from_bits(a.im_bits),
    );
    let y = num_complex::Complex64::new(
        <<num_complex::Complex64 as num_complex::ComplexFloat>::Real>::from_bits(b.re_bits),
        <<num_complex::Complex64 as num_complex::ComplexFloat>::Real>::from_bits(b.im_bits),
    );
    let z = x * y;
    C64 { re_bits: z.re.to_bits(), im_bits: z.im.to_bits() }
}

/// Relies on num_complex's `Complex::conj`: negates the imaginary component.
#[verifier::external_body]
pub(crate) fn cconj(a: C64) -> (r: C64)
    ensures
        r == conj_of(a),
{
    let x = num_complex::Complex64::new(
        <<num_complex::Complex64 as num_complex::ComplexFloat>::Real>::from_bits(a.re_bits),
        <<num_complex::Complex64 as num_complex::ComplexFloat>::Real>::from_bits(a.im_bits),
    );
    let z = x.conj();
    C64 { re_bits: z.re.to_bits(), im_bits: z.im.to_bits() }
}

/// Relies on num_complex's `Complex::sqrt`: the principal square root.
#[verifier::external_body]
pub(crate) fn csqrt(a: C64) -> (r: C64)
    ensures
        r == sqrt_of(a),
{
    let x = num_complex::Complex64::new(
        <<num_complex::Complex64 as num_complex::ComplexFloat>::Real>::from_bits(a.re_bits),
        <<num_complex::Complex64 as num_complex::ComplexFloat>::Real>::from_bits(a.im_bits),
    );
    let z = x.sqrt();
    C64 { re_bits: z.re.to_bits(), im_bits: z.im.to_bits() }
}

/// Relies on num_traits' `NumCast` for `Complex<f64>`: the complex number
/// nearest to `k`, which never fails for an unsigned argument.
#[verifier::external_body]
pub(crate) fn cfrom_nat(k: usize) -> (r: C64)
    ensures
        r == nat_of(k),
{
    let z: num_complex::Complex64 = num_traits::cast(k).unwrap();
    C64 { re_bits: z.re.to_bits(), im_bits: z.im.to_bits() }
}

} // verus!
