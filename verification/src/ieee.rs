//! IEEE-754 binary64 values held by their bit patterns.
//!
//! A `u64` here always stands for the bit pattern of a double-precision
//! floating-point number (what `f64::to_bits` returns).  Classification, sign,
//! absolute value, ordering and `max` are pure functions of the bits and are
//! defined and proved here.  Arithmetic (sums, products, quotients, logarithms,
//! conversions) is supplied by the caller through [`FloatArithmetic`].
use vstd::prelude::*;

verus! {

/// The bit that carries the sign.
pub const SIGN_BIT: u64 = 0x8000_0000_0000_0000;

/// All bits but the sign: exponent and mantissa.
pub const MAGNITUDE_BITS: u64 = 0x7fff_ffff_ffff_ffff;

/// Positive infinity; every magnitude above it is a NaN.
pub const INFINITY: u64 = 0x7ff0_0000_0000_0000;

/// `+0.0`.
pub const ZERO: u64 = 0;

/// `1.0`.
pub const ONE: u64 = 0x3ff0_0000_0000_0000;

/// `2.0`.
pub const TWO: u64 = 0x4000_0000_0000_0000;

/// `64.0`.
pub const SIXTY_FOUR: u64 = 0x4050_0000_0000_0000;

/// `0.25`.
pub const QUARTER: u64 = 0x3fd0_0000_0000_0000;

/// `0.75`.
pub const THREE_QUARTERS: u64 = 0x3fe8_0000_0000_0000;

/// `1.25`.
pub const FIVE_QUARTERS: u64 = 0x3ff4_0000_0000_0000;

/// `2^53` (`9007199254740992.0`).
pub const TWO_POW_53: u64 = 0x4340_0000_0000_0000;

/// `f64::EPSILON` (`2^-52`).
pub const EPSILON: u64 = 0x3cb0_0000_0000_0000;

/// Arithmetic on binary64 values, given and returned as bit patterns.
///
/// An implementation is expected to perform the IEEE-754 operation with
/// round-to-nearest (what Rust's `f64` operators do).  The methods carry no
/// contract: what the library states about a value it computes is stated
/// through the predicates below, which say that the value is one that the
/// caller's method returns for the given arguments (Verus's `call_ensures`).
pub trait FloatArithmetic: Sync {
    /// `a + b`.
    fn add(&self, a: u64, b: u64) -> u64;

    /// `a - b`.
    fn sub(&self, a: u64, b: u64) -> u64;

    /// `a * b`.
    fn mul(&self, a: u64, b: u64) -> u64;

    /// `a / b`.
    fn div(&self, a: u64, b: u64) -> u64;

    /// The natural logarithm of `a`.
    fn ln(&self, a: u64) -> u64;

    /// The double nearest to the integer `n` (`n as f64`).
    fn from_u64(&self, n: u64) -> u64;
}

/// `r` is a value that `arith.add(a, b)` returns.
pub open spec fn sum_of<A: FloatArithmetic>(arith: &A, a: u64, b: u64, r: u64) -> bool {
    call_ensures(A::add, (arith, a, b), r)
}

/// `r` is a value that `arith.sub(a, b)` returns.
pub open spec fn difference_of<A: FloatArithmetic>(arith: &A, a: u64, b: u64, r: u64) -> bool {
    call_ensures(A::sub, (arith, a, b), r)
}

/// `r` is a value that `arith.mul(a, b)` returns.
pub open spec fn product_of<A: FloatArithmetic>(arith: &A, a: u64, b: u64, r: u64) -> bool {
    call_ensures(A::mul, (arith, a, b), r)
}

/// `r` is a value that `arith.div(a, b)` returns.
pub open spec fn quotient_of<A: FloatArithmetic>(arith: &A, a: u64, b: u64, r: u64) -> bool {
    call_ensures(A::div, (arith, a, b), r)
}

/// `r` is a value that `arith.ln(a)` returns.
#[verifier::inline]
pub open spec fn logarithm_of<A: FloatArithmetic>(arith: &A, a: u64, r: u64) -> bool {
    call_ensures(A::ln, (arith, a), r)
}

/// `r` is a value that `arith.from_u64(n)` returns.
pub open spec fn conversion_of<A: FloatArithmetic>(arith: &A, n: u64, r: u64) -> bool {
    call_ensures(A::from_u64, (arith, n), r)
}

/// Each of the operations that the library uses for values it reports
/// (`+ - * /` and the conversion) returns one result for given arguments, as the
/// IEEE-754 operations do.
pub open spec fn deterministic<A: FloatArithmetic>(arith: &A) -> bool {
    &&& forall|a: u64, b: u64, r1: u64, r2: u64|
        #[trigger] sum_of(arith, a, b, r1) && #[trigger] sum_of(arith, a, b, r2) ==> r1 == r2
    &&& forall|a: u64, b: u64, r1: u64, r2: u64|
        #[trigger] difference_of(arith, a, b, r1) && #[trigger] difference_of(arith, a, b, r2) ==> r1 == r2
    &&& forall|a: u64, b: u64, r1: u64, r2: u64|
        #[trigger] product_of(arith, a, b, r1) && #[trigger] product_of(arith, a, b, r2) ==> r1 == r2
    &&& forall|a: u64, b: u64, r1: u64, r2: u64|
        #[trigger] quotient_of(arith, a, b, r1) && #[trigger] quotient_of(arith, a, b, r2) ==> r1 == r2
    &&& forall|n: u64, r1: u64, r2: u64|
        #[trigger] conversion_of(arith, n, r1) && #[trigger] conversion_of(arith, n, r2) ==> r1 == r2
}

/// Exponent and mantissa bits: the bit pattern of the absolute value.
pub open spec fn magnitude(b: u64) -> u64 {
    (b % SIGN_BIT) as u64
}

/// Whether the sign bit is set.
pub open spec fn sign_bit(b: u64) -> bool {
    b >= SIGN_BIT
}

/// Not a number: all exponent bits set and a nonzero mantissa.
pub open spec fn is_nan(b: u64) -> bool {
    magnitude(b) > INFINITY
}

/// Neither infinite nor NaN.
pub open spec fn is_finite(b: u64) -> bool {
    magnitude(b) < INFINITY
}

/// An integer that orders non-NaN values as the real line does: both zeros
/// map to 0, and larger magnitudes lie farther from it.
pub open spec fn order_key(b: u64) -> int {
    if sign_bit(b) {
        -(magnitude(b) as int)
    } else {
        magnitude(b) as int
    }
}

/// `a < b` on doubles: false whenever either side is NaN.
pub open spec fn float_lt(a: u64, b: u64) -> bool {
    !is_nan(a) && !is_nan(b) && order_key(a) < order_key(b)
}

/// `a <= b` on doubles: false whenever either side is NaN.
pub open spec fn float_le(a: u64, b: u64) -> bool {
    !is_nan(a) && !is_nan(b) && order_key(a) <= order_key(b)
}

/// `f64::max`: the other argument when one is NaN, else the larger one.
pub open spec fn float_max(a: u64, b: u64) -> u64 {
    if is_nan(a) {
        b
    } else if is_nan(b) {
        a
    } else if float_lt(a, b) {
        b
    } else {
        a
    }
}

/// `value < 0.0`.
pub open spec fn is_negative(b: u64) -> bool {
    float_lt(b, ZERO)
}

/// A tolerance as the library accepts it: finite and not below zero.
pub open spec fn is_valid_tolerance(b: u64) -> bool {
    is_finite(b) && !is_negative(b)
}

proof fn lemma_mask_is_mod(b: u64)
    ensures
        b & MAGNITUDE_BITS == b % SIGN_BIT,
        b & MAGNITUDE_BITS < SIGN_BIT,
{
    assert(b & 0x7fff_ffff_ffff_ffffu64 == b % 0x8000_0000_0000_0000u64) by (bit_vector);
    assert(b & 0x7fff_ffff_ffff_ffffu64 < 0x8000_0000_0000_0000u64) by (bit_vector);
}

/// `f64::abs`: clears the sign bit.
pub fn abs(b: u64) -> (r: u64)
    ensures
        r == magnitude(b),
        !sign_bit(r),
        is_nan(r) == is_nan(b),
        is_finite(r) == is_finite(b),
        order_key(r) == magnitude(b) as int,
{
    proof {
        lemma_mask_is_mod(b);
    }
    b & MAGNITUDE_BITS
}

/// `f64::is_nan`.
pub fn nan(b: u64) -> (r: bool)
    ensures
        r == is_nan(b),
{
    abs(b) > INFINITY
}

/// `f64::is_finite`.
pub fn finite(b: u64) -> (r: bool)
    ensures
        r == is_finite(b),
{
    abs(b) < INFINITY
}

/// `a < b`.
pub fn lt(a: u64, b: u64) -> (r: bool)
    ensures
        r == float_lt(a, b),
{
    let ma = abs(a);
    let mb = abs(b);
    if ma > INFINITY || mb > INFINITY {
        return false;
    }
    let na = a >= SIGN_BIT;
    let nb = b >= SIGN_BIT;
    if na {
        if nb {
            mb < ma
        } else {
            ma != 0 || mb != 0
        }
    } else {
        if nb {
            false
        } else {
            ma < mb
        }
    }
}

/// `a <= b`.
pub fn le(a: u64, b: u64) -> (r: bool)
    ensures
        r == float_le(a, b),
{
    let ma = abs(a);
    let mb = abs(b);
    if ma > INFINITY || mb > INFINITY {
        return false;
    }
    !lt(b, a)
}

/// `f64::max`.
pub fn max(a: u64, b: u64) -> (r: u64)
    ensures
        r == float_max(a, b),
{
    if nan(a) {
        b
    } else if nan(b) {
        a
    } else if lt(a, b) {
        b
    } else {
        a
    }
}

} // verus!
