//! Fixed-point amounts: dollars, shares, prices and rates.
//!
//! An amount is a whole number of billionths. Arithmetic is exact on the
//! integers, is cut off towards zero below a billionth, and saturates at the
//! ends of the 64-bit range (about nine billion units) where it would leave it.

use vstd::prelude::*;

verus! {

/// A signed amount, counted in billionths.
pub type Amount = i64;

/// The amount `1`.
pub const ONE: Amount = 1_000_000_000;

/// The amount nearest to the integer `x`.
pub open spec fn saturate(x: int) -> Amount {
    if x < i64::MIN {
        i64::MIN
    } else if x > i64::MAX {
        i64::MAX
    } else {
        x as i64
    }
}

/// The quotient of `a` by `b`, cut off towards zero.
pub open spec fn quotient(a: int, b: int) -> int
    recommends
        b != 0,
{
    if a >= 0 {
        a / b
    } else {
        -((-a) / b)
    }
}

/// What [`plus`] returns.
pub open spec fn sum(a: Amount, b: Amount) -> Amount {
    saturate(a + b)
}

/// What [`minus`] returns.
pub open spec fn difference(a: Amount, b: Amount) -> Amount {
    saturate(a - b)
}

/// What [`times`] returns.
pub open spec fn product(a: Amount, b: Amount) -> Amount {
    saturate(quotient(a * b, ONE as int))
}

/// The larger of two amounts.
pub open spec fn larger(a: Amount, b: Amount) -> Amount {
    if a >= b {
        a
    } else {
        b
    }
}

/// Brings a wide integer into the range of amounts.
pub fn narrow(x: i128) -> (r: Amount)
    ensures
        r == saturate(x as int),
{
    if x < i64::MIN as i128 {
        i64::MIN
    } else if x > i64::MAX as i128 {
        i64::MAX
    } else {
        x as i64
    }
}

/// The sum of two amounts.
pub fn plus(a: Amount, b: Amount) -> (r: Amount)
    ensures
        r == sum(a, b),
{
    narrow(a as i128 + b as i128)
}

/// The difference of two amounts.
pub fn minus(a: Amount, b: Amount) -> (r: Amount)
    ensures
        r == difference(a, b),
{
    narrow(a as i128 - b as i128)
}

/// The product of two amounts.
pub fn times(a: Amount, b: Amount) -> (r: Amount)
    ensures
        r == product(a, b),
{
    proof {
        lemma_square_fits(a, b);
    }
    narrow(a as i128 * b as i128 / ONE as i128)
}

/// The larger of two amounts.
pub fn max_of(a: Amount, b: Amount) -> (r: Amount)
    ensures
        r == larger(a, b),
{
    if a >= b {
        a
    } else {
        b
    }
}

/// The product of two 64-bit integers has a magnitude of at most 2^126.
pub proof fn lemma_square_fits(a: i64, b: i64)
    ensures
        -0x4000_0000_0000_0000_0000_0000_0000_0000 <= a * b
            <= 0x4000_0000_0000_0000_0000_0000_0000_0000,
{
    assert(-0x4000_0000_0000_0000_0000_0000_0000_0000 <= a * b
        <= 0x4000_0000_0000_0000_0000_0000_0000_0000) by (nonlinear_arith)
        requires
            -0x8000_0000_0000_0000 <= a <= 0x7fff_ffff_ffff_ffff,
            -0x8000_0000_0000_0000 <= b <= 0x7fff_ffff_ffff_ffff,
    ;
}

/// A quotient is no larger in magnitude than what is divided.
pub proof fn lemma_quotient_bound(a: int, b: int)
    requires
        b != 0,
    ensures
        a >= 0 ==> -a <= quotient(a, b) <= a,
        a < 0 ==> a <= quotient(a, b) <= -a,
{
    let m = if a >= 0 {
        a
    } else {
        -a
    };
    assert(-m <= m / b <= m) by (nonlinear_arith)
        requires
            b != 0,
            m >= 0,
    ;
}

} // verus!
