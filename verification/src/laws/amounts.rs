//! Amounts: what their arithmetic comes to, and what an account makes of it.

use super::cycles::fits;
use crate::account::Account;
use crate::amount::{Amount, ONE, difference, larger, product, quotient, saturate, sum};
use vstd::prelude::*;

verus! {

/// Bringing an integer into the range keeps it where it is there already, keeps the
/// order, and never leaves the range.
pub proof fn law_saturation(x: int, y: int)
    ensures
        -0x8000_0000_0000_0000 <= saturate(x) <= 0x7fff_ffff_ffff_ffff,
        -0x8000_0000_0000_0000 <= x <= 0x7fff_ffff_ffff_ffff ==> saturate(x) == x,
        x <= y ==> saturate(x) <= saturate(y),
{
}

/// A quotient is the exact one cut off towards zero: what is left over has the sign
/// of what was divided and is smaller than the divisor.
pub proof fn law_quotient_cuts_off(a: int, b: int)
    requires
        b > 0,
    ensures
        a >= 0 ==> 0 <= a - quotient(a, b) * b < b,
        a < 0 ==> -b < a - quotient(a, b) * b <= 0,
{
    let m = if a >= 0 {
        a
    } else {
        -a
    };
    let q = m / b;
    vstd::arithmetic::div_mod::lemma_fundamental_div_mod(m, b);
    vstd::arithmetic::div_mod::lemma_mod_bound(m, b);
    assert(b * q == q * b && (-q) * b == -(q * b)) by (nonlinear_arith);
}

/// Sums and differences are exact within the range.
pub proof fn law_sums_are_exact(a: Amount, b: Amount)
    ensures
        fits(a + b) ==> sum(a, b) == a + b,
        fits(a - b) ==> difference(a, b) == a - b,
        sum(a, b) == sum(b, a),
        sum(a, 0) == a,
{
}

/// A product is the exact one, cut off towards zero below a billionth.
pub proof fn law_products_cut_off(a: Amount, b: Amount)
    ensures
        i64::MIN < product(a, b) < i64::MAX ==> {
            let left = a * b - product(a, b) * 1_000_000_000;
            if a * b >= 0 {
                0 <= left < 1_000_000_000
            } else {
                -1_000_000_000 < left <= 0
            }
        },
        product(a, b) == product(b, a),
        product(a, ONE) == a,
        product(a, 0) == 0,
{
    law_quotient_cuts_off(a * b, ONE as int);
    assert(a * b == b * a) by (nonlinear_arith);
    super::books::lemma_quotient_product(a as int, ONE as int);
    assert(a * 0 == 0);
}

/// The larger of two amounts is one of them, and neither is above it.
pub proof fn law_larger_is_the_larger(a: Amount, b: Amount)
    ensures
        larger(a, b) >= a,
        larger(a, b) >= b,
        larger(a, b) == a || larger(a, b) == b,
{
}

/// A profit in percent, taken of the starting bankroll, gives the profit back, up to
/// what is cut off; without a starting bankroll there is no percentage.
pub proof fn law_percent_is_of_the_start(account: Account, pnl: Amount)
    ensures
        account.starting_bankroll == 0 ==> account.percent(pnl) == 0,
        account.starting_bankroll > 0 && i64::MIN < account.percent(pnl) < i64::MAX ==> {
            let left = 100 * pnl * 1_000_000_000 - account.percent(pnl)
                * account.starting_bankroll;
            if pnl >= 0 {
                0 <= left < account.starting_bankroll
            } else {
                -account.starting_bankroll < left <= 0
            }
        },
{
    if account.starting_bankroll > 0 {
        law_quotient_cuts_off(100 * pnl * ONE, account.starting_bankroll as int);
        assert(100 * pnl * ONE >= 0 <==> pnl >= 0) by (nonlinear_arith)
            requires
                ONE == 1_000_000_000,
        ;
    }
}

} // verus!
