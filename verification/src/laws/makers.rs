//! What a maker asks, and how much of it is taken.

use super::amounts::law_quotient_cuts_off;
use super::books::{law_fill_rate_range, lemma_decayed};
use crate::amount::{Amount, ONE, product, quotient};
use crate::book::{
    Book, DECAY_WINDOW, bottomless, decay, fill_rate_at, lowest_price, maker_ask, maker_dump,
    midpoint,
};
use vstd::prelude::*;

verus! {

/// A maker asks the fair value times the markup. The fair value is the midpoint or the
/// mint cost, and neither is above it.
pub proof fn law_maker_marks_up_the_fair_value(
    book: Book,
    markup: Amount,
    mint_cost_per_share: Amount,
)
    ensures
        exists|fair: Amount|
            #[trigger] product(fair, markup) == maker_ask(book, markup, mint_cost_per_share) && fair
                >= mint_cost_per_share && (fair == mint_cost_per_share || midpoint(book) == Some(
                fair,
            )) && (midpoint(book) matches Some(mid) ==> fair >= mid),
{
    let fair = match midpoint(book) {
        Some(mid) => if mid >= mint_cost_per_share {
            mid
        } else {
            mint_cost_per_share
        },
        None => mint_cost_per_share,
    };
    assert(product(fair, markup) == maker_ask(book, markup, mint_cost_per_share));
}

/// A maker sells the filled part of what it offers, all of it at its ask.
pub proof fn law_maker_sells_at_its_ask(
    book: Book,
    target_shares: Amount,
    markup: Amount,
    max_fill_rate: Amount,
    mint_cost_per_share: Amount,
)
    ensures
        ({
            let ask = maker_ask(book, markup, mint_cost_per_share);
            let w = maker_dump(book, target_shares, markup, max_fill_rate, mint_cost_per_share);
            &&& w.avg_price == ask
            &&& w.shares_filled == product(target_shares, fill_rate_at(book, ask, max_fill_rate))
            &&& w.gross_proceeds_usdc == product(w.shares_filled, ask)
            &&& w.levels_consumed == 1
            &&& !w.capped_by_depth
        }),
{
}

/// Up to a tenth above the best ask the fill rate falls in a straight line: it is
/// `max_rate * (1 - 5 * gap / best_ask)`, up to what is cut off.
pub proof fn law_fill_rate_falls_in_a_line(
    book: Book,
    best_ask: Amount,
    ask_price: Amount,
    max_rate: Amount,
)
    requires
        lowest_price(book.asks) == Some(best_ask),
        !bottomless(book.asks),
        0 < best_ask < ask_price,
        10 * (ask_price - best_ask) <= best_ask,
        max_rate >= 0,
    ensures
        ({
            let rate = fill_rate_at(book, ask_price, max_rate) as int;
            let exact = max_rate * (2 * best_ask - 10 * (ask_price - best_ask));
            &&& rate * (2 * best_ask) * ONE <= exact * ONE + max_rate * best_ask
            &&& exact * ONE < (rate + 1) * (2 * best_ask) * ONE
        }),
{
    let best = best_ask as int;
    let gap = ask_price - best_ask;
    let max = max_rate as int;
    let one = ONE as int;
    let d = best * DECAY_WINDOW;
    let n = gap * ONE * ONE;
    assert(d > 0 && n >= 0) by (nonlinear_arith)
        requires
            best > 0,
            gap >= 0,
            DECAY_WINDOW == 100_000_000,
            ONE == 1_000_000_000,
            d == best * DECAY_WINDOW,
            n == gap * ONE * ONE,
    ;
    law_quotient_cuts_off(n, d);
    let q = quotient(n, d);
    // In billionths, `q` is ten times the gap over the best ask.
    assert(q * best <= 10 * gap * one < (q + 1) * best) by (nonlinear_arith)
        requires
            0 <= n - q * d < d,
            d == best * DECAY_WINDOW,
            n == gap * ONE * ONE,
            DECAY_WINDOW == 100_000_000,
            ONE == 1_000_000_000,
            one == ONE,
    ;
    assert(0 <= q <= one) by (nonlinear_arith)
        requires
            q * best <= 10 * gap * one < (q + 1) * best,
            10 * gap <= best,
            gap >= 0,
            best > 0,
            one == 1_000_000_000,
    ;
    let t = decay(best_ask, ask_price) as int;
    assert(t == q);
    let k = 2 * one - t;
    let m = max * k;
    assert(m >= 0) by (nonlinear_arith)
        requires
            max >= 0,
            k >= 0,
            m == max * k,
    ;
    law_quotient_cuts_off(m, 2 * one);
    law_fill_rate_range(book, ask_price, max_rate);
    let rate = fill_rate_at(book, ask_price, max_rate) as int;
    let z = quotient(m, 2 * one);
    assert(0 <= z <= max) by (nonlinear_arith)
        requires
            0 <= m - z * (2 * one) < 2 * one,
            0 <= m,
            m == max * k,
            0 <= k <= 2 * one,
            max >= 0,
            one == 1_000_000_000,
    ;
    assert(max_rate * (2 * ONE - decay(best_ask, ask_price)) == m);
    assert(rate == z);
    assert(rate * (2 * one) <= m < (rate + 1) * (2 * one)) by (nonlinear_arith)
        requires
            0 <= m - rate * (2 * one) < 2 * one,
    ;
    let exact = max * (2 * best - 10 * gap);
    assert(rate * (2 * best) * one <= exact * one + max * best) by (nonlinear_arith)
        requires
            rate * (2 * one) <= m,
            m == max * (2 * one - t),
            10 * gap * one < (t + 1) * best,
            max >= 0,
            best > 0,
            exact == max * (2 * best - 10 * gap),
    ;
    assert(exact * one < (rate + 1) * (2 * best) * one) by (nonlinear_arith)
        requires
            m < (rate + 1) * (2 * one),
            m == max * (2 * one - t),
            t * best <= 10 * gap * one,
            max >= 0,
            best > 0,
            exact == max * (2 * best - 10 * gap),
    ;
}

/// Above an infinitely low ask the fill rate is half of its ceiling.
pub proof fn law_sunk_asks_halve_the_rate(book: Book, ask_price: Amount, max_rate: Amount)
    requires
        bottomless(book.asks),
        lowest_price(book.asks) is Some,
        max_rate >= 0,
    ensures
        fill_rate_at(book, ask_price, max_rate) == max_rate / 2,
{
    lemma_decayed(max_rate, ONE, ONE);
}

/// Above a negative ask the rate grows beyond its ceiling.
pub proof fn law_negative_asks_raise_the_rate(
    book: Book,
    best_ask: Amount,
    ask_price: Amount,
    max_rate: Amount,
)
    requires
        lowest_price(book.asks) == Some(best_ask),
        !bottomless(book.asks),
        best_ask < 0,
        best_ask < ask_price,
        max_rate >= 0,
    ensures
        fill_rate_at(book, ask_price, max_rate) >= max_rate,
{
    let n = (ask_price - best_ask) * ONE * ONE;
    let d = best_ask * DECAY_WINDOW;
    assert(n >= 0 && d < 0) by (nonlinear_arith)
        requires
            best_ask < 0,
            ask_price > best_ask,
            DECAY_WINDOW == 100_000_000,
            ONE == 1_000_000_000,
            n == (ask_price - best_ask) * ONE * ONE,
            d == best_ask * DECAY_WINDOW,
    ;
    assert(n / d <= 0) by (nonlinear_arith)
        requires
            n >= 0,
            d < 0,
    ;
    let t = decay(best_ask, ask_price) as int;
    let m = max_rate as int;
    let z = m * (2 * ONE - t);
    assert(z >= m * (2 * ONE)) by (nonlinear_arith)
        requires
            m >= 0,
            t <= 0,
            z == m * (2 * ONE - t),
    ;
    super::books::lemma_quotient_order(m * (2 * ONE), z, 2 * ONE);
    super::books::lemma_quotient_product(m, 2 * ONE);
}

} // verus!
