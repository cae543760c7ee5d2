//! Selling into a book.

use crate::amount::{Amount, ONE, larger, product, quotient, saturate};
use crate::book::{
    Book, DECAY_WINDOW, Level, all_sized, best_first, bottomless, decay, eligible, fill_rate_at,
    highest_price, insert_level, lemma_average_fits, lemma_sorted_sized, lemma_walk_bounds,
    lowest_price, maker_ask, maker_dump, midpoint, topless, walk, walked,
};
use crate::decimal::amount_of;
use vstd::prelude::*;

verus! {

/// How many shares the levels offer together.
pub open spec fn depth(levels: Seq<(Amount, Amount)>) -> int
    decreases levels.len(),
{
    if levels.len() == 0 {
        0
    } else {
        depth(levels.drop_last()) + levels.last().1
    }
}

/// Whether no level has a higher price than one before it.
pub open spec fn descending(levels: Seq<(Amount, Amount)>) -> bool {
    forall|i: int, j: int|
        0 <= i < j < levels.len() ==> (#[trigger] levels[i]).0 >= (#[trigger] levels[j]).0
}

/// Whether every level has a price of at least `min_price`.
pub open spec fn all_priced(levels: Seq<(Amount, Amount)>, min_price: Amount) -> bool {
    forall|i: int| 0 <= i < levels.len() ==> (#[trigger] levels[i]).0 >= min_price
}

proof fn lemma_insert(levels: Seq<(Amount, Amount)>, level: (Amount, Amount))
    ensures
        depth(insert_level(levels, level)) == depth(levels) + level.1,
        insert_level(levels, level).to_multiset() == levels.to_multiset().insert(level),
        insert_level(levels, level).len() == levels.len() + 1,
    decreases levels.len(),
{
    broadcast use vstd::seq_lib::group_to_multiset_ensures;

    if levels.len() == 0 || levels.last().0 >= level.0 {
        assert(levels.push(level).drop_last() =~= levels);
    } else {
        let head = insert_level(levels.drop_last(), level);
        lemma_insert(levels.drop_last(), level);
        assert(head.push(levels.last()).drop_last() =~= head);
        assert(levels.drop_last().push(levels.last()) =~= levels);
        assert(head.push(levels.last()).to_multiset() =~= levels.to_multiset().insert(level));
    }
}

proof fn lemma_insert_descending(levels: Seq<(Amount, Amount)>, level: (Amount, Amount))
    requires
        descending(levels),
    ensures
        descending(insert_level(levels, level)),
        forall|p: Amount|
            all_priced(levels, p) && level.0 >= p ==> #[trigger] all_priced(
                insert_level(levels, level),
                p,
            ),
        forall|i: int|
            0 <= i < insert_level(levels, level).len() ==> (#[trigger] insert_level(
                levels,
                level,
            )[i]).0 >= level.0 || levels.len() > 0 && insert_level(levels, level)[i].0
                >= levels.last().0,
    decreases levels.len(),
{
    let r = insert_level(levels, level);
    if levels.len() == 0 || levels.last().0 >= level.0 {
        assert forall|i: int, j: int| 0 <= i < j < r.len() implies (#[trigger] r[i]).0 >= (
        #[trigger] r[j]).0 by {
            if j == levels.len() && i < levels.len() - 1 {
                assert(levels[i].0 >= levels[levels.len() - 1].0);
            }
        }
        assert forall|i: int| 0 <= i < r.len() implies (#[trigger] r[i]).0 >= level.0 || levels.len()
            > 0 && r[i].0 >= levels.last().0 by {
            if i < levels.len() - 1 {
                assert(levels[i].0 >= levels[levels.len() - 1].0);
            }
        }
    } else {
        let short = levels.drop_last();
        let head = insert_level(short, level);
        assert(descending(short)) by {
            assert forall|i: int, j: int| 0 <= i < j < short.len() implies (#[trigger] short[i]).0
                >= (#[trigger] short[j]).0 by {
                assert(levels[i].0 >= levels[j].0);
            }
        }
        lemma_insert_descending(short, level);
        lemma_insert(short, level);
        assert forall|i: int| 0 <= i < head.len() implies (#[trigger] head[i]).0
            >= levels.last().0 by {
            if short.len() > 0 {
                assert(levels[short.len() - 1].0 >= levels[levels.len() - 1].0);
            }
        }
        assert forall|i: int, j: int| 0 <= i < j < r.len() implies (#[trigger] r[i]).0 >= (
        #[trigger] r[j]).0 by {
            if j < head.len() {
                assert(head[i].0 >= head[j].0);
            } else {
                assert(head[i].0 >= levels.last().0);
            }
        }
        assert forall|p: Amount| all_priced(levels, p) && level.0 >= p implies #[trigger] all_priced(
            r,
            p,
        ) by {
            assert(all_priced(short, p)) by {
                assert forall|i: int| 0 <= i < short.len() implies (#[trigger] short[i]).0 >= p by {
                    assert(levels[i].0 >= p);
                }
            }
            assert(all_priced(head, p));
            assert(levels[levels.len() - 1].0 >= p);
        }
    }
}

/// Sorting keeps every level, and puts none behind a cheaper one.
pub proof fn law_best_first_sorts(levels: Seq<(Amount, Amount)>)
    ensures
        descending(best_first(levels)),
        best_first(levels).to_multiset() == levels.to_multiset(),
        depth(best_first(levels)) == depth(levels),
    decreases levels.len(),
{
    broadcast use vstd::seq_lib::group_to_multiset_ensures;

    if levels.len() > 0 {
        law_best_first_sorts(levels.drop_last());
        lemma_insert(best_first(levels.drop_last()), levels.last());
        lemma_insert_descending(best_first(levels.drop_last()), levels.last());
        assert(levels.drop_last().push(levels.last()) =~= levels);
    }
}

proof fn lemma_sorted_priced(levels: Seq<(Amount, Amount)>, p: Amount)
    requires
        all_priced(levels, p),
    ensures
        all_priced(best_first(levels), p),
    decreases levels.len(),
{
    if levels.len() > 0 {
        let short = levels.drop_last();
        assert(all_priced(short, p)) by {
            assert forall|i: int| 0 <= i < short.len() implies (#[trigger] short[i]).0 >= p by {
                assert(levels[i].0 >= p);
            }
        }
        assert(levels[levels.len() - 1].0 >= p);
        lemma_sorted_priced(short, p);
        law_best_first_sorts(short);
        lemma_insert_descending(best_first(short), levels.last());
    }
}

proof fn lemma_eligible_priced(bids: Seq<Level>, p: Amount)
    ensures
        all_priced(eligible(bids, p), p),
    decreases bids.len(),
{
    if bids.len() > 0 {
        lemma_eligible_priced(bids.drop_last(), p);
    }
}

/// A walk takes what is asked for, or all there is where that is less.
pub proof fn lemma_walk_fills(levels: Seq<(Amount, Amount)>, remaining: int)
    requires
        all_sized(levels),
    ensures
        remaining <= 0 ==> walk(levels, remaining).filled == 0,
        remaining > 0 && depth(levels) >= remaining ==> walk(levels, remaining).filled == remaining,
        remaining > 0 && depth(levels) < remaining ==> walk(levels, remaining).filled == depth(
            levels,
        ),
        depth(levels) >= 0,
    decreases levels.len(),
{
    if levels.len() > 0 {
        lemma_depth_first(levels);
        assert(all_sized(levels.drop_first())) by {
            assert forall|i: int| 0 <= i < levels.drop_first().len() implies (
            #[trigger] levels.drop_first()[i]).1 > 0 by {
                assert(levels[i + 1].1 > 0);
            }
        }
        assert(levels[0].1 > 0);
        if remaining > 0 {
            let take = if remaining < levels[0].1 {
                remaining
            } else {
                levels[0].1 as int
            };
            lemma_walk_fills(levels.drop_first(), remaining - take);
        } else {
            lemma_walk_fills(levels.drop_first(), remaining);
        }
    }
}

pub proof fn lemma_depth_first(levels: Seq<(Amount, Amount)>)
    requires
        levels.len() > 0,
    ensures
        depth(levels) == levels[0].1 + depth(levels.drop_first()),
    decreases levels.len(),
{
    if levels.len() > 1 {
        lemma_depth_first(levels.drop_last());
        assert(levels.drop_last().drop_first() =~= levels.drop_first().drop_last());
    } else {
        assert(levels.drop_first() =~= Seq::empty());
        assert(levels.drop_last() =~= Seq::empty());
    }
}

/// A walk sells as many shares as are asked for, or as many as the bids at the
/// floor and above offer where that is less; it is capped by depth exactly where
/// it is less.
pub proof fn law_walk_fills_to_depth(book: Book, target_shares: Amount, min_price: Amount)
    ensures
        ({
            let w = walked(book, target_shares, min_price);
            let d = depth(eligible(book.bids, min_price));
            &&& w.shares_filled == (if target_shares <= 0 {
                0
            } else if target_shares as int <= d {
                target_shares as int
            } else {
                d
            })
            &&& w.capped_by_depth <==> target_shares > 0 && target_shares > d
        }),
{
    let levels = best_first(eligible(book.bids, min_price));
    lemma_sorted_sized(book.bids, min_price);
    lemma_walk_fills(levels, target_shares as int);
    law_best_first_sorts(eligible(book.bids, min_price));
}

proof fn lemma_walk_floor(levels: Seq<(Amount, Amount)>, remaining: int, p: Amount)
    requires
        all_sized(levels),
        all_priced(levels, p),
    ensures
        walk(levels, remaining).value >= p * walk(levels, remaining).filled,
    decreases levels.len(),
{
    if levels.len() > 0 && remaining > 0 {
        let take = if remaining < levels[0].1 {
            remaining
        } else {
            levels[0].1 as int
        };
        let rest = levels.drop_first();
        assert(levels[0].1 > 0 && levels[0].0 >= p);
        assert(all_sized(rest) && all_priced(rest, p)) by {
            assert forall|i: int| 0 <= i < rest.len() implies (#[trigger] rest[i]).1 > 0
                && rest[i].0 >= p by {
                assert(levels[i + 1].1 > 0 && levels[i + 1].0 >= p);
            }
        }
        lemma_walk_floor(rest, remaining - take, p);
        let w = walk(rest, remaining - take);
        let price = levels[0].0;
        assert(take * price + w.value >= p * (take + w.filled)) by (nonlinear_arith)
            requires
                take >= 0,
                price >= p,
                w.value >= p * w.filled,
        ;
    } else {
        assert(p * 0 == 0);
    }
}

/// A quotient by a positive number keeps order.
pub proof fn lemma_quotient_order(a: int, b: int, d: int)
    requires
        a <= b,
        d > 0,
    ensures
        quotient(a, d) <= quotient(b, d),
{
    if a >= 0 {
        vstd::arithmetic::div_mod::lemma_div_is_ordered(a, b, d);
    } else if b < 0 {
        vstd::arithmetic::div_mod::lemma_div_is_ordered(-b, -a, d);
    } else {
        assert(b / d >= 0) by (nonlinear_arith)
            requires
                b >= 0,
                d > 0,
        ;
        assert((-a) / d >= 0) by (nonlinear_arith)
            requires
                -a >= 0,
                d > 0,
        ;
    }
}

/// A quotient undoes a product.
pub proof fn lemma_quotient_product(a: int, d: int)
    requires
        d > 0,
    ensures
        quotient(a * d, d) == a,
{
    if a >= 0 {
        assert(a * d >= 0) by (nonlinear_arith)
            requires
                a >= 0,
                d > 0,
        ;
        vstd::arithmetic::div_mod::lemma_div_multiples_vanish(a, d);
        assert(a * d == d * a) by (nonlinear_arith);
    } else {
        assert(a * d < 0) by (nonlinear_arith)
            requires
                a < 0,
                d > 0,
        ;
        vstd::arithmetic::div_mod::lemma_div_multiples_vanish(-a, d);
        assert(-(a * d) == d * (-a)) by (nonlinear_arith);
    }
}

/// The floor keeps a thin tail from diluting the sale: the average price is never
/// below it, nor are the proceeds below what the shares bring at it.
pub proof fn law_average_respects_floor(book: Book, target_shares: Amount, min_price: Amount)
    ensures
        ({
            let w = walked(book, target_shares, min_price);
            &&& w.shares_filled > 0 ==> w.avg_price >= min_price
            &&& w.gross_proceeds_usdc >= product(w.shares_filled, min_price)
        }),
{
    let all = eligible(book.bids, min_price);
    let levels = best_first(all);
    let w = walk(levels, target_shares as int);
    lemma_sorted_sized(book.bids, min_price);
    lemma_eligible_priced(book.bids, min_price);
    lemma_sorted_priced(all, min_price);
    lemma_walk_bounds(levels, target_shares as int);
    lemma_walk_floor(levels, target_shares as int, min_price);
    if w.filled > 0 {
        lemma_average_fits(w.value, w.filled);
        lemma_quotient_order(min_price * w.filled, w.value, w.filled);
        lemma_quotient_product(min_price as int, w.filled);
    }
    assert(w.filled * min_price == min_price * w.filled) by (nonlinear_arith);
    lemma_quotient_order(min_price * w.filled, w.value, ONE as int);
}

proof fn lemma_eligible_depth(bids: Seq<Level>, low: Amount, high: Amount)
    requires
        low <= high,
    ensures
        0 <= depth(eligible(bids, high)) <= depth(eligible(bids, low)),
    decreases bids.len(),
{
    if bids.len() > 0 {
        let rest = bids.drop_last();
        lemma_eligible_depth(rest, low, high);
        match (amount_of(bids.last().price), amount_of(bids.last().size)) {
            (Some(p), Some(s)) => {
                assert(eligible(rest, low).push((p, s)).drop_last() =~= eligible(rest, low));
                assert(eligible(rest, high).push((p, s)).drop_last() =~= eligible(rest, high));
            },
            _ => {},
        }
    }
}

/// A higher floor never sells more shares.
pub proof fn law_higher_floor_sells_less(
    book: Book,
    target_shares: Amount,
    low: Amount,
    high: Amount,
)
    requires
        low <= high,
    ensures
        walked(book, target_shares, high).shares_filled <= walked(
            book,
            target_shares,
            low,
        ).shares_filled,
{
    law_walk_fills_to_depth(book, target_shares, low);
    law_walk_fills_to_depth(book, target_shares, high);
    lemma_eligible_depth(book.bids, low, high);
}

/// Above a best ask that is not negative, the decay lies between nothing and all.
proof fn lemma_decay_range(best_ask: Amount, ask_price: Amount)
    requires
        0 <= best_ask < ask_price,
    ensures
        0 <= decay(best_ask, ask_price) <= ONE,
{
    if best_ask > 0 {
        let gap = ask_price - best_ask;
        assert(gap * ONE * ONE >= 0) by (nonlinear_arith)
            requires
                gap >= 0,
                ONE == 1_000_000_000,
        ;
        assert(best_ask * DECAY_WINDOW > 0) by (nonlinear_arith)
            requires
                best_ask > 0,
                DECAY_WINDOW == 100_000_000,
        ;
        lemma_quotient_order(0, gap * ONE * ONE, best_ask * DECAY_WINDOW);
        assert(quotient(0, best_ask * DECAY_WINDOW) == 0) by (nonlinear_arith)
            requires
                best_ask * DECAY_WINDOW > 0,
        ;
    }
}

/// The rate for a given decay.
pub open spec fn decayed(max_rate: Amount, t: Amount) -> Amount {
    saturate(quotient(max_rate * (2 * ONE - t), 2 * ONE))
}

/// A rate decays from its ceiling to half of it.
pub proof fn lemma_decayed(max_rate: Amount, s: Amount, t: Amount)
    requires
        max_rate >= 0,
        0 <= s <= t <= ONE,
    ensures
        max_rate / 2 <= decayed(max_rate, t) <= decayed(max_rate, s) <= max_rate,
        t == ONE ==> decayed(max_rate, t) == max_rate / 2,
{
    let two = 2 * ONE;
    let m = max_rate as int;
    assert(m * (two - ONE) <= m * (two - t) <= m * (two - s) <= m * two) by (nonlinear_arith)
        requires
            m >= 0,
            0 <= s <= t <= ONE,
    ;
    lemma_quotient_order(m * (two - ONE), m * (two - t), two);
    lemma_quotient_order(m * (two - t), m * (two - s), two);
    lemma_quotient_order(m * (two - s), m * two, two);
    lemma_quotient_product(m, two);
    assert(m * (two - ONE) == m * 1_000_000_000) by (nonlinear_arith)
        requires
            two == 2_000_000_000,
            ONE == 1_000_000_000,
    ;
    assert((m * 1_000_000_000) / 2_000_000_000 == m / 2);
    assert(m * (two - ONE) >= 0);
}

/// Whether no ask of the book is negative.
pub open spec fn asks_not_negative(book: Book) -> bool {
    !bottomless(book.asks) && (lowest_price(book.asks) matches Some(p) ==> p >= 0)
}

/// The fill rate lies between half of its ceiling and its ceiling.
pub proof fn law_fill_rate_range(book: Book, ask_price: Amount, max_rate: Amount)
    requires
        max_rate >= 0,
        asks_not_negative(book),
    ensures
        max_rate / 2 <= fill_rate_at(book, ask_price, max_rate) <= max_rate,
{
    if let Some(best_ask) = lowest_price(book.asks) {
        if ask_price > best_ask {
            lemma_decay_range(best_ask, ask_price);
            let t = decay(best_ask, ask_price);
            lemma_decayed(max_rate, t, t);
        }
    }
}

/// An ask that is at or below the best one, or that has no other ask beside it,
/// fills at the ceiling.
pub proof fn law_best_ask_fills_at_ceiling(book: Book, ask_price: Amount, max_rate: Amount)
    requires
        lowest_price(book.asks) matches Some(best_ask) ==> ask_price <= best_ask && !bottomless(
            book.asks,
        ),
    ensures
        fill_rate_at(book, ask_price, max_rate) == max_rate,
{
}

/// A tenth above the best ask and beyond, the fill rate is half of its ceiling.
pub proof fn law_full_decay_at_a_tenth(book: Book, ask_price: Amount, max_rate: Amount)
    requires
        max_rate >= 0,
        lowest_price(book.asks) matches Some(best_ask) && 0 <= best_ask < ask_price && 10 * (
        ask_price - best_ask) >= best_ask,
    ensures
        fill_rate_at(book, ask_price, max_rate) == max_rate / 2,
{
    let best_ask = lowest_price(book.asks)->0;
    if best_ask > 0 {
        let gap = ask_price - best_ask;
        let d = best_ask * DECAY_WINDOW;
        assert(d > 0) by (nonlinear_arith)
            requires
                best_ask > 0,
                DECAY_WINDOW == 100_000_000,
                d == best_ask * DECAY_WINDOW,
        ;
        assert(ONE * d <= gap * ONE * ONE) by (nonlinear_arith)
            requires
                10 * gap >= best_ask,
                ONE == 1_000_000_000,
                DECAY_WINDOW == 100_000_000,
                d == best_ask * DECAY_WINDOW,
        ;
        lemma_quotient_order(ONE * d, gap * ONE * ONE, d);
        lemma_quotient_product(ONE as int, d);
    }
    lemma_decayed(max_rate, ONE, ONE);
}

/// Asking more never fills faster.
pub proof fn law_fill_rate_falls_with_price(
    book: Book,
    low_ask: Amount,
    high_ask: Amount,
    max_rate: Amount,
)
    requires
        max_rate >= 0,
        asks_not_negative(book),
        low_ask <= high_ask,
    ensures
        fill_rate_at(book, high_ask, max_rate) <= fill_rate_at(book, low_ask, max_rate),
{
    let best_ask = lowest_price(book.asks)->0;
    if lowest_price(book.asks) is Some && high_ask > best_ask {
        law_fill_rate_range(book, high_ask, max_rate);
        if low_ask > best_ask {
            lemma_decay_range(best_ask, low_ask);
            lemma_decay_range(best_ask, high_ask);
            if best_ask > 0 {
                let a = low_ask - best_ask;
                let b = high_ask - best_ask;
                assert(a * ONE * ONE <= b * ONE * ONE) by (nonlinear_arith)
                    requires
                        a <= b,
                        ONE == 1_000_000_000,
                ;
                assert(best_ask * DECAY_WINDOW > 0) by (nonlinear_arith)
                    requires
                        best_ask > 0,
                        DECAY_WINDOW == 100_000_000,
                ;
                lemma_quotient_order(a * ONE * ONE, b * ONE * ONE, best_ask * DECAY_WINDOW);
            }
            lemma_decayed(max_rate, decay(best_ask, low_ask), decay(best_ask, high_ask));
        }
    }
}

/// A product with a factor of at least one is no smaller than the other factor.
pub proof fn lemma_product_grows(a: Amount, b: Amount)
    requires
        a >= 0,
        b >= ONE,
    ensures
        product(a, b) >= a,
{
    assert(a * ONE <= a * b) by (nonlinear_arith)
        requires
            a >= 0,
            b >= ONE,
    ;
    lemma_quotient_order(a * ONE, a * b, ONE as int);
    lemma_quotient_product(a as int, ONE as int);
}

/// A product with a factor between nothing and one is no larger than the other
/// factor, and not negative where that is not.
pub proof fn lemma_product_shrinks(a: Amount, b: Amount)
    requires
        a >= 0,
        0 <= b <= ONE,
    ensures
        0 <= product(a, b) <= a,
{
    assert(0 <= a * b <= a * ONE) by (nonlinear_arith)
        requires
            a >= 0,
            0 <= b <= ONE,
    ;
    lemma_quotient_order(0, a * b, ONE as int);
    lemma_quotient_order(a * b, a * ONE, ONE as int);
    lemma_quotient_product(a as int, ONE as int);
    lemma_quotient_product(0, ONE as int);
}

/// A maker with a markup of at least one never asks less than the mint cost.
pub proof fn law_maker_asks_at_least_cost(book: Book, markup: Amount, mint_cost_per_share: Amount)
    requires
        markup >= ONE,
        mint_cost_per_share >= 0,
    ensures
        maker_ask(book, markup, mint_cost_per_share) >= mint_cost_per_share,
{
    let mid = match midpoint(book) {
        Some(m) => m,
        None => mint_cost_per_share,
    };
    lemma_product_grows(larger(mid, mint_cost_per_share), markup);
}

/// A maker sells no more than is offered.
pub proof fn law_maker_fills_within_target(
    book: Book,
    target_shares: Amount,
    markup: Amount,
    max_fill_rate: Amount,
    mint_cost_per_share: Amount,
)
    requires
        target_shares >= 0,
        0 <= max_fill_rate <= ONE,
        asks_not_negative(book),
    ensures
        0 <= maker_dump(
            book,
            target_shares,
            markup,
            max_fill_rate,
            mint_cost_per_share,
        ).shares_filled <= target_shares,
{
    let ask_price = maker_ask(book, markup, mint_cost_per_share);
    law_fill_rate_range(book, ask_price, max_fill_rate);
    lemma_product_shrinks(target_shares, fill_rate_at(book, ask_price, max_fill_rate));
}

/// The midpoint lies between the best bid and the best ask.
pub proof fn law_midpoint_lies_between(book: Book, bid: Amount, ask: Amount)
    requires
        highest_price(book.bids) == Some(bid),
        lowest_price(book.asks) == Some(ask),
        bid <= ask,
        !topless(book.bids) && !bottomless(book.asks),
    ensures
        midpoint(book) matches Some(mid) && bid <= mid <= ask,
{
}

} // verus!
