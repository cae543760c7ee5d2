//! What a book quotes, and which of its bids can be sold into.

use crate::amount::Amount;
use crate::book::{
    Book, Level, bottomless, eligible, fill_rate_at, highest_price, lowest_price, maker_ask,
    maker_dump, midpoint, topless,
};
use crate::decimal::reading;
use vstd::prelude::*;

verus! {

/// Whether a bid quotes the price `p`: its text reads as `p`, and not as infinitely
/// low.
pub open spec fn bids_at(level: Level, p: Amount) -> bool {
    reading(level.price) matches Some(r) && r.amount == p && !(r.infinite && r.negative)
}

/// Whether an ask quotes the price `p`: its text reads as `p`, and not as infinitely
/// high.
pub open spec fn asks_at(level: Level, p: Amount) -> bool {
    reading(level.price) matches Some(r) && r.amount == p && !(r.infinite && !r.negative)
}

/// The best bid is one of the bids and none is higher; there is none only where no
/// bid quotes a price.
pub proof fn law_best_bid_is_the_highest(bids: Seq<Level>)
    ensures
        highest_price(bids) matches Some(best) ==> {
            &&& exists|i: int| 0 <= i < bids.len() && bids_at(#[trigger] bids[i], best)
            &&& forall|i: int, p: Amount|
                0 <= i < bids.len() && #[trigger] bids_at(bids[i], p) ==> p <= best
        },
        highest_price(bids) is None ==> forall|i: int, p: Amount|
            0 <= i < bids.len() ==> !#[trigger] bids_at(bids[i], p),
    decreases bids.len(),
{
    if bids.len() > 0 {
        let head = bids.drop_last();
        law_best_bid_is_the_highest(head);
        assert forall|i: int, p: Amount| 0 <= i < bids.len() && #[trigger] bids_at(bids[i], p)
            implies highest_price(bids) matches Some(best) && p <= best by {
            if i < head.len() {
                assert(bids_at(head[i], p));
            }
        }
        if let Some(best) = highest_price(bids) {
            if bids_at(bids.last(), best) {
                assert(bids_at(bids[bids.len() - 1], best));
            } else {
                let i = choose|i: int| 0 <= i < head.len() && bids_at(#[trigger] head[i], best);
                assert(bids_at(bids[i], best));
            }
        }
    }
}

/// The best ask is one of the asks and none is lower; there is none only where no
/// ask quotes a price.
pub proof fn law_best_ask_is_the_lowest(asks: Seq<Level>)
    ensures
        lowest_price(asks) matches Some(best) ==> {
            &&& exists|i: int| 0 <= i < asks.len() && asks_at(#[trigger] asks[i], best)
            &&& forall|i: int, p: Amount|
                0 <= i < asks.len() && #[trigger] asks_at(asks[i], p) ==> p >= best
        },
        lowest_price(asks) is None ==> forall|i: int, p: Amount|
            0 <= i < asks.len() ==> !#[trigger] asks_at(asks[i], p),
    decreases asks.len(),
{
    if asks.len() > 0 {
        let head = asks.drop_last();
        law_best_ask_is_the_lowest(head);
        assert forall|i: int, p: Amount| 0 <= i < asks.len() && #[trigger] asks_at(asks[i], p)
            implies lowest_price(asks) matches Some(best) && p >= best by {
            if i < head.len() {
                assert(asks_at(head[i], p));
            }
        }
        if let Some(best) = lowest_price(asks) {
            if asks_at(asks.last(), best) {
                assert(asks_at(asks[asks.len() - 1], best));
            } else {
                let i = choose|i: int| 0 <= i < head.len() && asks_at(#[trigger] head[i], best);
                assert(asks_at(asks[i], best));
            }
        }
    }
}

/// A book is infinite on a side exactly where some text there says so.
pub proof fn law_infinite_quotes(book: Book)
    ensures
        topless(book.bids) <==> exists|i: int|
            0 <= i < book.bids.len() && ((#[trigger] reading(book.bids[i].price)) matches Some(r)
                && r.infinite && !r.negative),
        bottomless(book.asks) <==> exists|i: int|
            0 <= i < book.asks.len() && ((#[trigger] reading(book.asks[i].price)) matches Some(r)
                && r.infinite && r.negative),
{
    if topless(book.bids) {
        let i = choose|i: int|
            0 <= i < book.bids.len() && crate::book::is_topless(#[trigger] book.bids[i]);
        assert(reading(book.bids[i].price) is Some);
    }
    if exists|i: int|
        0 <= i < book.bids.len() && ((#[trigger] reading(book.bids[i].price)) matches Some(r)
            && r.infinite && !r.negative) {
        let i = choose|i: int|
            0 <= i < book.bids.len() && ((#[trigger] reading(book.bids[i].price)) matches Some(r)
                && r.infinite && !r.negative);
        assert(crate::book::is_topless(book.bids[i]));
    }
    if bottomless(book.asks) {
        let i = choose|i: int|
            0 <= i < book.asks.len() && crate::book::is_bottomless(#[trigger] book.asks[i]);
        assert(reading(book.asks[i].price) is Some);
    }
    if exists|i: int|
        0 <= i < book.asks.len() && ((#[trigger] reading(book.asks[i].price)) matches Some(r)
            && r.infinite && r.negative) {
        let i = choose|i: int|
            0 <= i < book.asks.len() && ((#[trigger] reading(book.asks[i].price)) matches Some(r)
                && r.infinite && r.negative);
        assert(crate::book::is_bottomless(book.asks[i]));
    }
}

/// The midpoint is as far from the best bid as from the best ask, the one of them
/// that there is where the other is missing, and nothing where both are.
pub proof fn law_midpoint_halves_the_spread(book: Book)
    ensures
        match (highest_price(book.bids), lowest_price(book.asks)) {
            (Some(bid), Some(ask)) => !topless(book.bids) && !bottomless(book.asks) ==> {
                &&& midpoint(book) is Some
                &&& -1 <= (midpoint(book)->0 - bid) - (ask - midpoint(book)->0) <= 1
                &&& bid + ask >= 0 ==> 2 * midpoint(book)->0 <= bid + ask
                &&& bid + ask <= 0 ==> 2 * midpoint(book)->0 >= bid + ask
            },
            (Some(bid), None) => midpoint(book) == Some(bid),
            (None, Some(ask)) => midpoint(book) == Some(ask),
            (None, None) => midpoint(book) is None,
        },
        highest_price(book.bids) is Some && lowest_price(book.asks) is Some ==> {
            &&& topless(book.bids) && !bottomless(book.asks) ==> midpoint(book) == Some(i64::MAX)
            &&& !topless(book.bids) && bottomless(book.asks) ==> midpoint(book) == Some(i64::MIN)
            &&& topless(book.bids) && bottomless(book.asks) ==> midpoint(book) is None
        },
{
}

/// Levels in another order quote the same.
proof fn lemma_same_members(a: Seq<Level>, b: Seq<Level>, i: int) -> (j: int)
    requires
        a.to_multiset() == b.to_multiset(),
        0 <= i < a.len(),
    ensures
        0 <= j < b.len(),
        b[j] == a[i],
{
    broadcast use vstd::seq_lib::group_to_multiset_ensures;

    assert(a.contains(a[i]));
    assert(b.to_multiset().count(a[i]) > 0);
    assert(b.contains(a[i]));
    choose|j: int| 0 <= j < b.len() && b[j] == a[i]
}

proof fn lemma_best_bid_at_most(a: Seq<Level>, b: Seq<Level>)
    requires
        a.to_multiset() == b.to_multiset(),
    ensures
        highest_price(a) matches Some(p) ==> (highest_price(b) matches Some(q) && p <= q),
        topless(a) ==> topless(b),
{
    law_best_bid_is_the_highest(a);
    law_best_bid_is_the_highest(b);
    if let Some(p) = highest_price(a) {
        let i = choose|i: int| 0 <= i < a.len() && bids_at(#[trigger] a[i], p);
        let j = lemma_same_members(a, b, i);
        assert(bids_at(b[j], p));
    }
    if topless(a) {
        let i = choose|i: int| 0 <= i < a.len() && crate::book::is_topless(#[trigger] a[i]);
        let j = lemma_same_members(a, b, i);
        assert(crate::book::is_topless(b[j]));
    }
}

proof fn lemma_best_ask_at_least(a: Seq<Level>, b: Seq<Level>)
    requires
        a.to_multiset() == b.to_multiset(),
    ensures
        lowest_price(a) matches Some(p) ==> (lowest_price(b) matches Some(q) && p >= q),
        bottomless(a) ==> bottomless(b),
{
    law_best_ask_is_the_lowest(a);
    law_best_ask_is_the_lowest(b);
    if let Some(p) = lowest_price(a) {
        let i = choose|i: int| 0 <= i < a.len() && asks_at(#[trigger] a[i], p);
        let j = lemma_same_members(a, b, i);
        assert(asks_at(b[j], p));
    }
    if bottomless(a) {
        let i = choose|i: int| 0 <= i < a.len() && crate::book::is_bottomless(#[trigger] a[i]);
        let j = lemma_same_members(a, b, i);
        assert(crate::book::is_bottomless(b[j]));
    }
}

/// The order in which a book lists its levels does not matter to its best bid and
/// ask, to its midpoint, nor to what a maker asks and sells.
pub proof fn law_quotes_ignore_the_order(
    a: Book,
    b: Book,
    target_shares: Amount,
    markup: Amount,
    max_fill_rate: Amount,
    mint_cost_per_share: Amount,
)
    requires
        a.bids.to_multiset() == b.bids.to_multiset(),
        a.asks.to_multiset() == b.asks.to_multiset(),
    ensures
        highest_price(a.bids) == highest_price(b.bids),
        lowest_price(a.asks) == lowest_price(b.asks),
        midpoint(a) == midpoint(b),
        maker_ask(a, markup, mint_cost_per_share) == maker_ask(b, markup, mint_cost_per_share),
        fill_rate_at(a, markup, max_fill_rate) == fill_rate_at(b, markup, max_fill_rate),
        maker_dump(a, target_shares, markup, max_fill_rate, mint_cost_per_share) == maker_dump(
            b,
            target_shares,
            markup,
            max_fill_rate,
            mint_cost_per_share,
        ),
{
    lemma_best_bid_at_most(a.bids, b.bids);
    lemma_best_bid_at_most(b.bids, a.bids);
    lemma_best_ask_at_least(a.asks, b.asks);
    lemma_best_ask_at_least(b.asks, a.asks);
}

/// One bid can be sold into exactly where its price reads as the floor or more and
/// its size as more than nothing, and then at that price for that size.
pub proof fn law_bid_is_eligible(bid: Level, min_price: Amount)
    ensures
        match (reading(bid.price), reading(bid.size)) {
            (Some(p), Some(s)) => eligible(seq![bid], min_price) == (if p.amount >= min_price
                && s.amount > 0 {
                seq![(p.amount, s.amount)]
            } else {
                Seq::empty()
            }),
            _ => eligible(seq![bid], min_price) == Seq::<(Amount, Amount)>::empty(),
        },
{
    reveal_with_fuel(eligible, 2);
    assert(seq![bid].drop_last() =~= Seq::empty());
    assert(seq![bid].last() == bid);
    match (reading(bid.price), reading(bid.size)) {
        (Some(p), Some(s)) => {
            assert(Seq::<(Amount, Amount)>::empty().push((p.amount, s.amount)) =~= seq![
                (p.amount, s.amount),
            ]);
        },
        _ => {},
    }
}

/// Each bid counts for itself: what can be sold into of two runs of bids is that of
/// the one and that of the other.
pub proof fn law_eligible_bids_join(a: Seq<Level>, b: Seq<Level>, min_price: Amount)
    ensures
        eligible(a + b, min_price) == eligible(a, min_price) + eligible(b, min_price),
    decreases b.len(),
{
    if b.len() > 0 {
        law_eligible_bids_join(a, b.drop_last(), min_price);
        assert((a + b).drop_last() =~= a + b.drop_last());
        assert((a + b).last() == b.last());
    } else {
        assert(a + b =~= a);
    }
    assert(eligible(a + b, min_price) =~= eligible(a, min_price) + eligible(b, min_price));
}

} // verus!
