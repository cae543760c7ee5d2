//! What a walk down the bids brings, whatever way it is taken.

use super::books::{depth, descending, law_best_first_sorts, law_walk_fills_to_depth};
use crate::amount::{Amount, ONE, quotient, saturate};
use crate::book::{
    Book, all_sized, best_first, eligible, insert_level, lemma_sorted_sized, lemma_walk_bounds,
    walk, walked,
};
use vstd::prelude::*;

verus! {

/// What levels offer above a price: for each level that is dearer, its size times the
/// difference.
pub open spec fn surplus(levels: Seq<(Amount, Amount)>, price: int) -> int
    decreases levels.len(),
{
    if levels.len() == 0 {
        0
    } else {
        surplus(levels.drop_last(), price) + (if levels.last().0 > price {
            levels.last().1 * (levels.last().0 - price)
        } else {
            0
        })
    }
}

/// The most that `filled` shares can bring, seen from a price: that price for each of
/// them, and all that the levels offer above it.
pub open spec fn most(levels: Seq<(Amount, Amount)>, filled: int, price: int) -> int {
    price * filled + surplus(levels, price)
}

/// Whether `value` is the most that `filled` shares can bring on the levels: it does
/// not exceed the bound that any price gives, and meets one of them.
pub open spec fn is_best_value(levels: Seq<(Amount, Amount)>, filled: int, value: int) -> bool {
    &&& forall|price: int| value <= #[trigger] most(levels, filled, price)
    &&& exists|price: int| value == #[trigger] most(levels, filled, price)
}

proof fn lemma_surplus_first(levels: Seq<(Amount, Amount)>, price: int)
    requires
        levels.len() > 0,
    ensures
        surplus(levels, price) == surplus(levels.drop_first(), price) + (if levels[0].0 > price {
            levels[0].1 * (levels[0].0 - price)
        } else {
            0
        }),
    decreases levels.len(),
{
    if levels.len() > 1 {
        lemma_surplus_first(levels.drop_last(), price);
        assert(levels.drop_last().drop_first() =~= levels.drop_first().drop_last());
    } else {
        assert(levels.drop_last() =~= Seq::empty());
        assert(levels.drop_first() =~= Seq::empty());
    }
}

proof fn lemma_surplus_insert(levels: Seq<(Amount, Amount)>, level: (Amount, Amount), price: int)
    ensures
        surplus(insert_level(levels, level), price) == surplus(levels, price) + (if level.0
            > price {
            level.1 * (level.0 - price)
        } else {
            0
        }),
    decreases levels.len(),
{
    if levels.len() == 0 || levels.last().0 >= level.0 {
        assert(levels.push(level).drop_last() =~= levels);
    } else {
        lemma_surplus_insert(levels.drop_last(), level, price);
        let rest = insert_level(levels.drop_last(), level);
        assert(rest.push(levels.last()).drop_last() =~= rest);
    }
}

proof fn lemma_surplus_sorted(levels: Seq<(Amount, Amount)>, price: int)
    ensures
        surplus(best_first(levels), price) == surplus(levels, price),
    decreases levels.len(),
{
    if levels.len() > 0 {
        lemma_surplus_sorted(levels.drop_last(), price);
        lemma_surplus_insert(best_first(levels.drop_last()), levels.last(), price);
    }
}

proof fn lemma_rest(levels: Seq<(Amount, Amount)>)
    requires
        levels.len() > 0,
        all_sized(levels),
        descending(levels),
    ensures
        all_sized(levels.drop_first()),
        descending(levels.drop_first()),
{
    let rest = levels.drop_first();
    assert forall|i: int| 0 <= i < rest.len() implies (#[trigger] rest[i]).1 > 0 by {
        assert(levels[i + 1].1 > 0);
    }
    assert forall|i: int, j: int| 0 <= i < j < rest.len() implies (#[trigger] rest[i]).0 >= (
    #[trigger] rest[j]).0 by {
        assert(levels[i + 1].0 >= levels[j + 1].0);
    }
}

proof fn lemma_surplus_not_negative(levels: Seq<(Amount, Amount)>, price: int)
    requires
        all_sized(levels),
    ensures
        surplus(levels, price) >= 0,
    decreases levels.len(),
{
    if levels.len() > 0 {
        let head = levels.drop_last();
        assert forall|i: int| 0 <= i < head.len() implies (#[trigger] head[i]).1 > 0 by {
            assert(levels[i].1 > 0);
        }
        lemma_surplus_not_negative(head, price);
        let size = levels.last().1 as int;
        let above = levels.last().0 - price;
        assert(levels[levels.len() - 1].1 > 0);
        if above > 0 {
            assert(size * above >= 0) by (nonlinear_arith)
                requires
                    size > 0,
                    above > 0,
            ;
        }
    }
}

/// No walk brings more than the bound that a price gives.
proof fn lemma_walk_bounded(levels: Seq<(Amount, Amount)>, remaining: int, price: int)
    requires
        all_sized(levels),
        descending(levels),
    ensures
        walk(levels, remaining).value <= most(levels, walk(levels, remaining).filled, price),
    decreases levels.len(),
{
    if levels.len() == 0 || remaining <= 0 {
        lemma_surplus_not_negative(levels, price);
        assert(price * 0 == 0);
    } else {
        lemma_rest(levels);
        lemma_surplus_first(levels, price);
        let size = levels[0].1 as int;
        let p = levels[0].0 as int;
        let take = if remaining < size {
            remaining
        } else {
            size
        };
        let rest = walk(levels.drop_first(), remaining - take);
        lemma_walk_bounded(levels.drop_first(), remaining - take, price);
        let filled = rest.filled;
        assert(levels[0].1 > 0);
        assert(price * (take + filled) == price * take + price * filled) by (nonlinear_arith);
        assert(take * p <= price * take + (if p > price {
            size * (p - price)
        } else {
            0
        })) by (nonlinear_arith)
            requires
                0 <= take <= size,
        ;
    }
}

/// A price at which the bound is met.
proof fn lemma_walk_meets(levels: Seq<(Amount, Amount)>, remaining: int) -> (price: int)
    requires
        all_sized(levels),
        descending(levels),
        levels.len() > 0,
        remaining > 0,
    ensures
        price <= levels[0].0,
        walk(levels, remaining).value == most(levels, walk(levels, remaining).filled, price),
    decreases levels.len(),
{
    lemma_rest(levels);
    assert(levels[0].1 > 0);
    let size = levels[0].1 as int;
    let p = levels[0].0 as int;
    let tail = levels.drop_first();
    let take = if remaining < size {
        remaining
    } else {
        size
    };
    let rest = walk(tail, remaining - take);
    if remaining > size && tail.len() > 0 {
        let price = lemma_walk_meets(tail, remaining - size);
        assert(tail[0].0 <= levels[0].0) by {
            assert(levels[0].0 >= levels[1].0);
        }
        lemma_surplus_first(levels, price);
        let filled = rest.filled;
        assert(price * (size + filled) == price * size + price * filled) by (nonlinear_arith);
        assert(size * p == price * size + size * (p - price)) by (nonlinear_arith);
        if p == price {
            assert(size * (p - price) == 0) by (nonlinear_arith)
                requires
                    p == price,
            ;
        }
        let surplus_here = size * (p - price);
        assert(levels[0].1 * (levels[0].0 - price) == surplus_here);
        price
    } else {
        lemma_no_surplus(levels, p);
        assert(rest.filled == 0 && rest.value == 0);
        assert(take * p == p * take) by (nonlinear_arith);
        p
    }
}

/// Levels offer nothing above the dearest of them.
proof fn lemma_no_surplus(levels: Seq<(Amount, Amount)>, price: int)
    requires
        forall|i: int| 0 <= i < levels.len() ==> (#[trigger] levels[i]).0 <= price || levels[0].0
            == price && descending(levels),
    ensures
        surplus(levels, price) == 0,
    decreases levels.len(),
{
    if levels.len() > 0 {
        let head = levels.drop_last();
        assert forall|i: int| 0 <= i < levels.len() implies (#[trigger] levels[i]).0 <= price by {
            if i > 0 && levels[i].0 > price {
                assert(levels[0].0 >= levels[i].0);
            }
        }
        assert forall|i: int| 0 <= i < head.len() implies (#[trigger] head[i]).0 <= price by {
            assert(levels[i].0 <= price);
        }
        assert(levels[levels.len() - 1].0 <= price);
        lemma_no_surplus(head, price);
    }
}

/// A walk sells at the best prices that there are: its shares bring the most that so
/// many shares can bring on the bids at the floor and above. The proceeds are that
/// value and the average is that value for each share, both cut off.
pub proof fn law_walk_sells_at_the_best(book: Book, target_shares: Amount, min_price: Amount)
    ensures
        ({
            let w = walked(book, target_shares, min_price);
            let levels = eligible(book.bids, min_price);
            exists|value: int|
                #[trigger] is_best_value(levels, w.shares_filled as int, value)
                    && w.gross_proceeds_usdc == saturate(quotient(value, ONE as int))
                    && w.avg_price == (if w.shares_filled > 0 {
                    saturate(quotient(value, w.shares_filled as int))
                } else {
                    0
                })
        }),
{
    let levels = eligible(book.bids, min_price);
    let sorted = best_first(levels);
    let w = walk(sorted, target_shares as int);
    let filled = walked(book, target_shares, min_price).shares_filled as int;
    lemma_sorted_sized(book.bids, min_price);
    law_best_first_sorts(levels);
    lemma_walk_bounds(sorted, target_shares as int);
    law_walk_fills_to_depth(book, target_shares, min_price);
    assert(filled == w.filled);
    assert forall|price: int| w.value <= #[trigger] most(levels, filled, price) by {
        lemma_walk_bounded(sorted, target_shares as int, price);
        lemma_surplus_sorted(levels, price);
    }
    if sorted.len() > 0 && target_shares > 0 {
        let price = lemma_walk_meets(sorted, target_shares as int);
        lemma_surplus_sorted(levels, price);
        assert(w.value == most(levels, filled, price));
    } else {
        let price: int = 0x8000_0000_0000_0000;
        lemma_surplus_sorted(levels, price);
        assert forall|i: int| 0 <= i < sorted.len() implies (#[trigger] sorted[i]).0 <= price by {}
        lemma_no_surplus(sorted, price);
        assert(price * 0 == 0);
        assert(w.value == most(levels, filled, price));
    }
    assert(is_best_value(levels, filled, w.value));
    if filled > 0 {
        crate::book::lemma_average_fits(w.value, filled);
    }
}

/// How far down a walk goes: the levels that it counts hold the shares that it sells,
/// and one level less would not.
proof fn lemma_walk_depth(levels: Seq<(Amount, Amount)>, remaining: int)
    requires
        all_sized(levels),
        descending(levels),
    ensures
        ({
            let w = walk(levels, remaining);
            &&& w.consumed <= levels.len()
            &&& w.consumed == 0 <==> w.filled == 0
            &&& w.filled <= depth(levels.take(w.consumed as int))
            &&& w.consumed > 0 ==> depth(levels.take(w.consumed - 1)) < w.filled
        }),
    decreases levels.len(),
{
    let w = walk(levels, remaining);
    if levels.len() == 0 || remaining <= 0 {
        assert(levels.take(0) =~= Seq::empty());
    } else {
        lemma_rest(levels);
        assert(levels[0].1 > 0);
        let size = levels[0].1 as int;
        let take = if remaining < size {
            remaining
        } else {
            size
        };
        let tail = levels.drop_first();
        let rest = walk(tail, remaining - take);
        lemma_walk_depth(tail, remaining - take);
        lemma_walk_bounds(tail, remaining - take);
        let k = w.consumed as int;
        assert(levels.take(k).drop_first() =~= tail.take(k - 1));
        super::books::lemma_depth_first(levels.take(k));
        if k > 1 {
            assert(levels.take(k - 1).drop_first() =~= tail.take(k - 2));
            super::books::lemma_depth_first(levels.take(k - 1));
        } else {
            assert(levels.take(0) =~= Seq::empty());
        }
    }
}

/// A walk counts the levels that it needs, from the best price down: they hold the
/// shares that it sells, and one less would not.
pub proof fn law_walk_counts_its_levels(book: Book, target_shares: Amount, min_price: Amount)
    requires
        book.bids.len() <= usize::MAX,
    ensures
        ({
            let w = walked(book, target_shares, min_price);
            let sorted = best_first(eligible(book.bids, min_price));
            &&& w.levels_consumed <= sorted.len()
            &&& w.levels_consumed == 0 <==> w.shares_filled == 0
            &&& w.shares_filled <= depth(sorted.take(w.levels_consumed as int))
            &&& w.levels_consumed > 0 ==> depth(sorted.take(w.levels_consumed - 1))
                < w.shares_filled
        }),
{
    let levels = eligible(book.bids, min_price);
    let sorted = best_first(levels);
    lemma_sorted_sized(book.bids, min_price);
    law_best_first_sorts(levels);
    lemma_walk_bounds(sorted, target_shares as int);
    lemma_walk_depth(sorted, target_shares as int);
}

} // verus!
