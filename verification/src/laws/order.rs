//! Selling does not depend on the order in which a book lists its bids.

use super::books::{
    depth, descending, law_best_first_sorts, lemma_depth_first, lemma_walk_fills,
};
use crate::amount::Amount;
use crate::book::{
    Book, Level, all_sized, best_first, eligible, lemma_sorted_sized, walk, walked,
};
use crate::decimal::amount_of;
use vstd::multiset::Multiset;
use vstd::prelude::*;

verus! {

/// What one bid adds to the levels that may be sold into.
spec fn contribution(bid: Level, min_price: Amount) -> Multiset<(Amount, Amount)> {
    match (amount_of(bid.price), amount_of(bid.size)) {
        (Some(p), Some(s)) => if p >= min_price && s > 0 {
            Multiset::singleton((p, s))
        } else {
            Multiset::empty()
        },
        _ => Multiset::empty(),
    }
}

proof fn lemma_eligible_last(bids: Seq<Level>, min_price: Amount)
    requires
        bids.len() > 0,
    ensures
        eligible(bids, min_price).to_multiset() == eligible(
            bids.drop_last(),
            min_price,
        ).to_multiset().add(contribution(bids.last(), min_price)),
{
    broadcast use vstd::seq_lib::group_to_multiset_ensures;

    assert(eligible(bids, min_price).to_multiset() =~= eligible(
        bids.drop_last(),
        min_price,
    ).to_multiset().add(contribution(bids.last(), min_price)));
}

proof fn lemma_eligible_remove(bids: Seq<Level>, min_price: Amount, k: int)
    requires
        0 <= k < bids.len(),
    ensures
        eligible(bids, min_price).to_multiset() == eligible(
            bids.remove(k),
            min_price,
        ).to_multiset().add(contribution(bids[k], min_price)),
    decreases bids.len(),
{
    lemma_eligible_last(bids, min_price);
    if k == bids.len() - 1 {
        assert(bids.remove(k) =~= bids.drop_last());
    } else {
        lemma_eligible_remove(bids.drop_last(), min_price, k);
        let rest = bids.remove(k);
        assert(rest.drop_last() =~= bids.drop_last().remove(k));
        assert(rest.last() == bids.last());
        lemma_eligible_last(rest, min_price);
        assert(eligible(bids, min_price).to_multiset() =~= eligible(
            rest,
            min_price,
        ).to_multiset().add(contribution(bids[k], min_price)));
    }
}

/// Bids in another order may be sold into alike.
proof fn lemma_eligible_order(a: Seq<Level>, b: Seq<Level>, min_price: Amount)
    requires
        a.to_multiset() == b.to_multiset(),
    ensures
        eligible(a, min_price).to_multiset() == eligible(b, min_price).to_multiset(),
    decreases a.len(),
{
    broadcast use vstd::seq_lib::group_to_multiset_ensures;

    if a.len() == 0 {
        assert(a.to_multiset().len() == 0 && b.to_multiset().len() == b.len());
    } else {
        let x = a.last();
        assert(a.contains(x));
        assert(b.to_multiset().count(x) > 0);
        assert(b.contains(x));
        let k = choose|k: int| 0 <= k < b.len() && b[k] == x;
        let n = a.len() - 1;
        assert(a.remove(n) =~= a.drop_last());
        assert(a.remove(n).to_multiset() =~= b.remove(k).to_multiset());
        lemma_eligible_order(a.drop_last(), b.remove(k), min_price);
        lemma_eligible_last(a, min_price);
        lemma_eligible_remove(b, min_price, k);
    }
}

/// Whether the first `m` levels have the price `p`.
spec fn level_start(levels: Seq<(Amount, Amount)>, m: int, p: Amount) -> bool {
    forall|i: int| 0 <= i < m ==> (#[trigger] levels[i]).0 == p
}

/// Levels of one price at the start bring that price for all their shares.
proof fn lemma_walk_block(levels: Seq<(Amount, Amount)>, remaining: int, m: int, p: Amount)
    requires
        0 <= m <= levels.len(),
        all_sized(levels),
        level_start(levels, m, p),
    ensures
        depth(levels.take(m)) >= 0,
        walk(levels, remaining).value == (if remaining <= 0 {
            0
        } else if remaining < depth(levels.take(m)) {
            p * remaining
        } else {
            p * depth(levels.take(m)) + walk(
                levels.skip(m),
                remaining - depth(levels.take(m)),
            ).value
        }),
    decreases m,
{
    if m == 0 {
        assert(levels.take(0) =~= Seq::empty());
        assert(levels.skip(0) =~= levels);
        assert(p * 0 == 0);
    } else {
        let rest = levels.drop_first();
        assert(levels[0].0 == p && levels[0].1 > 0);
        assert(all_sized(rest)) by {
            assert forall|i: int| 0 <= i < rest.len() implies (#[trigger] rest[i]).1 > 0 by {
                assert(levels[i + 1].1 > 0);
            }
        }
        assert(level_start(rest, m - 1, p)) by {
            assert forall|i: int| 0 <= i < m - 1 implies (#[trigger] rest[i]).0 == p by {
                assert(levels[i + 1].0 == p);
            }
        }
        let size = levels[0].1 as int;
        let take = if remaining < size {
            remaining
        } else {
            size
        };
        lemma_depth_first(levels.take(m));
        assert(levels.take(m).drop_first() =~= rest.take(m - 1));
        assert(levels.skip(m) =~= rest.skip(m - 1));
        lemma_walk_block(rest, remaining - take, m - 1, p);
        let d = depth(rest.take(m - 1));
        if remaining > 0 {
            if remaining < size {
                assert(take * p == p * remaining) by (nonlinear_arith)
                    requires
                        take == remaining,
                ;
            } else if remaining - size <= 0 {
                assert(take * p == p * remaining) by (nonlinear_arith)
                    requires
                        take == remaining,
                ;
                if remaining >= size + d {
                    assert(d == 0);
                }
            } else if remaining - size < d {
                assert(take * p + p * (remaining - size) == p * remaining) by (nonlinear_arith)
                    requires
                        take == size,
                ;
            } else {
                assert(take * p + p * d == p * (size + d)) by (nonlinear_arith)
                    requires
                        take == size,
                ;
            }
        }
    }
}

/// Removing an item from the start of a sequence.
proof fn lemma_depth_remove(levels: Seq<(Amount, Amount)>, k: int)
    requires
        0 <= k < levels.len(),
    ensures
        depth(levels.remove(k)) + levels[k].1 == depth(levels),
    decreases levels.len(),
{
    if k == levels.len() - 1 {
        assert(levels.remove(k) =~= levels.drop_last());
    } else {
        lemma_depth_remove(levels.drop_last(), k);
        assert(levels.remove(k).drop_last() =~= levels.drop_last().remove(k));
    }
}

/// Two lists of the same levels, both from the highest price to the lowest, bring
/// the same.
proof fn lemma_walk_order(a: Seq<(Amount, Amount)>, b: Seq<(Amount, Amount)>, remaining: int)
    requires
        all_sized(a),
        all_sized(b),
        descending(a),
        descending(b),
        a.to_multiset() == b.to_multiset(),
    ensures
        walk(a, remaining).value == walk(b, remaining).value,
    decreases a.len(),
{
    broadcast use vstd::seq_lib::group_to_multiset_ensures;

    if a.len() == 0 {
        assert(a.to_multiset().len() == 0 && b.to_multiset().len() == b.len());
    } else {
        let x = a[0];
        assert(a.contains(x));
        assert(b.to_multiset().count(x) > 0);
        assert(b.contains(x));
        let k = choose|k: int| 0 <= k < b.len() && b[k] == x;
        let p = x.0;
        // Up to where the level stands, all levels of `b` have its price.
        assert(level_start(b, k + 1, p)) by {
            assert forall|i: int| 0 <= i < k + 1 implies (#[trigger] b[i]).0 == p by {
                let y = b[i];
                assert(b.contains(y));
                assert(a.to_multiset().count(y) > 0);
                assert(a.contains(y));
                let j = choose|j: int| 0 <= j < a.len() && a[j] == y;
                if j > 0 {
                    assert(a[0].0 >= a[j].0);
                }
                if i < k {
                    assert(b[i].0 >= b[k].0);
                }
            }
        }
        let rest = b.remove(k);
        let moved = seq![x] + rest;
        assert(moved.drop_first() =~= rest);
        assert(a.remove(0) =~= a.drop_first());
        assert(a.drop_first().to_multiset() =~= rest.to_multiset());
        assert(all_sized(a.drop_first())) by {
            assert forall|i: int| 0 <= i < a.drop_first().len() implies (
            #[trigger] a.drop_first()[i]).1 > 0 by {
                assert(a[i + 1].1 > 0);
            }
        }
        assert(descending(a.drop_first())) by {
            assert forall|i: int, j: int| 0 <= i < j < a.drop_first().len() implies (
            #[trigger] a.drop_first()[i]).0 >= (#[trigger] a.drop_first()[j]).0 by {
                assert(a[i + 1].0 >= a[j + 1].0);
            }
        }
        assert(all_sized(rest)) by {
            assert forall|i: int| 0 <= i < rest.len() implies (#[trigger] rest[i]).1 > 0 by {
                assert(rest[i] == if i < k {
                    b[i]
                } else {
                    b[i + 1]
                });
            }
        }
        assert(descending(rest)) by {
            assert forall|i: int, j: int| 0 <= i < j < rest.len() implies (#[trigger] rest[i]).0
                >= (#[trigger] rest[j]).0 by {
                let i2 = if i < k {
                    i
                } else {
                    i + 1
                };
                let j2 = if j < k {
                    j
                } else {
                    j + 1
                };
                assert(rest[i] == b[i2] && rest[j] == b[j2]);
                assert(b[i2].0 >= b[j2].0);
            }
        }
        assert(a[0].1 > 0);
        let take = if remaining < x.1 {
            remaining
        } else {
            x.1 as int
        };
        lemma_walk_order(a.drop_first(), rest, remaining - take);
        assert(walk(a, remaining).value == walk(moved, remaining).value);
        // Within the block of one price the order does not matter.
        assert(all_sized(moved)) by {
            assert forall|i: int| 0 <= i < moved.len() implies (#[trigger] moved[i]).1 > 0 by {
                if i > 0 {
                    assert(rest[i - 1].1 > 0);
                }
            }
        }
        assert(level_start(moved, k + 1, p)) by {
            assert forall|i: int| 0 <= i < k + 1 implies (#[trigger] moved[i]).0 == p by {
                if i > 0 {
                    assert(b[i - 1].0 == p);
                }
            }
        }
        lemma_walk_block(moved, remaining, k + 1, p);
        lemma_walk_block(b, remaining, k + 1, p);
        assert(moved.skip(k + 1) =~= b.skip(k + 1));
        lemma_depth_remove(b.take(k + 1), k);
        assert(b.take(k + 1).remove(k) =~= rest.take(k));
        lemma_depth_first(moved.take(k + 1));
        assert(moved.take(k + 1).drop_first() =~= rest.take(k));
    }
}

/// Whether no two levels have one price.
pub open spec fn distinct_prices(levels: Seq<(Amount, Amount)>) -> bool {
    forall|i: int, j: int|
        0 <= i < j < levels.len() ==> (#[trigger] levels[i]).0 != (#[trigger] levels[j]).0
}

/// There is one way to put levels of distinct prices in order.
proof fn lemma_one_order(a: Seq<(Amount, Amount)>, b: Seq<(Amount, Amount)>)
    requires
        descending(a),
        descending(b),
        distinct_prices(a),
        distinct_prices(b),
        a.to_multiset() == b.to_multiset(),
    ensures
        a == b,
    decreases a.len(),
{
    broadcast use vstd::seq_lib::group_to_multiset_ensures;

    assert(a.to_multiset().len() == a.len() && b.to_multiset().len() == b.len());
    if a.len() > 0 {
        let n = a.len() - 1;
        let x = a[n];
        let y = b[n];
        assert(a.contains(x) && b.contains(y));
        assert(b.to_multiset().count(x) > 0 && a.to_multiset().count(y) > 0);
        assert(b.contains(x) && a.contains(y));
        let k = choose|k: int| 0 <= k < b.len() && b[k] == x;
        let m = choose|m: int| 0 <= m < a.len() && a[m] == y;
        if k < n {
            assert(b[k].0 >= b[n].0 && b[k].0 != b[n].0);
            if m < n {
                assert(a[m].0 >= a[n].0);
            }
        }
        let head = a.drop_last();
        let other = b.drop_last();
        assert(a.remove(n) =~= head && b.remove(n) =~= other);
        assert(head.to_multiset() =~= other.to_multiset());
        assert forall|i: int, j: int| 0 <= i < j < head.len() implies (#[trigger] head[i]).0
            >= (#[trigger] head[j]).0 && head[i].0 != head[j].0 by {
            assert(a[i].0 >= a[j].0 && a[i].0 != a[j].0);
        }
        assert forall|i: int, j: int| 0 <= i < j < other.len() implies (#[trigger] other[i]).0
            >= (#[trigger] other[j]).0 && other[i].0 != other[j].0 by {
            assert(b[i].0 >= b[j].0 && b[i].0 != b[j].0);
        }
        lemma_one_order(head, other);
        assert(a =~= head.push(x) && b =~= other.push(y));
    } else {
        assert(a =~= b);
    }
}

/// Two books with the same levels at the floor and above, in whatever order and
/// whatever else they hold, sell the same number of shares for the same proceeds at
/// the same average. Where no two of these levels have one price, they take as many
/// levels too.
pub proof fn law_equal_levels_sell_alike(
    a: Book,
    b: Book,
    target_shares: Amount,
    min_price: Amount,
)
    requires
        eligible(a.bids, min_price).to_multiset() == eligible(b.bids, min_price).to_multiset(),
    ensures
        ({
            let x = walked(a, target_shares, min_price);
            let y = walked(b, target_shares, min_price);
            &&& x.shares_filled == y.shares_filled
            &&& x.gross_proceeds_usdc == y.gross_proceeds_usdc
            &&& x.avg_price == y.avg_price
            &&& x.capped_by_depth == y.capped_by_depth
            &&& distinct_prices(eligible(a.bids, min_price)) ==> x == y
        }),
{
    broadcast use vstd::seq_lib::group_to_multiset_ensures;

    let la = eligible(a.bids, min_price);
    let lb = eligible(b.bids, min_price);
    law_best_first_sorts(la);
    law_best_first_sorts(lb);
    lemma_sorted_sized(a.bids, min_price);
    lemma_sorted_sized(b.bids, min_price);
    lemma_walk_order(best_first(la), best_first(lb), target_shares as int);
    lemma_depth_order(la, lb);
    lemma_walk_fills(best_first(la), target_shares as int);
    lemma_walk_fills(best_first(lb), target_shares as int);
    if distinct_prices(la) {
        lemma_distinct_order(la, best_first(la));
        lemma_distinct_order(best_first(la), best_first(lb));
        lemma_one_order(best_first(la), best_first(lb));
    }
}

/// Prices that are distinct in one order are distinct in another.
proof fn lemma_distinct_order(a: Seq<(Amount, Amount)>, b: Seq<(Amount, Amount)>)
    requires
        distinct_prices(a),
        a.to_multiset() == b.to_multiset(),
    ensures
        distinct_prices(b),
{
    broadcast use vstd::seq_lib::group_to_multiset_ensures;

    assert(a.no_duplicates());
    a.lemma_multiset_has_no_duplicates();
    b.lemma_multiset_has_no_duplicates_conv();
    assert forall|i: int, j: int| 0 <= i < j < b.len() implies (#[trigger] b[i]).0 != (
    #[trigger] b[j]).0 by {
        let x = b[i];
        let y = b[j];
        assert(b.contains(x) && b.contains(y));
        assert(a.to_multiset().count(x) > 0 && a.to_multiset().count(y) > 0);
        assert(a.contains(x) && a.contains(y));
        let k = choose|k: int| 0 <= k < a.len() && a[k] == x;
        let m = choose|m: int| 0 <= m < a.len() && a[m] == y;
        assert(k != m);
        if k < m {
            assert(a[k].0 != a[m].0);
        } else {
            assert(a[m].0 != a[k].0);
        }
    }
}

/// The order in which a book lists its bids does not matter: books of the same bids
/// have the same levels to sell into.
pub proof fn law_order_of_bids_is_immaterial(
    a: Book,
    b: Book,
    target_shares: Amount,
    min_price: Amount,
)
    requires
        a.bids.to_multiset() == b.bids.to_multiset(),
    ensures
        eligible(a.bids, min_price).to_multiset() == eligible(b.bids, min_price).to_multiset(),
        ({
            let x = walked(a, target_shares, min_price);
            let y = walked(b, target_shares, min_price);
            &&& x.shares_filled == y.shares_filled
            &&& x.gross_proceeds_usdc == y.gross_proceeds_usdc
            &&& x.avg_price == y.avg_price
            &&& x.capped_by_depth == y.capped_by_depth
            &&& distinct_prices(eligible(a.bids, min_price)) ==> x == y
        }),
{
    lemma_eligible_order(a.bids, b.bids, min_price);
    law_equal_levels_sell_alike(a, b, target_shares, min_price);
}

/// The order of levels does not change what they offer together.
proof fn lemma_depth_order(a: Seq<(Amount, Amount)>, b: Seq<(Amount, Amount)>)
    requires
        a.to_multiset() == b.to_multiset(),
    ensures
        depth(a) == depth(b),
    decreases a.len(),
{
    broadcast use vstd::seq_lib::group_to_multiset_ensures;

    if a.len() == 0 {
        assert(a.to_multiset().len() == 0 && b.to_multiset().len() == b.len());
    } else {
        let x = a.last();
        assert(a.contains(x));
        assert(b.to_multiset().count(x) > 0);
        assert(b.contains(x));
        let k = choose|k: int| 0 <= k < b.len() && b[k] == x;
        assert(a.remove(a.len() - 1) =~= a.drop_last());
        assert(a.drop_last().to_multiset() =~= b.remove(k).to_multiset());
        lemma_depth_order(a.drop_last(), b.remove(k));
        lemma_depth_remove(b, k);
    }
}

} // verus!
