//! What open positions are worth at the current books.

use super::cycles::shares_not_negative;
use crate::account::Position;
use crate::amount::{product, saturate, sum};
use crate::book::{Book, bottomless, highest_price, lowest_price, midpoint, topless};
use crate::engine::{mark_price, marked};
use vstd::prelude::*;

verus! {

/// A position without a book, or with a book without asks, counts as nothing. Without
/// bids it counts at the best ask, and with both halfway between.
pub proof fn law_mark_price(book: Option<Book>)
    ensures
        book is None ==> mark_price(book) == 0,
        book matches Some(b) ==> match (highest_price(b.bids), lowest_price(b.asks)) {
            (_, None) => mark_price(book) == 0,
            (None, Some(ask)) => mark_price(book) == ask,
            (Some(bid), Some(ask)) => !topless(b.bids) && !bottomless(b.asks) ==> -1 <= 2
                * mark_price(book) - bid - ask <= 1,
        },
        book matches Some(b) ==> (lowest_price(b.asks) is Some ==> match midpoint(b) {
            Some(mid) => mark_price(book) == mid,
            None => mark_price(book) == 0,
        }),
{
}

/// What the first positions are worth does not depend on later ones.
proof fn lemma_marked_prefix(
    a: Seq<Position>,
    b: Seq<Position>,
    x: Seq<Option<Book>>,
    y: Seq<Option<Book>>,
    i: int,
)
    requires
        i <= a.len(),
        i <= b.len(),
        i <= x.len(),
        i <= y.len(),
        forall|k: int| 0 <= k < i ==> a[k] == b[k] && x[k] == y[k],
    ensures
        marked(a, x, i) == marked(b, y, i),
    decreases i,
{
    if i > 0 {
        lemma_marked_prefix(a, b, x, y, i - 1);
        assert(a[i - 1] == b[i - 1] && x[i - 1] == y[i - 1]);
    }
}

/// One more position with its book raises the total by its own shares times its own
/// price, where that is positive, and by nothing else, and counts as priced or not.
pub proof fn law_position_adds_its_own_value(
    ps: Seq<Position>,
    books: Seq<Option<Book>>,
    p: Position,
    book: Option<Book>,
)
    requires
        books.len() == ps.len(),
        ps.len() < usize::MAX,
    ensures
        ({
            let n = ps.len() as int;
            let before = marked(ps, books, n);
            let after = marked(ps.push(p), books.push(book), n + 1);
            if mark_price(book) > 0 {
                &&& after.total == sum(before.total, product(p.shares_held, mark_price(book)))
                &&& after.priced == before.priced + 1
                &&& after.unpriced == before.unpriced
            } else {
                &&& after.total == before.total
                &&& after.priced == before.priced
                &&& after.unpriced == before.unpriced + 1
            }
        }),
{
    let n = ps.len() as int;
    super::cycles::law_mark_counts_every_position(ps, books, n);
    lemma_marked_prefix(ps, ps.push(p), books, books.push(book), n);
}

/// What positions are worth together: of each its shares times the price of its own
/// book, where that is positive.
pub open spec fn worth(ps: Seq<Position>, books: Seq<Option<Book>>) -> int
    decreases ps.len(),
{
    if ps.len() == 0 || books.len() == 0 {
        0
    } else {
        worth(ps.drop_last(), books.drop_last()) + (if mark_price(books.last()) > 0 {
            product(ps.last().shares_held, mark_price(books.last())) as int
        } else {
            0
        })
    }
}

/// Positions are worth together what each is worth by itself.
pub proof fn law_mark_adds_up(ps: Seq<Position>, books: Seq<Option<Book>>)
    requires
        books.len() == ps.len(),
        shares_not_negative(ps),
    ensures
        marked(ps, books, ps.len() as int).total == saturate(worth(ps, books)),
        worth(ps, books) >= 0,
    decreases ps.len(),
{
    if ps.len() > 0 {
        let head = ps.drop_last();
        let shown = books.drop_last();
        assert forall|i: int| 0 <= i < head.len() implies (#[trigger] head[i]).shares_held >= 0 by {
            assert(ps[i].shares_held >= 0);
        }
        law_mark_adds_up(head, shown);
        lemma_marked_prefix(head, ps, shown, books, ps.len() - 1);
        assert(ps[ps.len() - 1].shares_held >= 0);
        let price = mark_price(books.last());
        if price > 0 {
            let s = ps.last().shares_held as int;
            let q = price as int;
            assert(s * q >= 0) by (nonlinear_arith)
                requires
                    s >= 0,
                    q > 0,
            ;
        }
    }
}

} // verus!
