//! Order books, and what selling into one realizes.
//!
//! A taker walks the bid side from the best price down. A maker posts one ask
//! and is filled at a rate that depends on where the ask stands in the book.

use crate::amount::{
    Amount, ONE, larger, lemma_quotient_bound, lemma_square_fits, max_of, narrow, product, quotient,
    saturate, times,
};
use crate::decimal::{amount_of, read_amount, read_decimal, reading};
use crate::text::joined;
use vstd::prelude::*;

verus! {

/// How far above the best ask the fill rate stops decaying, as a fraction of it.
pub const DECAY_WINDOW: Amount = 100_000_000;

/// One level of an order book, as the exchange writes it.
#[derive(Debug)]
pub struct ClobLevel {
    pub price: String,
    pub size: String,
}

/// An order book, as the exchange writes it.
#[derive(Debug)]
pub struct ClobBook {
    pub bids: Vec<ClobLevel>,
    pub asks: Vec<ClobLevel>,
}

/// The text of one level.
pub ghost struct Level {
    pub price: Seq<char>,
    pub size: Seq<char>,
}

/// The text of a book.
#[verifier::ext_equal]
pub ghost struct Book {
    pub bids: Seq<Level>,
    pub asks: Seq<Level>,
}

impl View for ClobLevel {
    type V = Level;

    open spec fn view(&self) -> Level {
        Level { price: self.price@, size: self.size@ }
    }
}

impl View for ClobBook {
    type V = Book;

    open spec fn view(&self) -> Book {
        Book {
            bids: self.bids@.map_values(|l: ClobLevel| l@),
            asks: self.asks@.map_values(|l: ClobLevel| l@),
        }
    }
}

/// What selling into a book came to.
#[derive(Debug, Clone, Copy, PartialEq, Eq, Structural)]
pub struct WalkedFill {
    pub shares_filled: Amount,
    pub gross_proceeds_usdc: Amount,
    pub avg_price: Amount,
    pub levels_consumed: usize,
    pub capped_by_depth: bool,
}

/// How minted shares are sold.
#[derive(Debug, Clone, Copy, PartialEq, Eq, Structural)]
pub enum DumpStrategy {
    /// Walk the bid side top-down with a per-level price floor: certain
    /// execution at prevailing bids.
    Taker,
    /// Post one ask at `max(mid, mint cost) * markup`, filled at `fill_rate` at
    /// most; what is not filled stays as a tail leg.
    Maker { markup: Amount, fill_rate: Amount },
}

impl Default for DumpStrategy {
    fn default() -> (r: Self)
        ensures
            r == DumpStrategy::Taker,
    {
        DumpStrategy::Taker
    }
}

/// The price of a bid, as far as it can be quoted: where it can be read and is not
/// infinitely low.
pub open spec fn bid_price(level: Level) -> Option<Amount> {
    match reading(level.price) {
        Some(r) => if r.infinite && r.negative {
            None
        } else {
            Some(r.amount)
        },
        None => None,
    }
}

/// The price of an ask, as far as it can be quoted: where it can be read and is not
/// infinitely high.
pub open spec fn ask_price(level: Level) -> Option<Amount> {
    match reading(level.price) {
        Some(r) => if r.infinite && !r.negative {
            None
        } else {
            Some(r.amount)
        },
        None => None,
    }
}

/// The highest price of the bids; nothing where there is none.
pub open spec fn highest_price(bids: Seq<Level>) -> Option<Amount>
    decreases bids.len(),
{
    if bids.len() == 0 {
        None
    } else {
        match (bid_price(bids.last()), highest_price(bids.drop_last())) {
            (Some(p), Some(best)) => Some(larger(p, best)),
            (Some(p), None) => Some(p),
            (None, best) => best,
        }
    }
}

/// The lowest price of the asks; nothing where there is none.
pub open spec fn lowest_price(asks: Seq<Level>) -> Option<Amount>
    decreases asks.len(),
{
    if asks.len() == 0 {
        None
    } else {
        match (ask_price(asks.last()), lowest_price(asks.drop_last())) {
            (Some(p), Some(best)) => Some(
                if p < best {
                    p
                } else {
                    best
                },
            ),
            (Some(p), None) => Some(p),
            (None, best) => best,
        }
    }
}

/// Whether a bid is infinitely high.
pub open spec fn is_topless(level: Level) -> bool {
    reading(level.price) matches Some(r) && r.infinite && !r.negative
}

/// Whether an ask is infinitely low.
pub open spec fn is_bottomless(level: Level) -> bool {
    reading(level.price) matches Some(r) && r.infinite && r.negative
}

/// Whether some bid is infinitely high.
pub open spec fn topless(bids: Seq<Level>) -> bool {
    exists|i: int| 0 <= i < bids.len() && is_topless(#[trigger] bids[i])
}

/// Whether some ask is infinitely low.
pub open spec fn bottomless(asks: Seq<Level>) -> bool {
    exists|i: int| 0 <= i < asks.len() && is_bottomless(#[trigger] asks[i])
}

/// What [`book_midpoint`] returns.
pub open spec fn midpoint(book: Book) -> Option<Amount> {
    match (highest_price(book.bids), lowest_price(book.asks)) {
        (Some(bid), Some(ask)) => match (topless(book.bids), bottomless(book.asks)) {
            (false, false) => Some(quotient(bid + ask, 2) as i64),
            (true, false) => Some(i64::MAX),
            (false, true) => Some(i64::MIN),
            (true, true) => None,
        },
        (Some(bid), None) => Some(bid),
        (None, ask) => ask,
    }
}

/// The bids with a readable price of at least `min_price` and a readable,
/// positive size, as pairs of price and size, in the order of the book.
pub open spec fn eligible(bids: Seq<Level>, min_price: Amount) -> Seq<(Amount, Amount)>
    decreases bids.len(),
{
    if bids.len() == 0 {
        Seq::empty()
    } else {
        let rest = eligible(bids.drop_last(), min_price);
        match (amount_of(bids.last().price), amount_of(bids.last().size)) {
            (Some(p), Some(s)) => if p >= min_price && s > 0 {
                rest.push((p, s))
            } else {
                rest
            },
            _ => rest,
        }
    }
}

/// `levels` with `level` put behind the last one that is not cheaper.
pub open spec fn insert_level(levels: Seq<(Amount, Amount)>, level: (Amount, Amount)) -> Seq<
    (Amount, Amount),
>
    decreases levels.len(),
{
    if levels.len() == 0 || levels.last().0 >= level.0 {
        levels.push(level)
    } else {
        insert_level(levels.drop_last(), level).push(levels.last())
    }
}

/// The levels from the highest price to the lowest; levels of one price keep
/// their order.
pub open spec fn best_first(levels: Seq<(Amount, Amount)>) -> Seq<(Amount, Amount)>
    decreases levels.len(),
{
    if levels.len() == 0 {
        levels
    } else {
        insert_level(best_first(levels.drop_last()), levels.last())
    }
}

/// What a walk over levels takes.
pub ghost struct Walk {
    /// Shares taken.
    pub filled: int,
    /// The sum of shares times price, in billionths of billionths.
    pub value: int,
    /// Levels of which something was taken.
    pub consumed: nat,
}

/// Takes `remaining` shares from the levels in their order, as far as they go.
pub open spec fn walk(levels: Seq<(Amount, Amount)>, remaining: int) -> Walk
    decreases levels.len(),
{
    if levels.len() == 0 || remaining <= 0 {
        Walk { filled: 0, value: 0, consumed: 0 }
    } else {
        let take = if remaining < levels[0].1 {
            remaining
        } else {
            levels[0].1 as int
        };
        let rest = walk(levels.drop_first(), remaining - take);
        Walk {
            filled: take + rest.filled,
            value: take * levels[0].0 + rest.value,
            consumed: 1 + rest.consumed,
        }
    }
}

/// What [`walk_bids_for_sell`] returns.
pub open spec fn walked(book: Book, target_shares: Amount, min_price: Amount) -> WalkedFill {
    let w = walk(best_first(eligible(book.bids, min_price)), target_shares as int);
    WalkedFill {
        shares_filled: w.filled as i64,
        gross_proceeds_usdc: saturate(quotient(w.value, ONE as int)),
        avg_price: if w.filled > 0 {
            quotient(w.value, w.filled) as i64
        } else {
            0
        },
        levels_consumed: w.consumed as usize,
        capped_by_depth: target_shares - w.filled > 0,
    }
}

/// How far the decay of the fill rate has gone for an ask above the best one:
/// nothing at the best ask, all of it at [`DECAY_WINDOW`] above it.
pub open spec fn decay(best_ask: Amount, ask_price: Amount) -> Amount {
    if best_ask == 0 {
        ONE
    } else {
        let t = saturate(
            quotient((ask_price - best_ask) * ONE * ONE, best_ask * DECAY_WINDOW),
        );
        if t < ONE {
            t
        } else {
            ONE
        }
    }
}

/// A rate of which the part `t` of the decay is gone:
/// `max_rate * (1 - t) + (max_rate / 2) * t`.
pub open spec fn decayed(max_rate: Amount, t: Amount) -> Amount {
    saturate(quotient(max_rate * (2 * ONE - t), 2 * ONE))
}

/// What [`dynamic_fill_rate`] returns: `max_rate` for an ask that becomes the
/// best one, else what the decay leaves of it. Above an infinitely low ask nothing
/// more can decay.
pub open spec fn fill_rate_at(book: Book, ask_price: Amount, max_rate: Amount) -> Amount {
    match lowest_price(book.asks) {
        Some(best_ask) => if bottomless(book.asks) {
            decayed(max_rate, ONE)
        } else if ask_price <= best_ask {
            max_rate
        } else {
            decayed(max_rate, decay(best_ask, ask_price))
        },
        None => max_rate,
    }
}

/// The price at which a maker asks: the midpoint, or the mint cost where that is
/// higher or there is no midpoint, times the markup.
pub open spec fn maker_ask(book: Book, markup: Amount, mint_cost_per_share: Amount) -> Amount {
    let mid = match midpoint(book) {
        Some(m) => m,
        None => mint_cost_per_share,
    };
    product(larger(mid, mint_cost_per_share), markup)
}

/// What [`simulate_maker_dump`] returns.
pub open spec fn maker_dump(
    book: Book,
    target_shares: Amount,
    markup: Amount,
    max_fill_rate: Amount,
    mint_cost_per_share: Amount,
) -> WalkedFill {
    let ask_price = maker_ask(book, markup, mint_cost_per_share);
    let filled = product(target_shares, fill_rate_at(book, ask_price, max_fill_rate));
    WalkedFill {
        shares_filled: filled,
        gross_proceeds_usdc: product(filled, ask_price),
        avg_price: ask_price,
        levels_consumed: 1,
        capped_by_depth: false,
    }
}

/// The view of the first `i + 1` levels is that of the first `i` and one more.
proof fn lemma_view_step(levels: Seq<ClobLevel>, i: int)
    requires
        0 <= i < levels.len(),
    ensures
        ({
            let s = levels.map_values(|l: ClobLevel| l@);
            s.take(i + 1).drop_last() == s.take(i) && s.take(i + 1).last() == levels[i]@
        }),
{
    let s = levels.map_values(|l: ClobLevel| l@);
    assert(s.take(i + 1).drop_last() =~= s.take(i));
}

/// The highest price of the bids; nothing where there is none.
fn highest(bids: &Vec<ClobLevel>) -> (r: Option<Amount>)
    ensures
        r == highest_price(bids@.map_values(|l: ClobLevel| l@)),
{
    let ghost s = bids@.map_values(|l: ClobLevel| l@);
    let mut best: Option<Amount> = None;
    let mut i: usize = 0;
    while i < bids.len()
        invariant
            i <= bids@.len(),
            s == bids@.map_values(|l: ClobLevel| l@),
            best == highest_price(s.take(i as int)),
        decreases bids@.len() - i,
    {
        proof {
            lemma_view_step(bids@, i as int);
        }
        if let Some(r) = read_decimal(bids[i].price.as_str()) {
            if !(r.infinite && r.negative) {
                best = match best {
                    Some(b) => Some(max_of(r.amount, b)),
                    None => Some(r.amount),
                };
            }
        }
        i = i + 1;
    }
    assert(s.take(i as int) =~= s);
    best
}

/// The lowest price of the asks; nothing where there is none.
fn lowest(asks: &Vec<ClobLevel>) -> (r: Option<Amount>)
    ensures
        r == lowest_price(asks@.map_values(|l: ClobLevel| l@)),
{
    let ghost s = asks@.map_values(|l: ClobLevel| l@);
    let mut best: Option<Amount> = None;
    let mut i: usize = 0;
    while i < asks.len()
        invariant
            i <= asks@.len(),
            s == asks@.map_values(|l: ClobLevel| l@),
            best == lowest_price(s.take(i as int)),
        decreases asks@.len() - i,
    {
        proof {
            lemma_view_step(asks@, i as int);
        }
        if let Some(r) = read_decimal(asks[i].price.as_str()) {
            if !(r.infinite && !r.negative) {
                best = match best {
                    Some(b) if b <= r.amount => Some(b),
                    _ => Some(r.amount),
                };
            }
        }
        i = i + 1;
    }
    assert(s.take(i as int) =~= s);
    best
}

/// Whether some bid is infinitely high.
fn has_topless(bids: &Vec<ClobLevel>) -> (r: bool)
    ensures
        r == topless(bids@.map_values(|l: ClobLevel| l@)),
{
    let ghost s = bids@.map_values(|l: ClobLevel| l@);
    let mut i: usize = 0;
    while i < bids.len()
        invariant
            i <= bids@.len(),
            s == bids@.map_values(|l: ClobLevel| l@),
            forall|j: int| 0 <= j < i ==> !is_topless(#[trigger] s[j]),
        decreases bids@.len() - i,
    {
        assert(s[i as int] == bids@[i as int]@);
        if let Some(r) = read_decimal(bids[i].price.as_str()) {
            if r.infinite && !r.negative {
                assert(is_topless(s[i as int]));
                return true;
            }
        }
        i = i + 1;
    }
    false
}

/// Whether some ask is infinitely low.
fn has_bottomless(asks: &Vec<ClobLevel>) -> (r: bool)
    ensures
        r == bottomless(asks@.map_values(|l: ClobLevel| l@)),
{
    let ghost s = asks@.map_values(|l: ClobLevel| l@);
    let mut i: usize = 0;
    while i < asks.len()
        invariant
            i <= asks@.len(),
            s == asks@.map_values(|l: ClobLevel| l@),
            forall|j: int| 0 <= j < i ==> !is_bottomless(#[trigger] s[j]),
        decreases asks@.len() - i,
    {
        assert(s[i as int] == asks@[i as int]@);
        if let Some(r) = read_decimal(asks[i].price.as_str()) {
            if r.infinite && r.negative {
                assert(is_bottomless(s[i as int]));
                return true;
            }
        }
        i = i + 1;
    }
    false
}

/// The midpoint of a book: halfway between the best bid and the best ask, the
/// one of them that there is where the other is missing, `None` where there is
/// no quote, or where an infinitely high bid meets an infinitely low ask.
pub fn book_midpoint(book: &ClobBook) -> (r: Option<Amount>)
    ensures
        r == midpoint(book@),
{
    match (highest(&book.bids), lowest(&book.asks)) {
        (Some(bid), Some(ask)) => {
            match (has_topless(&book.bids), has_bottomless(&book.asks)) {
                (false, false) => Some(((bid as i128 + ask as i128) / 2) as i64),
                (true, false) => Some(i64::MAX),
                (false, true) => Some(i64::MIN),
                (true, true) => None,
            }
        },
        (Some(bid), None) => Some(bid),
        (None, ask) => ask,
    }
}

/// Whether the book quotes an ask.
pub fn has_asks(book: &ClobBook) -> (r: bool)
    ensures
        r == (lowest_price(book@.asks) is Some),
{
    lowest(&book.asks).is_some()
}

/// Puts a level behind the last one that is not cheaper.
fn place_level(levels: &mut Vec<(Amount, Amount)>, level: (Amount, Amount))
    ensures
        final(levels)@ == insert_level(old(levels)@, level),
{
    let n: usize = levels.len();
    let mut p: usize = n;
    assert(levels@.take(n as int) =~= levels@);
    assert(insert_level(levels@, level) + levels@.skip(n as int) =~= insert_level(levels@, level));
    while p > 0 && levels[p - 1].0 < level.0
        invariant
            p <= n == levels@.len(),
            levels@ == old(levels)@,
            insert_level(levels@, level) == insert_level(levels@.take(p as int), level)
                + levels@.skip(p as int),
        decreases p,
    {
        proof {
            let head = levels@.take(p as int);
            assert(head.drop_last() =~= levels@.take(p - 1));
            assert(insert_level(head, level) == insert_level(head.drop_last(), level).push(
                head.last(),
            ));
            assert(insert_level(head, level) + levels@.skip(p as int) =~= insert_level(
                levels@.take(p - 1),
                level,
            ) + levels@.skip(p - 1));
        }
        p = p - 1;
    }
    proof {
        assert(insert_level(levels@.take(p as int), level) == levels@.take(p as int).push(level));
        assert(levels@.insert(p as int, level) =~= levels@.take(p as int).push(level)
            + levels@.skip(p as int));
    }
    levels.insert(p, level);
}

/// The bids that may be sold into, from the highest price to the lowest.
fn sorted_bids(bids: &Vec<ClobLevel>, min_price: Amount) -> (r: Vec<(Amount, Amount)>)
    ensures
        r@ == best_first(eligible(bids@.map_values(|l: ClobLevel| l@), min_price)),
{
    let ghost s = bids@.map_values(|l: ClobLevel| l@);
    let mut levels: Vec<(Amount, Amount)> = Vec::new();
    let mut i: usize = 0;
    while i < bids.len()
        invariant
            i <= bids@.len(),
            s == bids@.map_values(|l: ClobLevel| l@),
            levels@ == best_first(eligible(s.take(i as int), min_price)),
        decreases bids@.len() - i,
    {
        proof {
            lemma_view_step(bids@, i as int);
        }
        if let Some(p) = read_amount(bids[i].price.as_str()) {
            if let Some(q) = read_amount(bids[i].size.as_str()) {
                if p >= min_price && q > 0 {
                    place_level(&mut levels, (p, q));
                    proof {
                        let before = eligible(s.take(i as int), min_price);
                        assert(before.push((p, q)).drop_last() =~= before);
                    }
                }
            }
        }
        i = i + 1;
    }
    assert(s.take(i as int) =~= s);
    levels
}

/// Every level has a positive size.
pub open spec fn all_sized(levels: Seq<(Amount, Amount)>) -> bool {
    forall|i: int| 0 <= i < levels.len() ==> (#[trigger] levels[i]).1 > 0
}

proof fn lemma_insert_sized(levels: Seq<(Amount, Amount)>, level: (Amount, Amount))
    requires
        all_sized(levels),
        level.1 > 0,
    ensures
        all_sized(insert_level(levels, level)),
        insert_level(levels, level).len() == levels.len() + 1,
    decreases levels.len(),
{
    if !(levels.len() == 0 || levels.last().0 >= level.0) {
        lemma_insert_sized(levels.drop_last(), level);
    }
}

/// What may be sold into has a positive size, and there is no more of it than
/// there are bids.
pub proof fn lemma_sorted_sized(bids: Seq<Level>, min_price: Amount)
    ensures
        all_sized(best_first(eligible(bids, min_price))),
        best_first(eligible(bids, min_price)).len() <= bids.len(),
    decreases bids.len(),
{
    if bids.len() > 0 {
        let rest = eligible(bids.drop_last(), min_price);
        lemma_sorted_sized(bids.drop_last(), min_price);
        match (amount_of(bids.last().price), amount_of(bids.last().size)) {
            (Some(p), Some(s)) => {
                if p >= min_price && s > 0 {
                    assert(rest.push((p, s)).drop_last() =~= rest);
                    lemma_insert_sized(best_first(rest), (p, s));
                }
            },
            _ => {},
        }
    }
}

/// A walk takes no more than it is asked to, and its value fits its shares.
pub proof fn lemma_walk_bounds(levels: Seq<(Amount, Amount)>, remaining: int)
    requires
        all_sized(levels),
    ensures
        ({
            let w = walk(levels, remaining);
            &&& 0 <= w.filled
            &&& w.filled <= remaining || w.filled == 0
            &&& w.consumed <= levels.len()
            &&& i64::MIN * w.filled <= w.value <= i64::MAX * w.filled
        }),
    decreases levels.len(),
{
    if levels.len() > 0 && remaining > 0 {
        let take = if remaining < levels[0].1 {
            remaining
        } else {
            levels[0].1 as int
        };
        let price = levels[0].0;
        assert(all_sized(levels.drop_first())) by {
            assert forall|i: int| 0 <= i < levels.drop_first().len() implies (
            #[trigger] levels.drop_first()[i]).1 > 0 by {
                assert(levels[i + 1].1 > 0);
            }
        }
        lemma_walk_bounds(levels.drop_first(), remaining - take);
        assert(i64::MIN * take <= take * price <= i64::MAX * take) by (nonlinear_arith)
            requires
                take >= 0,
                i64::MIN <= price <= i64::MAX,
        ;
    }
}

/// A value that fits its shares has a price as its average.
pub proof fn lemma_average_fits(value: int, filled: int)
    requires
        filled > 0,
        i64::MIN * filled <= value <= i64::MAX * filled,
    ensures
        i64::MIN <= quotient(value, filled) <= i64::MAX,
{
    if value >= 0 {
        assert(0 <= value / filled <= i64::MAX) by (nonlinear_arith)
            requires
                filled > 0,
                0 <= value <= i64::MAX * filled,
        ;
    } else {
        assert(0 <= (-value) / filled <= -i64::MIN) by (nonlinear_arith)
            requires
                filled > 0,
                0 <= -value <= -i64::MIN * filled,
        ;
    }
}

/// Walks the bid side of the book from the best price down, taking as many
/// levels as needed to fill `target_shares` or to exhaust the book. A level
/// priced below `min_price` is dropped before the walk.
pub fn walk_bids_for_sell(book: &ClobBook, target_shares: Amount, min_price: Amount) -> (r:
    WalkedFill)
    ensures
        r == walked(book@, target_shares, min_price),
{
    let levels: Vec<(Amount, Amount)> = sorted_bids(&book.bids, min_price);
    proof {
        lemma_sorted_sized(book@.bids, min_price);
        lemma_walk_bounds(levels@, target_shares as int);
    }
    let ghost all = walk(levels@, target_shares as int);
    let mut remaining: Amount = target_shares;
    let mut filled: Amount = 0;
    let mut value: i128 = 0;
    let mut consumed: usize = 0;
    assert(levels@.skip(0) =~= levels@);
    while consumed < levels.len() && remaining > 0
        invariant
            consumed <= levels@.len(),
            all_sized(levels@),
            all == walk(levels@, target_shares as int),
            filled >= 0,
            remaining == target_shares - filled,
            remaining >= 0 || filled == 0,
            i64::MIN * filled <= value <= i64::MAX * filled,
            ({
                let rest = walk(levels@.skip(consumed as int), remaining as int);
                &&& all.filled == filled + rest.filled
                &&& all.value == value + rest.value
                &&& all.consumed == consumed + rest.consumed
            }),
        decreases levels@.len() - consumed,
    {
        let (price, size) = levels[consumed];
        assert(levels@[consumed as int].1 > 0);
        let take: Amount = if remaining < size {
            remaining
        } else {
            size
        };
        proof {
            assert(levels@.skip(consumed as int).drop_first() =~= levels@.skip(consumed + 1));
            lemma_square_fits(take, price);
            assert(i64::MIN * take <= take * price <= i64::MAX * take) by (nonlinear_arith)
                requires
                    take >= 0,
                    i64::MIN <= price <= i64::MAX,
            ;
            assert(i64::MIN * (filled + take) <= value + take * price <= i64::MAX * (filled
                + take));
            lemma_value_fits(value + take * price, filled + take);
        }
        filled = filled + take;
        value = value + take as i128 * price as i128;
        remaining = remaining - take;
        consumed = consumed + 1;
    }
    let avg_price: Amount = if filled > 0 {
        proof {
            lemma_average_fits(value as int, filled as int);
        }
        narrow(value / filled as i128)
    } else {
        0
    };
    WalkedFill {
        shares_filled: filled,
        gross_proceeds_usdc: narrow(value / ONE as i128),
        avg_price,
        levels_consumed: consumed,
        capped_by_depth: remaining > 0,
    }
}

/// A value that fits a 64-bit number of shares fits in 128 bits.
proof fn lemma_value_fits(value: int, filled: int)
    requires
        0 <= filled <= i64::MAX,
        i64::MIN * filled <= value <= i64::MAX * filled,
    ensures
        -0x4000_0000_0000_0000_0000_0000_0000_0000 <= value
            <= 0x4000_0000_0000_0000_0000_0000_0000_0000,
{
}

/// The share of its ceiling at which a maker ask at `ask_price` is filled before
/// the event resolves.
///
/// Where the book has no asks, or the ask is no higher than the best one, it
/// becomes or joins the best ask and fills at `max_rate`. Above the best ask the
/// rate falls linearly with the gap, down to half of `max_rate` at
/// [`DECAY_WINDOW`] above it.
pub fn dynamic_fill_rate(book: &ClobBook, ask_price: Amount, max_rate: Amount) -> (r: Amount)
    ensures
        r == fill_rate_at(book@, ask_price, max_rate),
{
    let best_ask: Amount = match lowest(&book.asks) {
        Some(p) => p,
        None => {
            return max_rate;
        },
    };
    let t: Amount = if has_bottomless(&book.asks) {
        ONE
    } else if ask_price <= best_ask {
        return max_rate;
    } else {
        decay_of(best_ask, ask_price)
    };
    proof {
        let k = 2 * ONE - t;
        assert(-0x7000_0000_0000_0000_0000_0000_0000_0000 <= max_rate * k
            <= 0x7000_0000_0000_0000_0000_0000_0000_0000) by (nonlinear_arith)
            requires
                i64::MIN <= max_rate <= i64::MAX,
                0 <= k <= 0x8000_0001_0000_0000,
        ;
    }
    narrow(max_rate as i128 * (2 * ONE as i128 - t as i128) / (2 * ONE as i128))
}

/// How far the decay of the fill rate has gone for an ask above the best one.
fn decay_of(best_ask: Amount, ask_price: Amount) -> (t: Amount)
    requires
        best_ask < ask_price,
    ensures
        t == decay(best_ask, ask_price),
        t <= ONE,
{
    if best_ask == 0 {
        return ONE;
    }
    let gap: i128 = ask_price as i128 - best_ask as i128;
    proof {
        let wide = gap as int;
        assert(0 <= wide * ONE <= 0x1_0000_0000_0000_0000 * 1_000_000_000 && 0 <= wide * ONE * ONE
            <= 0x1_0000_0000_0000_0000 * 1_000_000_000 * 1_000_000_000) by (nonlinear_arith)
            requires
                0 <= wide <= 0x1_0000_0000_0000_0000,
                ONE == 1_000_000_000,
        ;
        lemma_square_fits(best_ask, DECAY_WINDOW);
        assert(best_ask * DECAY_WINDOW != 0) by (nonlinear_arith)
            requires
                best_ask != 0,
                DECAY_WINDOW == 100_000_000,
        ;
        lemma_quotient_bound(wide * ONE * ONE, best_ask * DECAY_WINDOW);
    }
    let t: Amount = narrow(
        gap * (ONE as i128) * (ONE as i128) / (best_ask as i128 * DECAY_WINDOW as i128),
    );
    if t < ONE {
        t
    } else {
        ONE
    }
}

/// Simulates a maker sale: one ask at the midpoint or the mint cost, whichever
/// is higher, times `markup`, of which the [`dynamic_fill_rate`] is filled.
pub fn simulate_maker_dump(
    book: &ClobBook,
    target_shares: Amount,
    markup: Amount,
    max_fill_rate: Amount,
    mint_cost_per_share: Amount,
) -> (r: WalkedFill)
    ensures
        r == maker_dump(book@, target_shares, markup, max_fill_rate, mint_cost_per_share),
{
    let mid: Amount = match book_midpoint(book) {
        Some(m) => m,
        None => mint_cost_per_share,
    };
    let ask_price: Amount = times(max_of(mid, mint_cost_per_share), markup);
    let fill_rate: Amount = dynamic_fill_rate(book, ask_price, max_fill_rate);
    let filled: Amount = times(target_shares, fill_rate);
    WalkedFill {
        shares_filled: filled,
        gross_proceeds_usdc: times(filled, ask_price),
        avg_price: ask_price,
        levels_consumed: 1,
        capped_by_depth: false,
    }
}

/// Where the exchange serves the book of a token.
pub fn book_url(clob_url: &str, token_id: &str) -> (r: String)
    ensures
        r@ == clob_url@ + "/book?token_id="@ + token_id@,
{
    joined(joined(clob_url, "/book?token_id=").as_str(), token_id)
}

} // verus!
