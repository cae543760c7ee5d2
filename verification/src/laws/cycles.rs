//! One cycle: admission, mint, sale and booking.

use super::books::{
    asks_not_negative, law_average_respects_floor, law_maker_fills_within_target,
    law_walk_fills_to_depth, lemma_product_shrinks,
};
use crate::account::{Account, Position};
use crate::amount::{Amount, ONE, larger, product, saturate, sum};
use crate::book::{Book, DumpStrategy, WalkedFill, maker_dump, walked};
use crate::engine::{
    Admission, EngineConfig, GAS_COST_CONVERT_USDC, GAS_COST_MINT_USDC, GAS_COST_SPLIT_USDC,
    LegOutcome, Tally, lemma_even_cost, marked,
};
use crate::event::WeatherEvent;
use vstd::prelude::*;

verus! {

/// Whether an integer is an amount, so that nothing saturates.
pub open spec fn fits(x: int) -> bool {
    i64::MIN <= x <= i64::MAX
}

/// Minting keeps the number of open events within the cap.
pub proof fn law_mint_keeps_cap(config: EngineConfig, account: Account, event_slug: Seq<char>)
    requires
        config.admission(account) == Admission::Mint,
    ensures
        config.minted(account, event_slug).open_event_slugs.len() <= config.max_concurrent_events,
{
}

/// A mint is always covered: it leaves no debt, and costs twice the mint amount
/// and its gas.
pub proof fn law_mint_is_covered(config: EngineConfig, account: Account, event_slug: Seq<char>)
    requires
        config.admission(account) == Admission::Mint,
        config.mint_amount_usdc >= 0,
    ensures
        config.minted(account, event_slug).bankroll_usdc >= 0,
        fits(2 * config.mint_amount_usdc + GAS_COST_MINT_USDC) ==> config.minted(
            account,
            event_slug,
        ).bankroll_usdc == account.bankroll_usdc - 2 * config.mint_amount_usdc
            - GAS_COST_MINT_USDC,
{
}

/// No share is sold below its imputed mint cost, which is one over the number of
/// buckets, nor below the configured floor: what would bring less is held.
pub proof fn law_never_sells_below_cost(config: EngineConfig, book: Book, n_buckets: int)
    requires
        n_buckets >= 1,
    ensures
        config.leg(Some(book), n_buckets) matches LegOutcome::Sold { fill, .. } ==> {
            &&& fill.avg_price * n_buckets >= ONE
            &&& fill.avg_price >= config.mint_cost(n_buckets)
            &&& fill.avg_price >= config.min_dump_price
        },
{
    lemma_even_cost(n_buckets);
    if let LegOutcome::Sold { fill, .. } = config.leg(Some(book), n_buckets) {
        let cost = config.mint_cost(n_buckets);
        if fill.avg_price >= cost {
            assert(fill.avg_price * n_buckets >= cost * n_buckets) by (nonlinear_arith)
                requires
                    fill.avg_price >= cost,
                    n_buckets >= 1,
            ;
        }
    }
    if config.dump_strategy == DumpStrategy::Taker {
        law_average_respects_floor(book, config.target_dump(), config.price_floor(n_buckets));
    }
}

/// The shares of a bucket that were sold.
pub open spec fn sold(leg: LegOutcome) -> int {
    match leg {
        LegOutcome::Sold { fill, .. } => fill.shares_filled as int,
        _ => 0,
    }
}

/// The shares of a position, none where there is none.
pub open spec fn held(position: Option<Position>) -> int {
    match position {
        Some(p) => p.shares_held as int,
        None => 0,
    }
}

/// Whether the configuration and the book are such that no more is sold than was
/// minted: the fractions lie between nothing and one, and no ask is negative.
pub open spec fn sells_within_mint(config: EngineConfig, book: Option<Book>) -> bool {
    &&& config.mint_amount_usdc >= 0
    &&& 0 <= config.dump_fraction <= ONE
    &&& config.dump_strategy matches DumpStrategy::Maker { fill_rate, .. } ==> {
        &&& 0 <= fill_rate <= ONE
        &&& book matches Some(b) ==> asks_not_negative(b)
    }
}

/// No share is lost: what was sold of a bucket and what is held of it are
/// together what was minted.
pub proof fn law_bucket_conserves_shares(
    config: EngineConfig,
    event: WeatherEvent,
    i: int,
    book: Option<Book>,
    now_unix: i64,
)
    requires
        sells_within_mint(config, book),
    ensures
        ({
            let leg = config.leg(book, event.buckets@.len() as int);
            sold(leg) + held(config.leg_position(event, i, leg, now_unix))
                == config.mint_amount_usdc
        }),
{
    let n = event.buckets@.len() as int;
    lemma_product_shrinks(config.mint_amount_usdc, config.dump_fraction);
    match book {
        Some(b) => {
            match config.dump_strategy {
                DumpStrategy::Taker => {
                    law_walk_fills_to_depth(b, config.target_dump(), config.price_floor(n));
                },
                DumpStrategy::Maker { markup, fill_rate } => {
                    law_maker_fills_within_target(
                        b,
                        config.target_dump(),
                        markup,
                        fill_rate,
                        config.mint_cost(n),
                    );
                },
            }
        },
        None => {},
    }
}

/// The shares of positions together.
pub open spec fn shares_in(ps: Seq<Position>) -> int
    decreases ps.len(),
{
    if ps.len() == 0 {
        0
    } else {
        shares_in(ps.drop_last()) + ps.last().shares_held
    }
}

/// The shares of two lists of positions together.
pub proof fn lemma_shares_together(a: Seq<Position>, b: Seq<Position>)
    ensures
        shares_in(a + b) == shares_in(a) + shares_in(b),
    decreases b.len(),
{
    if b.len() > 0 {
        lemma_shares_together(a, b.drop_last());
        assert((a + b).drop_last() =~= a + b.drop_last());
    } else {
        assert(a + b =~= a);
    }
}

/// Whether no position owes shares.
pub open spec fn shares_not_negative(ps: Seq<Position>) -> bool {
    forall|i: int| 0 <= i < ps.len() ==> (#[trigger] ps[i]).shares_held >= 0
}

/// The shares that were sold of the first `i` buckets.
pub open spec fn shares_sold(
    config: EngineConfig,
    event: WeatherEvent,
    books: Seq<Option<Book>>,
    i: int,
) -> int
    decreases i,
{
    if i <= 0 {
        0
    } else {
        shares_sold(config, event, books, i - 1) + sold(
            config.leg(books[i - 1], event.buckets@.len() as int),
        )
    }
}

/// No share of an event is lost: what was sold and what is held are together what
/// was minted, bucket by bucket.
pub proof fn law_event_conserves_shares(
    config: EngineConfig,
    event: WeatherEvent,
    books: Seq<Option<Book>>,
    now_unix: i64,
    i: int,
)
    requires
        0 <= i <= books.len(),
        forall|k: int| 0 <= k < i ==> sells_within_mint(config, #[trigger] books[k]),
    ensures
        shares_in(config.tally(event, books, now_unix, i).legs) + shares_sold(
            config,
            event,
            books,
            i,
        ) == i * config.mint_amount_usdc,
    decreases i,
{
    if i > 0 {
        law_event_conserves_shares(config, event, books, now_unix, i - 1);
        assert(sells_within_mint(config, books[i - 1]));
        law_bucket_conserves_shares(config, event, i - 1, books[i - 1], now_unix);
        let before = config.tally(event, books, now_unix, i - 1);
        let leg = config.leg(books[i - 1], event.buckets@.len() as int);
        let p = config.leg_position(event, i - 1, leg, now_unix);
        if p is Some {
            assert(before.legs.push(p->0).drop_last() =~= before.legs);
        }
        assert(i * config.mint_amount_usdc == (i - 1) * config.mint_amount_usdc
            + config.mint_amount_usdc) by (nonlinear_arith);
    } else {
        assert(0 * config.mint_amount_usdc == 0);
    }
}

/// Every position that an event leaves is one of that event.
pub proof fn law_legs_belong_to_event(
    config: EngineConfig,
    event: WeatherEvent,
    books: Seq<Option<Book>>,
    now_unix: i64,
    i: int,
)
    ensures
        forall|k: int|
            0 <= k < config.tally(event, books, now_unix, i).legs.len() ==> (
            #[trigger] config.tally(event, books, now_unix, i).legs[k]).event_slug
                == event.event_slug@,
        0 <= i ==> config.tally(event, books, now_unix, i).legs.len() <= i,
    decreases i,
{
    if i > 0 {
        law_legs_belong_to_event(config, event, books, now_unix, i - 1);
    }
}

/// Without a taker fee no cycle pays fees.
pub proof fn law_no_fee_without_rate(
    config: EngineConfig,
    event: WeatherEvent,
    books: Seq<Option<Book>>,
    now_unix: i64,
    i: int,
)
    requires
        config.taker_fee_bps == 0,
    ensures
        config.tally(event, books, now_unix, i).fees == 0,
    decreases i,
{
    if i > 0 {
        law_no_fee_without_rate(config, event, books, now_unix, i - 1);
        let leg = config.leg(books[i - 1], event.buckets@.len() as int);
        if let LegOutcome::Sold { fill, .. } = leg {
            assert(fill.gross_proceeds_usdc * config.taker_fee_bps == 0) by (nonlinear_arith)
                requires
                    config.taker_fee_bps == 0,
            ;
        }
    }
}

/// Whether the running total of realized profits is what the bankroll has gained.
pub open spec fn balanced(account: Account) -> bool {
    account.cum_realized_pnl == account.bankroll_usdc - account.starting_bankroll
}

/// What an account would hold had it neither minted nor sold.
pub open spec fn ledger(account: Account) -> int {
    account.bankroll_usdc + account.cum_mint_usdc + account.cum_gas_paid - account.cum_dump_usdc
}

/// Whether every open position belongs to an open event.
pub open spec fn positions_are_open(account: Account) -> bool {
    forall|i: int|
        0 <= i < account.open_positions.len() ==> account.open_event_slugs.contains(
            (#[trigger] account.open_positions[i]).event_slug,
        )
}

/// Whether every figure of the account lies within the range of amounts, and not at
/// its end, where sums stand still.
pub open spec fn in_range(account: Account) -> bool {
    &&& i64::MIN < account.bankroll_usdc < i64::MAX
    &&& i64::MIN < account.cum_mint_usdc < i64::MAX
    &&& i64::MIN < account.cum_dump_usdc < i64::MAX
    &&& i64::MIN < account.cum_gas_paid < i64::MAX
    &&& i64::MIN < account.cum_taker_fees < i64::MAX
    &&& i64::MIN < account.cum_realized_pnl < i64::MAX
}

/// A fresh account is balanced, owes its ledger to the starting bankroll alone,
/// and holds nothing.
pub proof fn law_fresh_account(starting_bankroll: Amount)
    ensures
        balanced(Account::fresh(starting_bankroll)),
        ledger(Account::fresh(starting_bankroll)) == starting_bankroll,
        positions_are_open(Account::fresh(starting_bankroll)),
{
}

/// A cycle without fees keeps the account balanced: the running total of realized
/// profits stays what the bankroll has gained since the start.
pub proof fn law_cycle_keeps_balance(
    config: EngineConfig,
    account: Account,
    event: WeatherEvent,
    books: Seq<Option<Book>>,
    now_unix: i64,
)
    requires
        balanced(account),
        config.mint_amount_usdc >= 0,
        config.taker_fee_bps == 0,
        in_range(account),
        in_range(config.cycled(account, event, now_unix, books)),
    ensures
        balanced(config.cycled(account, event, now_unix, books)),
{
    let n = event.buckets@.len() as int;
    law_no_fee_without_rate(config, event, books, now_unix, n);
    lemma_tally_brings(config, event, books, now_unix, n);
}

/// A cycle moves money only between the bankroll and what was minted, paid for gas
/// and sold.
pub proof fn law_cycle_keeps_ledger(
    config: EngineConfig,
    account: Account,
    event: WeatherEvent,
    books: Seq<Option<Book>>,
    now_unix: i64,
)
    requires
        config.mint_amount_usdc >= 0,
        in_range(account),
        in_range(config.cycled(account, event, now_unix, books)),
    ensures
        ledger(config.cycled(account, event, now_unix, books)) == ledger(account),
{
}

/// A whole cycle leaves every open position in an open event.
pub proof fn law_cycle_keeps_positions_open(
    config: EngineConfig,
    account: Account,
    event: WeatherEvent,
    books: Seq<Option<Book>>,
    now_unix: i64,
)
    requires
        positions_are_open(account),
    ensures
        positions_are_open(
            config.credited(
                config.minted(account, event.event_slug@),
                config.tally(event, books, now_unix, event.buckets@.len() as int),
                event.buckets@.len(),
            ),
        ),
{
    let n = event.buckets@.len() as int;
    let tally = config.tally(event, books, now_unix, n);
    let slug = event.event_slug@;
    let after = config.credited(config.minted(account, slug), tally, event.buckets@.len());
    law_legs_belong_to_event(config, event, books, now_unix, n);
    assert forall|i: int| 0 <= i < after.open_positions.len() implies after.open_event_slugs.contains(
        (#[trigger] after.open_positions[i]).event_slug,
    ) by {
        let k = account.open_positions.len() as int;
        if i < k {
            assert(after.open_positions[i] == account.open_positions[i]);
            let s = account.open_positions[i].event_slug;
            assert(account.open_event_slugs.contains(s));
            let j = choose|j: int|
                0 <= j < account.open_event_slugs.len() && account.open_event_slugs[j] == s;
            assert(after.open_event_slugs[j] == s);
        } else {
            assert(after.open_positions[i] == tally.legs[i - k]);
            assert(after.open_event_slugs[account.open_event_slugs.len() as int] == slug);
        }
    }
}

/// The running totals of a cycle grow by one mint and by one sale for each bucket,
/// and nothing that was closed is reopened.
pub proof fn law_cycle_counts(
    config: EngineConfig,
    account: Account,
    event_slug: Seq<char>,
    tally: Tally,
    n_buckets: nat,
)
    requires
        account.cum_mint_count < u64::MAX,
        account.cum_dump_count + n_buckets <= u64::MAX,
    ensures
        ({
            let after = config.credited(config.minted(account, event_slug), tally, n_buckets);
            &&& after.cum_mint_count == account.cum_mint_count + 1
            &&& after.cum_dump_count == account.cum_dump_count + n_buckets
            &&& after.closed_positions == account.closed_positions
            &&& after.starting_bankroll == account.starting_bankroll
        }),
{
}

/// Every position is counted once when positions are marked.
pub proof fn law_mark_counts_every_position(
    ps: Seq<Position>,
    books: Seq<Option<Book>>,
    i: int,
)
    requires
        0 <= i <= usize::MAX,
    ensures
        marked(ps, books, i).priced + marked(ps, books, i).unpriced == i,
    decreases i,
{
    if i > 0 {
        law_mark_counts_every_position(ps, books, i - 1);
    }
}

/// The shares of all buckets together cost a dollar, and less than a billionth more
/// for each bucket.
pub proof fn law_mint_cost_is_even(config: EngineConfig, n_buckets: int)
    requires
        n_buckets >= 1,
    ensures
        ONE <= config.mint_cost(n_buckets) * n_buckets < ONE + n_buckets,
{
    lemma_even_cost(n_buckets);
}

/// Marking the open positions adds their value to the realized profit. Both are the
/// exact sums, brought into the range of amounts where they leave it.
pub proof fn law_mark_adds_to_profit(account: Account, open_value: Amount)
    ensures
        ({
            let gained = account.bankroll_usdc - account.starting_bankroll;
            &&& account.realized() == saturate(gained)
            &&& account.net_at_mark(open_value) == saturate(gained + open_value)
            &&& fits(gained) ==> account.realized() == gained
            &&& fits(gained + open_value) ==> account.net_at_mark(open_value) == gained
                + open_value
            &&& fits(gained) && fits(gained + open_value) ==> account.net_at_mark(open_value)
                == account.realized() + open_value
        }),
{
}

/// The profit rests on the bankroll and the starting bankroll alone, and unmarked it
/// is the realized one: positions and running totals have no say in it.
pub proof fn law_profit_rests_on_bankroll(a: Account, b: Account, open_value: Amount)
    requires
        a.bankroll_usdc == b.bankroll_usdc,
        a.starting_bankroll == b.starting_bankroll,
    ensures
        a.net_at_mark(open_value) == b.net_at_mark(open_value),
        a.realized() == b.realized(),
        a.net_at_mark(0) == a.realized(),
{
}

/// A sale brings something, and its fee takes no more than that.
pub proof fn lemma_sale_not_negative(config: EngineConfig, book: Option<Book>, n_buckets: int)
    ensures
        config.leg(book, n_buckets) matches LegOutcome::Sold { fill, fee, net, .. } ==> {
            &&& fill.gross_proceeds_usdc >= 0
            &&& fee >= 0
            &&& config.taker_fee_bps <= 10_000 ==> net >= 0
            &&& config.taker_fee_bps == 0 ==> fee == 0 && net == fill.gross_proceeds_usdc
        },
{
    if let LegOutcome::Sold { fill, fee, net, .. } = config.leg(book, n_buckets) {
        let b = book->0;
        let floor = config.price_floor(n_buckets);
        lemma_even_cost(
            if n_buckets > 1 {
                n_buckets
            } else {
                1
            },
        );
        if config.dump_strategy == DumpStrategy::Taker {
            law_average_respects_floor(b, config.target_dump(), floor);
            lemma_product_not_negative(fill.shares_filled, floor);
        } else {
            lemma_product_not_negative(fill.shares_filled, fill.avg_price);
        }
        let gross = fill.gross_proceeds_usdc as int;
        let bps = config.taker_fee_bps as int;
        assert(0 <= gross * bps) by (nonlinear_arith)
            requires
                gross >= 0,
                bps >= 0,
        ;
        if bps == 0 {
            assert(gross * 0 == 0);
        }
        if bps <= 10_000 {
            assert(gross * bps <= gross * 10_000) by (nonlinear_arith)
                requires
                    gross >= 0,
                    bps <= 10_000,
            ;
        }
    }
}

proof fn lemma_product_not_negative(a: Amount, b: Amount)
    requires
        a >= 0,
        b >= 0,
    ensures
        product(a, b) >= 0,
{
    assert(a * b >= 0) by (nonlinear_arith)
        requires
            a >= 0,
            b >= 0,
    ;
}

/// The sale that is tried with a bucket: a walk down the bids to the floor, or one
/// ask at the markup.
pub open spec fn tried_sale(config: EngineConfig, book: Book, n_buckets: int) -> WalkedFill {
    match config.dump_strategy {
        DumpStrategy::Taker => walked(
            book,
            config.target_dump(),
            larger(config.min_dump_price, config.mint_cost(n_buckets)),
        ),
        DumpStrategy::Maker { markup, fill_rate } => maker_dump(
            book,
            config.target_dump(),
            markup,
            fill_rate,
            config.mint_cost(n_buckets),
        ),
    }
}

/// Whether the sale that is tried is made: it sells a share or more, and a maker
/// asks no less than the floor.
pub open spec fn is_made(config: EngineConfig, sale: WalkedFill, n_buckets: int) -> bool {
    &&& sale.shares_filled >= ONE
    &&& config.dump_strategy is Maker ==> sale.avg_price >= larger(
        config.min_dump_price,
        config.mint_cost(n_buckets),
    )
}

/// A bucket is sold as its strategy sells, or else held whole at its part of the
/// mint. What is left of a sale is held at no cost; nothing is asked again and
/// nothing is sold off in the end.
pub proof fn law_bucket_is_sold_or_held(
    config: EngineConfig,
    event: WeatherEvent,
    i: int,
    book: Book,
    now_unix: i64,
)
    requires
        config.mint_amount_usdc >= 0,
        config.taker_fee_bps == 0,
    ensures
        ({
            let n = event.buckets@.len() as int;
            let sale = tried_sale(config, book, n);
            let leg = config.leg(Some(book), n);
            let position = config.leg_position(event, i, leg, now_unix);
            if is_made(config, sale, n) {
                &&& leg matches LegOutcome::Sold { fill, fee, net, residual } && fill == sale && fee
                    == 0 && net == sale.gross_proceeds_usdc && residual == config.mint_amount_usdc
                    - sale.shares_filled
                &&& config.mint_amount_usdc > sale.shares_filled ==> (position matches Some(p)
                    && p.shares_held == config.mint_amount_usdc - sale.shares_filled
                    && p.effective_cost_per_share == 0)
                &&& config.mint_amount_usdc <= sale.shares_filled ==> position is None
            } else {
                &&& leg is Held
                &&& position matches Some(p) && p.shares_held == config.mint_amount_usdc
                    && p.effective_cost_per_share == config.mint_cost(n)
            }
        }),
{
    lemma_sale_not_negative(config, Some(book), event.buckets@.len() as int);
}

/// What a bucket brings: the gross proceeds of the sale that is tried with it, if
/// that is made.
pub open spec fn bucket_proceeds(config: EngineConfig, book: Option<Book>, n_buckets: int) -> int {
    match book {
        Some(b) => {
            let sale = tried_sale(config, b, n_buckets);
            if is_made(config, sale, n_buckets) {
                sale.gross_proceeds_usdc as int
            } else {
                0
            }
        },
        None => 0,
    }
}

/// What the first `i` buckets of `n_buckets` bring together.
pub open spec fn gross_proceeds(
    config: EngineConfig,
    books: Seq<Option<Book>>,
    n_buckets: int,
    i: int,
) -> int
    decreases i,
{
    if i <= 0 {
        0
    } else {
        gross_proceeds(config, books, n_buckets, i - 1) + bucket_proceeds(
            config,
            books[i - 1],
            n_buckets,
        )
    }
}

/// Without fees the tally of an event is what its buckets bring.
proof fn lemma_tally_brings(
    config: EngineConfig,
    event: WeatherEvent,
    books: Seq<Option<Book>>,
    now_unix: i64,
    i: int,
)
    requires
        config.taker_fee_bps == 0,
    ensures
        gross_proceeds(config, books, event.buckets@.len() as int, i) >= 0,
        config.tally(event, books, now_unix, i).proceeds == saturate(
            gross_proceeds(config, books, event.buckets@.len() as int, i),
        ),
    decreases i,
{
    if i > 0 {
        let n = event.buckets@.len() as int;
        lemma_tally_brings(config, event, books, now_unix, i - 1);
        lemma_sale_not_negative(config, books[i - 1], n);
    }
}

/// A cycle without fees books what the sales of its buckets bring: the bankroll and
/// the realized profit change by that, less twice the mint amount and the gas, and
/// every running total by its part. A sum that leaves the range of amounts is
/// brought into it.
pub proof fn law_cycle_books_sales(
    config: EngineConfig,
    account: Account,
    event: WeatherEvent,
    books: Seq<Option<Book>>,
    now_unix: i64,
)
    requires
        config.admission(account) == Admission::Mint,
        config.mint_amount_usdc >= 0,
        config.taker_fee_bps == 0,
        account.cum_mint_count < u64::MAX,
        account.cum_dump_count + event.buckets@.len() <= u64::MAX,
    ensures
        ({
            let n = event.buckets@.len() as int;
            let brought = gross_proceeds(config, books, n, n);
            let after = config.cycled(account, event, now_unix, books);
            &&& brought >= 0
            &&& after.bankroll_usdc == saturate(account.bankroll_usdc - config.need() + brought)
            &&& after.cum_realized_pnl == sum(
                account.cum_realized_pnl,
                saturate(saturate(brought) - config.mint_total() - GAS_COST_MINT_USDC),
            )
            &&& after.cum_mint_usdc == sum(account.cum_mint_usdc, config.mint_total())
            &&& after.cum_gas_paid == sum(account.cum_gas_paid, GAS_COST_MINT_USDC)
            &&& after.cum_dump_usdc == sum(account.cum_dump_usdc, saturate(brought))
            &&& after.cum_taker_fees == account.cum_taker_fees
            &&& after.cum_mint_count == account.cum_mint_count + 1
            &&& after.cum_dump_count == account.cum_dump_count + n
            &&& after.open_event_slugs == account.open_event_slugs.push(event.event_slug@)
            &&& after.starting_bankroll == account.starting_bankroll
            &&& after.closed_positions == account.closed_positions
            &&& after.open_positions == account.open_positions + config.tally(
                event,
                books,
                now_unix,
                n,
            ).legs
        }),
        ({
            let n = event.buckets@.len() as int;
            let cost = 2 * config.mint_amount_usdc + GAS_COST_SPLIT_USDC + GAS_COST_CONVERT_USDC;
            let brought = gross_proceeds(config, books, n, n);
            let after = config.cycled(account, event, now_unix, books);
            fits(cost) && fits(brought) && in_range(after) ==> {
                &&& after.bankroll_usdc == account.bankroll_usdc + brought - cost
                &&& after.cum_realized_pnl == account.cum_realized_pnl + brought - cost
                &&& after.cum_mint_usdc == account.cum_mint_usdc + 2 * config.mint_amount_usdc
                &&& after.cum_gas_paid == account.cum_gas_paid + GAS_COST_SPLIT_USDC
                    + GAS_COST_CONVERT_USDC
                &&& after.cum_dump_usdc == account.cum_dump_usdc + brought
            }
        }),
{
    let n = event.buckets@.len() as int;
    law_mint_is_covered(config, account, event.event_slug@);
    lemma_tally_brings(config, event, books, now_unix, n);
    law_no_fee_without_rate(config, event, books, now_unix, n);
}

} // verus!
