//! What the log tells of a cycle.

use super::amounts::law_quotient_cuts_off;
use super::cycles::{fits, gross_proceeds, in_range, is_made, lemma_sale_not_negative, tried_sale};
use crate::account::Account;
use crate::amount::{Amount, difference, saturate, sum};
use crate::book::Book;
use crate::engine::{Admission, EngineConfig, LegOutcome};
use crate::event::WeatherEvent;
use crate::log::{Entry, Record, SkipReason};
use vstd::prelude::*;

verus! {

/// The taker fee is so many parts in ten thousand of what a sale brings, cut off, and no
/// more than that.
pub proof fn law_fee_is_a_part(config: EngineConfig, gross: Amount)
    requires
        gross >= 0,
        config.taker_fee_bps <= 10_000,
    ensures
        0 <= gross * config.taker_fee_bps - config.fee(gross) * 10_000 < 10_000,
        0 <= config.fee(gross) <= gross,
{
    let g = gross as int;
    let b = config.taker_fee_bps as int;
    assert(0 <= g * b <= g * 10_000) by (nonlinear_arith)
        requires
            g >= 0,
            0 <= b <= 10_000,
    ;
    law_quotient_cuts_off(g * b, 10_000);
}

/// A bucket adds the row that tells what became of it: none where its book could not be
/// had, one on the sale where there was one, and one on why there was none otherwise.
pub proof fn law_bucket_adds_its_own_row(
    config: EngineConfig,
    event: WeatherEvent,
    books: Seq<Option<Book>>,
    now_unix: i64,
    i: int,
)
    requires
        0 <= i < event.buckets@.len(),
        config.mint_amount_usdc >= 0,
        config.taker_fee_bps <= 10_000,
    ensures
        ({
            let n = event.buckets@.len() as int;
            let before = config.tally(event, books, now_unix, i).records;
            let after = config.tally(event, books, now_unix, i + 1).records;
            match books[i] {
                None => after == before,
                Some(b) => {
                    let sale = tried_sale(config, b, n);
                    let row = after.last();
                    &&& after.len() == before.len() + 1
                    &&& after.drop_last() == before
                    &&& row.event_slug == event.event_slug@
                    &&& row.bankroll == -1_000_000_000
                    &&& if is_made(config, sale, n) {
                        row.entry matches Entry::Dump {
                            bucket,
                            target_shares,
                            filled,
                            avg_price,
                            gross_proceeds,
                            fee,
                            net_proceeds,
                            levels_consumed,
                            capped_by_depth,
                            residual_shares,
                        } && {
                            &&& bucket == event.buckets@[i].bucket_label@
                            &&& target_shares == config.target_dump()
                            &&& filled == sale.shares_filled
                            &&& avg_price == sale.avg_price
                            &&& gross_proceeds == sale.gross_proceeds_usdc
                            &&& fee == config.fee(gross_proceeds)
                            &&& net_proceeds == gross_proceeds - fee
                            &&& levels_consumed == sale.levels_consumed
                            &&& capped_by_depth == sale.capped_by_depth
                            &&& residual_shares == config.mint_amount_usdc - filled
                        }
                    } else {
                        row.entry matches Entry::DumpSkipped {
                            bucket,
                            reason,
                            price_floor,
                            mint_cost_per_share,
                            min_dump_price,
                            book_bids_count,
                        } && {
                            &&& bucket == event.buckets@[i].bucket_label@
                            &&& reason == SkipReason::EmptyBook <==> b.bids.len() == 0
                            &&& price_floor == config.price_floor(n)
                            &&& mint_cost_per_share == config.mint_cost(n)
                            &&& min_dump_price == config.min_dump_price
                            &&& book_bids_count == b.bids.len()
                        }
                    }
                },
            }
        }),
{
    let n = event.buckets@.len() as int;
    let before = config.tally(event, books, now_unix, i).records;
    let after = config.tally(event, books, now_unix, i + 1).records;
    lemma_sale_not_negative(config, books[i], n);
    if let Some(b) = books[i] {
        assert(after.drop_last() =~= before);
        if let LegOutcome::Sold { fill, .. } = config.leg(books[i], n) {
            law_fee_is_a_part(config, fill.gross_proceeds_usdc);
        }
    }
}

/// What the sales in a list of rows bring together, after fees.
pub open spec fn net_in(records: Seq<Record>) -> int
    decreases records.len(),
{
    if records.len() == 0 {
        0
    } else {
        net_in(records.drop_last()) + match records.last().entry {
            Entry::Dump { net_proceeds, .. } => net_proceeds as int,
            _ => 0,
        }
    }
}

/// The fees of the sales in a list of rows together.
pub open spec fn fees_in(records: Seq<Record>) -> int
    decreases records.len(),
{
    if records.len() == 0 {
        0
    } else {
        fees_in(records.drop_last()) + match records.last().entry {
            Entry::Dump { fee, .. } => fee as int,
            _ => 0,
        }
    }
}

/// How many rows in a list tell of a bucket that was held although its book had bids.
pub open spec fn below_floor_in(records: Seq<Record>) -> nat
    decreases records.len(),
{
    if records.len() == 0 {
        0
    } else {
        below_floor_in(records.drop_last()) + match records.last().entry {
            Entry::DumpSkipped { reason, .. } => if reason == SkipReason::AllBidsBelowFloor {
                1nat
            } else {
                0
            },
            _ => 0,
        }
    }
}

/// What a cycle books is what its rows tell: the proceeds and fees of the sales in them
/// together, and the count of buckets that were held although their book had bids.
pub proof fn law_rows_tell_what_is_booked(
    config: EngineConfig,
    event: WeatherEvent,
    books: Seq<Option<Book>>,
    now_unix: i64,
    i: int,
)
    requires
        0 <= i <= event.buckets@.len(),
        config.mint_amount_usdc >= 0,
        config.taker_fee_bps <= 10_000,
    ensures
        ({
            let tally = config.tally(event, books, now_unix, i);
            &&& tally.proceeds == saturate(net_in(tally.records))
            &&& tally.fees == saturate(fees_in(tally.records))
            &&& tally.skipped == below_floor_in(tally.records)
            &&& net_in(tally.records) >= 0
            &&& fees_in(tally.records) >= 0
        }),
    decreases i,
{
    if i > 0 {
        let n = event.buckets@.len() as int;
        law_rows_tell_what_is_booked(config, event, books, now_unix, i - 1);
        law_bucket_adds_its_own_row(config, event, books, now_unix, i - 1);
        lemma_sale_not_negative(config, books[i - 1], n);
    }
}

/// What the sales of an event bring is split into proceeds and fees, and nothing of it is
/// lost.
pub proof fn law_sales_are_split(
    config: EngineConfig,
    event: WeatherEvent,
    books: Seq<Option<Book>>,
    now_unix: i64,
    i: int,
)
    requires
        config.taker_fee_bps <= 10_000,
        fits(gross_proceeds(config, books, event.buckets@.len() as int, i)),
    ensures
        ({
            let tally = config.tally(event, books, now_unix, i);
            &&& tally.proceeds >= 0
            &&& tally.fees >= 0
            &&& tally.proceeds + tally.fees == gross_proceeds(
                config,
                books,
                event.buckets@.len() as int,
                i,
            )
        }),
    decreases i,
{
    if i > 0 {
        let n = event.buckets@.len() as int;
        lemma_gross_grows(config, books, n, i);
        law_sales_are_split(config, event, books, now_unix, i - 1);
        lemma_sale_not_negative(config, books[i - 1], n);
        if let LegOutcome::Sold { fill, .. } = config.leg(books[i - 1], n) {
            law_fee_is_a_part(config, fill.gross_proceeds_usdc);
        }
    }
}

proof fn lemma_gross_grows(config: EngineConfig, books: Seq<Option<Book>>, n: int, i: int)
    requires
        i > 0,
    ensures
        0 <= gross_proceeds(config, books, n, i - 1) <= gross_proceeds(config, books, n, i),
    decreases i,
{
    lemma_sale_not_negative(config, books[i - 1], n);
    if i > 1 {
        lemma_gross_grows(config, books, n, i - 1);
    }
}

/// With fees, too, every figure of a cycle changes by its part: the bankroll by the
/// proceeds less the mint and the gas, and the realized profit by that less the fees.
pub proof fn law_cycle_books_fees(
    config: EngineConfig,
    account: Account,
    event: WeatherEvent,
    books: Seq<Option<Book>>,
    now_unix: i64,
)
    requires
        config.admission(account) == Admission::Mint,
        config.mint_amount_usdc >= 0,
        in_range(account),
        in_range(config.cycled(account, event, now_unix, books)),
        ({
            let tally = config.tally(event, books, now_unix, event.buckets@.len() as int);
            fits(tally.proceeds - 2 * config.mint_amount_usdc - 20_000_000 - tally.fees)
        }),
    ensures
        ({
            let tally = config.tally(event, books, now_unix, event.buckets@.len() as int);
            let after = config.cycled(account, event, now_unix, books);
            &&& after.bankroll_usdc == account.bankroll_usdc + tally.proceeds - 2
                * config.mint_amount_usdc - 20_000_000
            &&& after.cum_realized_pnl == account.cum_realized_pnl + tally.proceeds - 2
                * config.mint_amount_usdc - 20_000_000 - tally.fees
            &&& after.cum_mint_usdc == account.cum_mint_usdc + 2 * config.mint_amount_usdc
            &&& after.cum_gas_paid == account.cum_gas_paid + 20_000_000
            &&& after.cum_dump_usdc == account.cum_dump_usdc + tally.proceeds
            &&& after.cum_taker_fees == account.cum_taker_fees + tally.fees
        }),
{
}

/// The first row of a cycle tells the decision with the figures that it rests on.
pub proof fn law_first_row_tells_the_decision(
    config: EngineConfig,
    account: Account,
    slug: Seq<char>,
    n_buckets: nat,
)
    requires
        0 <= config.mint_amount_usdc <= 0x3fff_ffff_0000_0000,
    ensures
        ({
            let row = config.admission_record(account, slug, n_buckets);
            let cost = 2 * config.mint_amount_usdc + 20_000_000;
            &&& row.event_slug == slug
            &&& match config.admission(account) {
                Admission::SkipBankroll => row.entry == (Entry::SkipBankroll {
                    bankroll: account.bankroll_usdc,
                    need: cost as i64,
                }) && row.bankroll == account.bankroll_usdc,
                Admission::SkipConcurrentCap => row.entry == (Entry::SkipConcurrentCap {
                    open: account.open_event_slugs.len(),
                }) && row.bankroll == account.bankroll_usdc,
                Admission::Mint => row.entry == (Entry::Mint {
                    mint_total_usdc: (2 * config.mint_amount_usdc) as i64,
                    gas_usdc: 20_000_000,
                    bucket_count: n_buckets,
                }) && row.bankroll == account.bankroll_usdc - cost,
            }
        }),
{
}

/// The last row of a cycle sums up the rows before it and tells the account as it stands
/// then.
pub proof fn law_last_row_sums_up(
    config: EngineConfig,
    account: Account,
    event: WeatherEvent,
    books: Seq<Option<Book>>,
    now_unix: i64,
)
    requires
        config.admission(account) == Admission::Mint,
        0 <= config.mint_amount_usdc <= 0x3fff_ffff_0000_0000,
        config.taker_fee_bps <= 10_000,
    ensures
        ({
            let n = event.buckets@.len() as int;
            let tally = config.tally(event, books, now_unix, n);
            let after = config.cycled(account, event, now_unix, books);
            let row = config.summary_record(event, tally, after);
            &&& row.event_slug == event.event_slug@
            &&& row.bankroll == after.bankroll_usdc
            &&& row.entry matches Entry::CycleSummary {
                mint_out,
                gas,
                dump_proceeds_gross,
                dump_fees,
                dump_proceeds_net,
                cycle_pnl,
                roi_pct,
                bankroll_after,
                open_events,
                tail_legs_held,
                skipped_below_cost,
                mint_cost_per_share_threshold,
            } && {
                &&& mint_out == 2 * config.mint_amount_usdc
                &&& gas == 20_000_000
                &&& dump_proceeds_net == saturate(net_in(tally.records))
                &&& dump_fees == saturate(fees_in(tally.records))
                &&& dump_proceeds_gross == sum(dump_proceeds_net, dump_fees)
                &&& cycle_pnl == saturate(dump_proceeds_net - mint_out - gas - dump_fees)
                &&& after.cum_realized_pnl == sum(account.cum_realized_pnl, cycle_pnl)
                &&& roi_pct == after.percent(
                    difference(after.bankroll_usdc, after.starting_bankroll),
                )
                &&& bankroll_after == after.bankroll_usdc
                &&& open_events == account.open_event_slugs.len() + 1
                &&& tail_legs_held == account.open_positions.len() + tally.legs.len()
                &&& skipped_below_cost == below_floor_in(tally.records)
                &&& mint_cost_per_share_threshold == config.mint_cost(n)
            }
        }),
{
    law_rows_tell_what_is_booked(config, event, books, now_unix, event.buckets@.len() as int);
}

} // verus!
