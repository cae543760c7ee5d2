//! What stands for a value in contracts: every field by itself.

use crate::account::{Account, PaperAccount, PaperPosition, positions, texts};
use crate::amount::Amount;
use crate::book::{Book, ClobBook, ClobLevel};
use crate::engine::{PaperEngine, books_of};
use crate::event::{BucketInfo, WeatherEvent};
use crate::log::{Entry, LogEvent, LogRecord, records};
use crate::settle::{MarketQuote, quotes};
use vstd::prelude::*;

verus! {

/// A list of texts stands for the texts in their order.
pub proof fn law_texts(v: Seq<String>, i: int)
    ensures
        texts(v).len() == v.len(),
        0 <= i < v.len() ==> texts(v)[i] == v[i]@,
{
}

/// A position stands for its fields.
pub proof fn law_position_fields(p: PaperPosition)
    ensures
        p@.event_slug == p.event_slug@,
        p@.city == p.city@,
        p@.resolution_date == p.resolution_date@,
        p@.bucket_label == p.bucket_label@,
        p@.token_id == p.token_id@,
        p@.shares_held == p.shares_held,
        p@.effective_cost_per_share == p.effective_cost_per_share,
        p@.minted_at == p.minted_at,
        p@.resolves_at == p.resolves_at,
{
}

/// An account stands for its fields.
pub proof fn law_account_fields(a: PaperAccount, i: int)
    ensures
        a@.bankroll_usdc == a.bankroll_usdc,
        a@.starting_bankroll == a.starting_bankroll,
        a@.open_event_slugs == texts(a.open_event_slugs@),
        a@.open_positions.len() == a.open_positions@.len(),
        0 <= i < a.open_positions@.len() ==> a@.open_positions[i] == a.open_positions@[i]@,
        a@.closed_positions.len() == a.closed_positions@.len(),
        0 <= i < a.closed_positions@.len() ==> a@.closed_positions[i] == a.closed_positions@[i]@,
        a@.cum_mint_count == a.cum_mint_count,
        a@.cum_mint_usdc == a.cum_mint_usdc,
        a@.cum_dump_count == a.cum_dump_count,
        a@.cum_dump_usdc == a.cum_dump_usdc,
        a@.cum_gas_paid == a.cum_gas_paid,
        a@.cum_taker_fees == a.cum_taker_fees,
        a@.cum_realized_pnl == a.cum_realized_pnl,
{
}

/// Lists of positions and of rows stand for their items in order.
pub proof fn law_lists(ps: Seq<PaperPosition>, rs: Seq<LogRecord>, qs: Seq<MarketQuote>, i: int)
    ensures
        positions(ps).len() == ps.len(),
        0 <= i < ps.len() ==> positions(ps)[i] == ps[i]@,
        records(rs).len() == rs.len(),
        0 <= i < rs.len() ==> records(rs)[i] == rs[i]@,
        quotes(qs).len() == qs.len(),
        0 <= i < qs.len() ==> quotes(qs)[i] == qs[i]@,
{
}

/// A level stands for its price and its size, a book for its bids and its asks.
pub proof fn law_book_fields(l: ClobLevel, b: ClobBook, i: int)
    ensures
        l@.price == l.price@,
        l@.size == l.size@,
        b@.bids.len() == b.bids@.len(),
        0 <= i < b.bids@.len() ==> b@.bids[i] == b.bids@[i]@,
        b@.asks.len() == b.asks@.len(),
        0 <= i < b.asks@.len() ==> b@.asks[i] == b.asks@[i]@,
{
}

/// Fetched books stand for themselves, and what could not be fetched for nothing.
pub proof fn law_fetched_books(v: Seq<Option<ClobBook>>, i: int)
    ensures
        books_of(v).len() == v.len(),
        0 <= i < v.len() ==> (books_of(v)[i] is Some <==> v[i] is Some),
        0 <= i < v.len() ==> (v[i] matches Some(b) ==> books_of(v)[i] == Some(b@)),
{
}

/// A quote stands for its label and its prices in their order.
pub proof fn law_quote_fields(q: MarketQuote, i: int)
    ensures
        q@.label == q.label@,
        q@.prices.len() == q.prices@.len(),
        0 <= i < q.prices@.len() ==> q@.prices[i] == q.prices@[i]@,
{
}

/// The identifier that the exchange knows a bucket by is that of its YES token, in
/// decimal.
pub proof fn law_bucket_token(b: BucketInfo)
    ensures
        b.token_id() == crate::text::decimal(crate::event::big_endian(b.token_id_yes@)),
{
}

/// A row stands for its event, its entry and its bankroll.
pub proof fn law_record_fields(r: LogRecord)
    ensures
        r@.event_slug == r.event_slug@,
        r@.entry == r.entry@,
        r@.bankroll == r.bankroll,
{
}

/// What a row records stands for its fields.
pub proof fn law_entry_fields(e: LogEvent)
    ensures
        match e {
            LogEvent::SkipBankroll { bankroll, need } => e@ == (Entry::SkipBankroll {
                bankroll,
                need,
            }),
            LogEvent::SkipConcurrentCap { open } => e@ == (Entry::SkipConcurrentCap {
                open: open as nat,
            }),
            LogEvent::Mint { mint_total_usdc: m, gas_usdc: g, bucket_count: c } => e@
                == (Entry::Mint { mint_total_usdc: m, gas_usdc: g, bucket_count: c as nat }),
            LogEvent::DumpSkipped {
                bucket: b,
                reason: r,
                price_floor: f,
                mint_cost_per_share: c,
                min_dump_price: m,
                book_bids_count: n,
            } => e@ == (Entry::DumpSkipped {
                bucket: b@,
                reason: r,
                price_floor: f,
                mint_cost_per_share: c,
                min_dump_price: m,
                book_bids_count: n as nat,
            }),
            LogEvent::Dump {
                bucket: b,
                target_shares: t,
                filled: f,
                avg_price: a,
                gross_proceeds: g,
                fee: x,
                net_proceeds: y,
                levels_consumed: l,
                capped_by_depth: c,
                residual_shares: s,
            } => e@ == (Entry::Dump {
                bucket: b@,
                target_shares: t,
                filled: f,
                avg_price: a,
                gross_proceeds: g,
                fee: x,
                net_proceeds: y,
                levels_consumed: l as nat,
                capped_by_depth: c,
                residual_shares: s,
            }),
            LogEvent::CycleSummary {
                mint_out: a,
                gas: b,
                dump_proceeds_gross: c,
                dump_fees: d,
                dump_proceeds_net: f,
                cycle_pnl: g,
                roi_pct: h,
                bankroll_after: i,
                open_events: j,
                tail_legs_held: k,
                skipped_below_cost: l,
                mint_cost_per_share_threshold: m,
            } => e@ == (Entry::CycleSummary {
                mint_out: a,
                gas: b,
                dump_proceeds_gross: c,
                dump_fees: d,
                dump_proceeds_net: f,
                cycle_pnl: g,
                roi_pct: h,
                bankroll_after: i,
                open_events: j as nat,
                tail_legs_held: k as nat,
                skipped_below_cost: l as nat,
                mint_cost_per_share_threshold: m,
            }),
            LogEvent::ResolutionSettled { winners: w, credit_usdc: c } => e@
                == (Entry::ResolutionSettled { winners: texts(w@), credit_usdc: c }),
        },
{
}

/// A fresh account holds its starting bankroll and nothing else.
pub proof fn law_fresh_fields(start: Amount)
    ensures
        ({
            let a = Account::fresh(start);
            &&& a.bankroll_usdc == start
            &&& a.starting_bankroll == start
            &&& a.open_event_slugs.len() == 0
            &&& a.open_positions.len() == 0
            &&& a.closed_positions.len() == 0
            &&& a.cum_mint_count == 0
            &&& a.cum_mint_usdc == 0
            &&& a.cum_dump_count == 0
            &&& a.cum_dump_usdc == 0
            &&& a.cum_gas_paid == 0
            &&& a.cum_taker_fees == 0
            &&& a.cum_realized_pnl == 0
        }),
{
}

/// Engines that differ in the account alone agree in everything else.
pub proof fn law_same_but_account(a: PaperEngine, b: PaperEngine)
    ensures
        a.same_but_account(b) <==> a.clob_url == b.clob_url && a.log == b.log && a.config
            == b.config,
{
}

/// What an event comes to is what all of its buckets come to.
pub proof fn law_event_tally(
    e: PaperEngine,
    event: WeatherEvent,
    now_unix: i64,
    books: Seq<Option<Book>>,
)
    ensures
        e.event_tally(event, now_unix, books) == e.config.tally(
            event,
            books,
            now_unix,
            event.buckets@.len() as int,
        ),
{
}

} // verus!
