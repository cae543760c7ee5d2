//! The paper-trading engine: what one event does to the account.
//!
//! An event is admitted if the bankroll covers the mint and not too many events
//! are open. It is then minted, the book of each bucket decides whether the
//! bucket is sold or held, and the proceeds and what is left are booked.

use crate::account::{
    Account, PaperAccount, PaperPosition, Position, lemma_positions_push, lemma_texts_push,
    positions,
};
use crate::amount::{
    Amount, ONE, difference, larger, max_of, minus, narrow, plus, product, quotient, saturate, sum,
    times,
};
use crate::book::{
    Book, ClobBook, DumpStrategy, WalkedFill, book_midpoint, has_asks, lowest_price, maker_dump,
    midpoint, simulate_maker_dump, walk_bids_for_sell, walked,
};
use crate::dates::{parse_resolution_date, resolution_second};
use crate::event::WeatherEvent;
use crate::log::{
    Entry, LogEvent, LogRecord, PaperLog, Record, SkipReason, lemma_records_push, records,
};
use std::path::PathBuf;
use vstd::prelude::*;

verus! {

/// Basis points that a taker pays.
pub const DEFAULT_TAKER_FEE_BPS: u16 = 0;

/// Gas cost in USDC of splitting collateral into a set of positions.
pub const GAS_COST_SPLIT_USDC: Amount = 8_000_000;

/// Gas cost in USDC of converting positions.
pub const GAS_COST_CONVERT_USDC: Amount = 12_000_000;

/// Gas cost in USDC of redeeming positions.
pub const GAS_COST_REDEEM_USDC: Amount = 6_000_000;

/// Gas cost in USDC of one mint: a split and a conversion.
pub const GAS_COST_MINT_USDC: Amount = 20_000_000;

/// The bankroll column of a row that does not tell the bankroll.
pub const NO_BANKROLL: Amount = -1_000_000_000;

/// What the engine is told to do.
#[derive(Debug, Clone, Copy, PartialEq, Eq, Structural)]
pub struct EngineConfig {
    /// How many events may be open at once.
    pub max_concurrent_events: usize,
    /// What is minted of each outcome.
    pub mint_amount_usdc: Amount,
    /// No share is sold below this price.
    pub min_dump_price: Amount,
    /// Which fraction of the minted shares is offered.
    pub dump_fraction: Amount,
    pub taker_fee_bps: u16,
    pub dump_strategy: DumpStrategy,
}

/// Whether an event is taken on.
#[derive(Debug, Clone, Copy, PartialEq, Eq, Structural)]
pub enum Admission {
    /// The bankroll does not cover the mint.
    SkipBankroll,
    /// Too many events are open.
    SkipConcurrentCap,
    /// The event is minted.
    Mint,
}

/// What became of the shares of one bucket.
#[derive(Debug, Clone, Copy, PartialEq, Eq, Structural)]
pub enum LegOutcome {
    /// There was no book to sell into.
    Unpriced,
    /// Less than one share would have been sold, so all are held.
    Held { reason: SkipReason },
    /// Shares were sold; `residual` of them are left.
    Sold { fill: WalkedFill, fee: Amount, net: Amount, residual: Amount },
}

/// The least amount of which `n` are a dollar or more.
pub open spec fn even_cost(n: int) -> int {
    (ONE + n - 1) / n
}

impl EngineConfig {
    /// What one event costs without gas.
    pub open spec fn mint_total(self) -> Amount {
        saturate(2 * self.mint_amount_usdc)
    }

    /// What the bankroll has to cover for one event.
    pub open spec fn need(self) -> Amount {
        saturate(2 * self.mint_amount_usdc + GAS_COST_SPLIT_USDC + GAS_COST_CONVERT_USDC)
    }

    /// How many shares of each bucket are offered.
    pub open spec fn target_dump(self) -> Amount {
        product(self.mint_amount_usdc, self.dump_fraction)
    }

    /// The imputed cost of a share: a mint makes one share of each bucket for a
    /// dollar, so that each costs one over the number of buckets, rounded up.
    pub open spec fn mint_cost(self, n_buckets: int) -> Amount {
        even_cost(
            if n_buckets > 1 {
                n_buckets
            } else {
                1
            },
        ) as i64
    }

    /// No share is sold below this price.
    pub open spec fn price_floor(self, n_buckets: int) -> Amount {
        larger(self.min_dump_price, self.mint_cost(n_buckets))
    }

    /// What selling into a book comes to.
    pub open spec fn fill(self, book: Book, n_buckets: int) -> WalkedFill {
        match self.dump_strategy {
            DumpStrategy::Taker => walked(book, self.target_dump(), self.price_floor(n_buckets)),
            DumpStrategy::Maker { markup, fill_rate } => {
                let w = maker_dump(
                    book,
                    self.target_dump(),
                    markup,
                    fill_rate,
                    self.mint_cost(n_buckets),
                );
                if w.avg_price < self.price_floor(n_buckets) {
                    WalkedFill {
                        shares_filled: 0,
                        gross_proceeds_usdc: 0,
                        avg_price: w.avg_price,
                        levels_consumed: 0,
                        capped_by_depth: false,
                    }
                } else {
                    w
                }
            },
        }
    }

    /// The taker fee on a sale.
    pub open spec fn fee(self, gross: Amount) -> Amount {
        saturate(quotient(gross * self.taker_fee_bps, 10_000))
    }

    /// What becomes of the shares of a bucket with the given book.
    pub open spec fn leg(self, book: Option<Book>, n_buckets: int) -> LegOutcome {
        match book {
            None => LegOutcome::Unpriced,
            Some(b) => {
                let fill = self.fill(b, n_buckets);
                if fill.shares_filled < ONE {
                    LegOutcome::Held {
                        reason: if b.bids.len() == 0 {
                            SkipReason::EmptyBook
                        } else {
                            SkipReason::AllBidsBelowFloor
                        },
                    }
                } else {
                    let fee = self.fee(fill.gross_proceeds_usdc);
                    LegOutcome::Sold {
                        fill,
                        fee,
                        net: difference(fill.gross_proceeds_usdc, fee),
                        residual: difference(self.mint_amount_usdc, fill.shares_filled),
                    }
                }
            },
        }
    }

    /// Whether an event is taken on with the given account.
    pub open spec fn admission(self, account: Account) -> Admission {
        if account.bankroll_usdc < self.need() {
            Admission::SkipBankroll
        } else if account.open_event_slugs.len() >= self.max_concurrent_events {
            Admission::SkipConcurrentCap
        } else {
            Admission::Mint
        }
    }

    /// The account after an event was minted.
    pub open spec fn minted(self, account: Account, event_slug: Seq<char>) -> Account {
        Account {
            bankroll_usdc: difference(
                account.bankroll_usdc,
                sum(self.mint_total(), GAS_COST_MINT_USDC),
            ),
            cum_mint_count: (account.cum_mint_count + 1) as u64,
            cum_mint_usdc: sum(account.cum_mint_usdc, self.mint_total()),
            cum_gas_paid: sum(account.cum_gas_paid, GAS_COST_MINT_USDC),
            open_event_slugs: account.open_event_slugs.push(event_slug),
            ..account
        }
    }

    /// The row that tells whether the event is taken on, or why not.
    pub open spec fn admission_record(
        self,
        account: Account,
        event_slug: Seq<char>,
        n_buckets: nat,
    ) -> Record {
        match self.admission(account) {
            Admission::SkipBankroll => Record {
                event_slug,
                entry: Entry::SkipBankroll { bankroll: account.bankroll_usdc, need: self.need() },
                bankroll: account.bankroll_usdc,
            },
            Admission::SkipConcurrentCap => Record {
                event_slug,
                entry: Entry::SkipConcurrentCap { open: account.open_event_slugs.len() },
                bankroll: account.bankroll_usdc,
            },
            Admission::Mint => Record {
                event_slug,
                entry: Entry::Mint {
                    mint_total_usdc: self.mint_total(),
                    gas_usdc: GAS_COST_MINT_USDC,
                    bucket_count: n_buckets,
                },
                bankroll: self.minted(account, event_slug).bankroll_usdc,
            },
        }
    }

    /// What is held of bucket `i` after it became `leg`, if anything.
    pub open spec fn leg_position(
        self,
        event: WeatherEvent,
        i: int,
        leg: LegOutcome,
        now_unix: i64,
    ) -> Option<Position> {
        let whole = Position {
            event_slug: event.event_slug@,
            city: event.city@,
            resolution_date: event.resolution_date@,
            bucket_label: event.buckets@[i].bucket_label@,
            token_id: event.buckets@[i].token_id(),
            shares_held: self.mint_amount_usdc,
            effective_cost_per_share: self.mint_cost(event.buckets@.len() as int),
            minted_at: now_unix,
            resolves_at: resolution_second(event.resolution_date@, now_unix) as i64,
        };
        match leg {
            LegOutcome::Sold { residual, .. } => if residual > 0 {
                Some(Position { shares_held: residual, effective_cost_per_share: 0, ..whole })
            } else {
                None
            },
            _ => Some(whole),
        }
    }

    /// The row that tells what became of bucket `i`, if there is one.
    pub open spec fn leg_record(
        self,
        event: WeatherEvent,
        i: int,
        book: Option<Book>,
        leg: LegOutcome,
    ) -> Option<Record> {
        let n = event.buckets@.len() as int;
        match leg {
            LegOutcome::Unpriced => None,
            LegOutcome::Held { reason } => Some(
                Record {
                    event_slug: event.event_slug@,
                    entry: Entry::DumpSkipped {
                        bucket: event.buckets@[i].bucket_label@,
                        reason,
                        price_floor: self.price_floor(n),
                        mint_cost_per_share: self.mint_cost(n),
                        min_dump_price: self.min_dump_price,
                        book_bids_count: book->0.bids.len(),
                    },
                    bankroll: NO_BANKROLL,
                },
            ),
            LegOutcome::Sold { fill, fee, net, residual } => Some(
                Record {
                    event_slug: event.event_slug@,
                    entry: Entry::Dump {
                        bucket: event.buckets@[i].bucket_label@,
                        target_shares: self.target_dump(),
                        filled: fill.shares_filled,
                        avg_price: fill.avg_price,
                        gross_proceeds: fill.gross_proceeds_usdc,
                        fee,
                        net_proceeds: net,
                        levels_consumed: fill.levels_consumed as nat,
                        capped_by_depth: fill.capped_by_depth,
                        residual_shares: residual,
                    },
                    bankroll: NO_BANKROLL,
                },
            ),
        }
    }
}

/// What the first buckets of an event came to.
#[verifier::ext_equal]
pub ghost struct Tally {
    pub proceeds: Amount,
    pub fees: Amount,
    /// Buckets held although their book had bids.
    pub skipped: nat,
    pub legs: Seq<Position>,
    pub records: Seq<Record>,
}

/// A sequence with one more item, if there is one.
pub open spec fn push_some<Item>(s: Seq<Item>, item: Option<Item>) -> Seq<Item> {
    match item {
        Some(x) => s.push(x),
        None => s,
    }
}

impl EngineConfig {
    /// What the first `i` buckets of an event come to.
    pub open spec fn tally(
        self,
        event: WeatherEvent,
        books: Seq<Option<Book>>,
        now_unix: i64,
        i: int,
    ) -> Tally
        decreases i,
    {
        if i <= 0 {
            Tally {
                proceeds: 0,
                fees: 0,
                skipped: 0,
                legs: Seq::empty(),
                records: Seq::empty(),
            }
        } else {
            let before = self.tally(event, books, now_unix, i - 1);
            let leg = self.leg(books[i - 1], event.buckets@.len() as int);
            Tally {
                proceeds: match leg {
                    LegOutcome::Sold { net, .. } => sum(before.proceeds, net),
                    _ => before.proceeds,
                },
                fees: match leg {
                    LegOutcome::Sold { fee, .. } => sum(before.fees, fee),
                    _ => before.fees,
                },
                skipped: if leg == (LegOutcome::Held { reason: SkipReason::AllBidsBelowFloor }) {
                    before.skipped + 1
                } else {
                    before.skipped
                },
                legs: push_some(before.legs, self.leg_position(event, i - 1, leg, now_unix)),
                records: push_some(
                    before.records,
                    self.leg_record(event, i - 1, books[i - 1], leg),
                ),
            }
        }
    }

    /// The profit of a cycle.
    pub open spec fn cycle_pnl(self, tally: Tally) -> Amount {
        saturate(tally.proceeds - self.mint_total() - GAS_COST_MINT_USDC - tally.fees)
    }

    /// The account after the buckets of a minted event came to `tally`.
    pub open spec fn credited(self, account: Account, tally: Tally, n_buckets: nat) -> Account {
        Account {
            bankroll_usdc: sum(account.bankroll_usdc, tally.proceeds),
            cum_dump_count: (account.cum_dump_count + n_buckets) as u64,
            cum_dump_usdc: sum(account.cum_dump_usdc, tally.proceeds),
            cum_taker_fees: sum(account.cum_taker_fees, tally.fees),
            open_positions: account.open_positions + tally.legs,
            cum_realized_pnl: sum(account.cum_realized_pnl, self.cycle_pnl(tally)),
            ..account
        }
    }

    /// The account after a whole cycle for an event with the given books.
    pub open spec fn cycled(
        self,
        account: Account,
        event: WeatherEvent,
        now_unix: i64,
        books: Seq<Option<Book>>,
    ) -> Account {
        let n = event.buckets@.len();
        if self.admission(account) == Admission::Mint {
            self.credited(
                self.minted(account, event.event_slug@),
                self.tally(event, books, now_unix, n as int),
                n,
            )
        } else {
            account
        }
    }

    /// The row that sums up a cycle; `after` is the account after it.
    pub open spec fn summary_record(
        self,
        event: WeatherEvent,
        tally: Tally,
        after: Account,
    ) -> Record {
        Record {
            event_slug: event.event_slug@,
            entry: Entry::CycleSummary {
                mint_out: self.mint_total(),
                gas: GAS_COST_MINT_USDC,
                dump_proceeds_gross: sum(tally.proceeds, tally.fees),
                dump_fees: tally.fees,
                dump_proceeds_net: tally.proceeds,
                cycle_pnl: self.cycle_pnl(tally),
                roi_pct: after.percent(after.realized()),
                bankroll_after: after.bankroll_usdc,
                open_events: after.open_event_slugs.len(),
                tail_legs_held: after.open_positions.len(),
                skipped_below_cost: tally.skipped,
                mint_cost_per_share_threshold: self.mint_cost(event.buckets@.len() as int),
            },
            bankroll: after.bankroll_usdc,
        }
    }
}

/// The books that were fetched; nothing where the fetch failed.
pub open spec fn books_of(v: Seq<Option<ClobBook>>) -> Seq<Option<Book>> {
    v.map_values(
        |b: Option<ClobBook>|
            match b {
                Some(book) => Some(book@),
                None => None,
            },
    )
}

/// One over a number of buckets, rounded up, is an amount between nothing and one,
/// and no less than one over that number.
pub proof fn lemma_even_cost(n: int)
    requires
        n >= 1,
    ensures
        0 < even_cost(n) <= ONE,
        ONE <= even_cost(n) * n < ONE + n,
{
    let c = even_cost(n);
    let r = (ONE + n - 1) % n;
    assert(ONE + n - 1 == n * c + r && 0 <= r < n) by {
        vstd::arithmetic::div_mod::lemma_fundamental_div_mod(ONE + n - 1, n);
        vstd::arithmetic::div_mod::lemma_mod_bound(ONE + n - 1, n);
    }
    assert(n * c == c * n) by (nonlinear_arith);
    assert(0 < c <= ONE) by (nonlinear_arith)
        requires
            n >= 1,
            ONE == 1_000_000_000,
            ONE <= c * n < ONE + n,
    ;
}

impl EngineConfig {
    fn mint_cost_per_share(&self, n_buckets: usize) -> (r: Amount)
        ensures
            r == self.mint_cost(n_buckets as int),
    {
        let n: u64 = if n_buckets > 1 {
            n_buckets as u64
        } else {
            1
        };
        proof {
            lemma_even_cost(n as int);
        }
        ((ONE as u128 + n as u128 - 1) / n as u128) as i64
    }

    /// What selling into a book comes to.
    fn sell(&self, book: &ClobBook, n_buckets: usize) -> (r: WalkedFill)
        ensures
            r == self.fill(book@, n_buckets as int),
    {
        let cost: Amount = self.mint_cost_per_share(n_buckets);
        let price_floor: Amount = max_of(self.min_dump_price, cost);
        let target_dump: Amount = times(self.mint_amount_usdc, self.dump_fraction);
        match self.dump_strategy {
            DumpStrategy::Taker => walk_bids_for_sell(book, target_dump, price_floor),
            DumpStrategy::Maker { markup, fill_rate } => {
                let w: WalkedFill = simulate_maker_dump(
                    book,
                    target_dump,
                    markup,
                    fill_rate,
                    cost,
                );
                if w.avg_price < price_floor {
                    WalkedFill {
                        shares_filled: 0,
                        gross_proceeds_usdc: 0,
                        avg_price: w.avg_price,
                        levels_consumed: 0,
                        capped_by_depth: false,
                    }
                } else {
                    w
                }
            },
        }
    }

    /// Decides what becomes of the shares of a bucket, given its book, or nothing
    /// where the book could not be fetched.
    pub fn leg_outcome(&self, book: &Option<ClobBook>, n_buckets: usize) -> (r: LegOutcome)
        ensures
            r == self.leg(
                match *book {
                    Some(b) => Some(b@),
                    None => None,
                },
                n_buckets as int,
            ),
    {
        let book: &ClobBook = match book {
            Some(b) => b,
            None => {
                return LegOutcome::Unpriced;
            },
        };
        let fill: WalkedFill = self.sell(book, n_buckets);
        if fill.shares_filled < ONE {
            let reason: SkipReason = if book.bids.len() == 0 {
                SkipReason::EmptyBook
            } else {
                SkipReason::AllBidsBelowFloor
            };
            return LegOutcome::Held { reason };
        }
        proof {
            let g = fill.gross_proceeds_usdc as int;
            let b = self.taker_fee_bps as int;
            assert(-0x4000_0000_0000_0000_0000_0000_0000_0000 <= g * b
                <= 0x4000_0000_0000_0000_0000_0000_0000_0000) by (nonlinear_arith)
                requires
                    i64::MIN <= g <= i64::MAX,
                    0 <= b <= 0xffff,
            ;
        }
        let fee: Amount = narrow(
            fill.gross_proceeds_usdc as i128 * self.taker_fee_bps as i128 / 10_000,
        );
        LegOutcome::Sold {
            fill,
            fee,
            net: minus(fill.gross_proceeds_usdc, fee),
            residual: minus(self.mint_amount_usdc, fill.shares_filled),
        }
    }
}

/// The engine: its configuration, its account and its log.
pub struct PaperEngine {
    pub clob_url: String,
    pub account: PaperAccount,
    pub log: PaperLog,
    pub config: EngineConfig,
}

impl PaperEngine {
    /// Whether `other` differs from this engine in the account alone.
    pub open spec fn same_but_account(self, other: PaperEngine) -> bool {
        self.clob_url == other.clob_url && self.log == other.log && self.config == other.config
    }

    /// What the buckets of an event come to.
    pub open spec fn event_tally(
        self,
        event: WeatherEvent,
        now_unix: i64,
        books: Seq<Option<Book>>,
    ) -> Tally {
        self.config.tally(event, books, now_unix, event.buckets@.len() as int)
    }

    /// An engine that sells as a taker.
    pub fn new(
        clob_url: String,
        starting_bankroll: Amount,
        max_concurrent_events: usize,
        mint_amount_usdc: Amount,
        min_dump_price: Amount,
        dump_fraction: Amount,
        log_path: PathBuf,
    ) -> (r: Self)
        ensures
            r.clob_url == clob_url,
            r.account@ == Account::fresh(starting_bankroll),
            r.log.path == log_path,
            r.log.counter == 0,
            r.config == (EngineConfig {
                max_concurrent_events,
                mint_amount_usdc,
                min_dump_price,
                dump_fraction,
                taker_fee_bps: DEFAULT_TAKER_FEE_BPS,
                dump_strategy: DumpStrategy::Taker,
            }),
    {
        Self::new_with_strategy(
            clob_url,
            starting_bankroll,
            max_concurrent_events,
            mint_amount_usdc,
            min_dump_price,
            dump_fraction,
            log_path,
            DumpStrategy::default(),
        )
    }

    /// An engine that sells by the given strategy.
    pub fn new_with_strategy(
        clob_url: String,
        starting_bankroll: Amount,
        max_concurrent_events: usize,
        mint_amount_usdc: Amount,
        min_dump_price: Amount,
        dump_fraction: Amount,
        log_path: PathBuf,
        dump_strategy: DumpStrategy,
    ) -> (r: Self)
        ensures
            r.clob_url == clob_url,
            r.account@ == Account::fresh(starting_bankroll),
            r.log.path == log_path,
            r.log.counter == 0,
            r.config == (EngineConfig {
                max_concurrent_events,
                mint_amount_usdc,
                min_dump_price,
                dump_fraction,
                taker_fee_bps: DEFAULT_TAKER_FEE_BPS,
                dump_strategy,
            }),
    {
        PaperEngine {
            clob_url,
            account: PaperAccount::new(starting_bankroll),
            log: PaperLog::new(log_path),
            config: EngineConfig {
                max_concurrent_events,
                mint_amount_usdc,
                min_dump_price,
                dump_fraction,
                taker_fee_bps: DEFAULT_TAKER_FEE_BPS,
                dump_strategy,
            },
        }
    }

    /// A copy of the account.
    pub fn snapshot(&self) -> (r: PaperAccount)
        ensures
            r@ == self.account@,
    {
        self.account.clone()
    }

    /// The first half of a cycle: decides whether the event is taken on, and mints
    /// it if so. Returns the decision and the row to be logged.
    pub fn begin_event(&mut self, event: &WeatherEvent) -> (r: (Admission, LogRecord))
        requires
            old(self).config.admission(old(self).account@) == Admission::Mint ==> old(
                self,
            ).account.cum_mint_count < u64::MAX,
        ensures
            r.0 == old(self).config.admission(old(self).account@),
            r.1@ == old(self).config.admission_record(
                old(self).account@,
                event.event_slug@,
                event.buckets@.len(),
            ),
            final(self).account@ == (if r.0 == Admission::Mint {
                old(self).config.minted(old(self).account@, event.event_slug@)
            } else {
                old(self).account@
            }),
            final(self).same_but_account(*old(self)),
    {
        let need: Amount = narrow(
            2 * self.config.mint_amount_usdc as i128 + GAS_COST_SPLIT_USDC as i128
                + GAS_COST_CONVERT_USDC as i128,
        );
        let bankroll: Amount = self.account.bankroll_usdc;
        let open: usize = self.account.open_event_slugs.len();
        if bankroll < need {
            let entry: LogEvent = LogEvent::SkipBankroll { bankroll, need };
            let record: LogRecord = LogRecord {
                event_slug: event.event_slug.clone(),
                entry,
                bankroll,
            };
            return (Admission::SkipBankroll, record);
        }
        if open >= self.config.max_concurrent_events {
            let entry: LogEvent = LogEvent::SkipConcurrentCap { open };
            let record: LogRecord = LogRecord {
                event_slug: event.event_slug.clone(),
                entry,
                bankroll,
            };
            return (Admission::SkipConcurrentCap, record);
        }
        let mint_total: Amount = narrow(2 * self.config.mint_amount_usdc as i128);
        let slug: String = event.event_slug.clone();
        proof {
            lemma_texts_push(self.account.open_event_slugs@, slug);
        }
        self.account.bankroll_usdc = minus(bankroll, plus(mint_total, GAS_COST_MINT_USDC));
        self.account.cum_mint_count = self.account.cum_mint_count + 1;
        self.account.cum_mint_usdc = plus(self.account.cum_mint_usdc, mint_total);
        self.account.cum_gas_paid = plus(self.account.cum_gas_paid, GAS_COST_MINT_USDC);
        self.account.open_event_slugs.push(slug);
        let entry: LogEvent = LogEvent::Mint {
            mint_total_usdc: mint_total,
            gas_usdc: GAS_COST_MINT_USDC,
            bucket_count: event.buckets.len(),
        };
        let record: LogRecord = LogRecord {
            event_slug: event.event_slug.clone(),
            entry,
            bankroll: self.account.bankroll_usdc,
        };
        (Admission::Mint, record)
    }

    /// What is held of bucket `i`.
    fn hold(
        event: &WeatherEvent,
        i: usize,
        shares_held: Amount,
        effective_cost_per_share: Amount,
        now_unix: i64,
        resolves_at: i64,
    ) -> (r: PaperPosition)
        requires
            i < event.buckets@.len(),
        ensures
            r@ == (Position {
                event_slug: event.event_slug@,
                city: event.city@,
                resolution_date: event.resolution_date@,
                bucket_label: event.buckets@[i as int].bucket_label@,
                token_id: event.buckets@[i as int].token_id(),
                shares_held,
                effective_cost_per_share,
                minted_at: now_unix,
                resolves_at,
            }),
    {
        PaperPosition {
            event_slug: event.event_slug.clone(),
            city: event.city.clone(),
            resolution_date: event.resolution_date.clone(),
            bucket_label: event.buckets[i].bucket_label.clone(),
            token_id: event.buckets[i].yes_token_id(),
            shares_held,
            effective_cost_per_share,
            minted_at: now_unix,
            resolves_at,
        }
    }

    /// The second half of a cycle: sells or holds the shares of each bucket, given
    /// its book or nothing where the fetch failed, and books what comes of it.
    /// Returns the rows to be logged.
    #[verifier::rlimit(40)]
    pub fn finish_event(
        &mut self,
        event: &WeatherEvent,
        now_unix: i64,
        books: &Vec<Option<ClobBook>>,
    ) -> (r: Vec<LogRecord>)
        requires
            resolution_second(event.resolution_date@, now_unix) <= i64::MAX,
            books@.len() == event.buckets@.len(),
            old(self).account.cum_dump_count + event.buckets@.len() <= u64::MAX,
        ensures
            ({
                let tally = old(self).event_tally(*event, now_unix, books_of(books@));
                &&& final(self).account@ == old(self).config.credited(
                    old(self).account@,
                    tally,
                    event.buckets@.len(),
                )
                &&& records(r@) == tally.records.push(
                    old(self).config.summary_record(*event, tally, final(self).account@),
                )
            }),
            final(self).same_but_account(*old(self)),
    {
        let n: usize = event.buckets.len();
        let config: EngineConfig = self.config;
        let cost: Amount = config.mint_cost_per_share(n);
        let price_floor: Amount = max_of(config.min_dump_price, cost);
        let target_dump: Amount = times(config.mint_amount_usdc, config.dump_fraction);
        let resolves_at: i64 = parse_resolution_date(event.resolution_date.as_str(), now_unix);
        let ghost shown = books_of(books@);
        let mut proceeds: Amount = 0;
        let mut fees: Amount = 0;
        let mut skipped: u64 = 0;
        let mut legs: Vec<PaperPosition> = Vec::new();
        let mut rows: Vec<LogRecord> = Vec::new();
        let mut i: usize = 0;
        assert(positions(legs@) =~= Seq::empty());
        assert(records(rows@) =~= Seq::empty());
        while i < n
            invariant
                i <= n == event.buckets@.len() == books@.len(),
                cost == config.mint_cost(n as int),
                price_floor == config.price_floor(n as int),
                target_dump == config.target_dump(),
                resolves_at == resolution_second(event.resolution_date@, now_unix) as i64,
                shown == books_of(books@),
                skipped <= i,
                ({
                    let tally = config.tally(*event, shown, now_unix, i as int);
                    &&& proceeds == tally.proceeds
                    &&& fees == tally.fees
                    &&& skipped == tally.skipped
                    &&& positions(legs@) == tally.legs
                    &&& records(rows@) == tally.records
                }),
            decreases n - i,
        {
            let leg: LegOutcome = config.leg_outcome(&books[i], n);
            let ghost before = config.tally(*event, shown, now_unix, i as int);
            let ghost after = config.tally(*event, shown, now_unix, i + 1);
            assert(leg == config.leg(shown[i as int], n as int));
            let label: String = event.buckets[i].bucket_label.clone();
            match leg {
                LegOutcome::Unpriced => {
                    let p: PaperPosition = Self::hold(
                        event,
                        i,
                        config.mint_amount_usdc,
                        cost,
                        now_unix,
                        resolves_at,
                    );
                    proof {
                        lemma_positions_push(legs@, p);
                    }
                    legs.push(p);
                },
                LegOutcome::Held { reason } => {
                    if reason == SkipReason::AllBidsBelowFloor {
                        skipped = skipped + 1;
                    }
                    let book_bids_count: usize = match &books[i] {
                        Some(b) => b.bids.len(),
                        None => 0,
                    };
                    let entry: LogEvent = LogEvent::DumpSkipped {
                        bucket: label,
                        reason,
                        price_floor,
                        mint_cost_per_share: cost,
                        min_dump_price: config.min_dump_price,
                        book_bids_count,
                    };
                    let record: LogRecord = LogRecord {
                        event_slug: event.event_slug.clone(),
                        entry,
                        bankroll: NO_BANKROLL,
                    };
                    let p: PaperPosition = Self::hold(
                        event,
                        i,
                        config.mint_amount_usdc,
                        cost,
                        now_unix,
                        resolves_at,
                    );
                    proof {
                        lemma_positions_push(legs@, p);
                        lemma_records_push(rows@, record);
                    }
                    rows.push(record);
                    legs.push(p);
                },
                LegOutcome::Sold { fill, fee, net, residual } => {
                    proceeds = plus(proceeds, net);
                    fees = plus(fees, fee);
                    if residual > 0 {
                        let p: PaperPosition = Self::hold(
                            event,
                            i,
                            residual,
                            0,
                            now_unix,
                            resolves_at,
                        );
                        proof {
                            lemma_positions_push(legs@, p);
                        }
                        legs.push(p);
                    }
                    let entry: LogEvent = LogEvent::Dump {
                        bucket: label,
                        target_shares: target_dump,
                        filled: fill.shares_filled,
                        avg_price: fill.avg_price,
                        gross_proceeds: fill.gross_proceeds_usdc,
                        fee,
                        net_proceeds: net,
                        levels_consumed: fill.levels_consumed,
                        capped_by_depth: fill.capped_by_depth,
                        residual_shares: residual,
                    };
                    let record: LogRecord = LogRecord {
                        event_slug: event.event_slug.clone(),
                        entry,
                        bankroll: NO_BANKROLL,
                    };
                    proof {
                        lemma_records_push(rows@, record);
                    }
                    rows.push(record);
                },
            }
            assert(records(rows@) == after.records);
            assert(positions(legs@) == after.legs);
            i = i + 1;
        }
        let mint_total: Amount = narrow(2 * config.mint_amount_usdc as i128);
        let cycle_pnl: Amount = narrow(
            proceeds as i128 - mint_total as i128 - GAS_COST_MINT_USDC as i128 - fees as i128,
        );
        proof {
            assert(positions(self.account.open_positions@ + legs@) =~= positions(
                self.account.open_positions@,
            ) + positions(legs@));
        }
        self.account.bankroll_usdc = plus(self.account.bankroll_usdc, proceeds);
        self.account.cum_dump_count = self.account.cum_dump_count + n as u64;
        self.account.cum_dump_usdc = plus(self.account.cum_dump_usdc, proceeds);
        self.account.cum_taker_fees = plus(self.account.cum_taker_fees, fees);
        self.account.open_positions.append(&mut legs);
        self.account.cum_realized_pnl = plus(self.account.cum_realized_pnl, cycle_pnl);
        let entry: LogEvent = LogEvent::CycleSummary {
            mint_out: mint_total,
            gas: GAS_COST_MINT_USDC,
            dump_proceeds_gross: plus(proceeds, fees),
            dump_fees: fees,
            dump_proceeds_net: proceeds,
            cycle_pnl,
            roi_pct: self.account.roi_pct(),
            bankroll_after: self.account.bankroll_usdc,
            open_events: self.account.open_event_slugs.len(),
            tail_legs_held: self.account.open_positions.len(),
            skipped_below_cost: skipped,
            mint_cost_per_share_threshold: cost,
        };
        let record: LogRecord = LogRecord {
            event_slug: event.event_slug.clone(),
            entry,
            bankroll: self.account.bankroll_usdc,
        };
        proof {
            lemma_records_push(rows@, record);
        }
        rows.push(record);
        rows
    }
}

/// What open positions are worth at the current books.
#[derive(Debug, Clone, Copy, PartialEq, Eq, Structural)]
pub struct MarkReport {
    pub total: Amount,
    /// Positions with a positive price.
    pub priced: usize,
    /// Positions that count as nothing.
    pub unpriced: usize,
}

/// The price at which a position is marked: the midpoint, the best ask where
/// there are no bids, nothing where there are no asks or no book.
pub open spec fn mark_price(book: Option<Book>) -> Amount {
    match book {
        Some(b) => if lowest_price(b.asks) is Some {
            match midpoint(b) {
                Some(mid) => mid,
                None => 0,
            }
        } else {
            0
        },
        None => 0,
    }
}

/// What the first `i` positions are worth.
pub open spec fn marked(held: Seq<Position>, books: Seq<Option<Book>>, i: int) -> MarkReport
    decreases i,
{
    if i <= 0 {
        MarkReport { total: 0, priced: 0, unpriced: 0 }
    } else {
        let before = marked(held, books, i - 1);
        let mid = mark_price(books[i - 1]);
        if mid > 0 {
            MarkReport {
                total: sum(before.total, product(held[i - 1].shares_held, mid)),
                priced: (before.priced + 1) as usize,
                ..before
            }
        } else {
            MarkReport { unpriced: (before.unpriced + 1) as usize, ..before }
        }
    }
}

/// The price at which a position with the given book is marked.
fn price_to_mark(book: &ClobBook) -> (r: Amount)
    ensures
        r == mark_price(Some(book@)),
{
    if !has_asks(book) {
        return 0;
    }
    match book_midpoint(book) {
        Some(mid) => mid,
        None => 0,
    }
}

impl PaperEngine {
    /// A whole cycle for one event, given the book of each bucket, or nothing
    /// where the fetch failed: the admission, the mint, the sale of what can be sold,
    /// and the booking. Returns the rows to be logged.
    pub fn run_event(
        &mut self,
        event: &WeatherEvent,
        now_unix: i64,
        books: &Vec<Option<ClobBook>>,
    ) -> (r: Vec<LogRecord>)
        requires
            old(self).config.admission(old(self).account@) == Admission::Mint ==> {
                &&& resolution_second(event.resolution_date@, now_unix) <= i64::MAX
                &&& books@.len() == event.buckets@.len()
                &&& old(self).account.cum_mint_count < u64::MAX
                &&& old(self).account.cum_dump_count + event.buckets@.len() <= u64::MAX
            },
        ensures
            ({
                let config = old(self).config;
                let before = old(self).account@;
                let tally = old(self).event_tally(*event, now_unix, books_of(books@));
                let first = config.admission_record(
                    before,
                    event.event_slug@,
                    event.buckets@.len(),
                );
                &&& final(self).account@ == config.cycled(
                    before,
                    *event,
                    now_unix,
                    books_of(books@),
                )
                &&& records(r@) == (if config.admission(before) == Admission::Mint {
                    seq![first] + tally.records.push(
                        config.summary_record(*event, tally, final(self).account@),
                    )
                } else {
                    seq![first]
                })
            }),
            final(self).same_but_account(*old(self)),
    {
        let (admission, first) = self.begin_event(event);
        let mut rows: Vec<LogRecord> = Vec::new();
        proof {
            lemma_records_push(rows@, first);
            assert(records(rows@).push(first@) =~= seq![first@]);
        }
        rows.push(first);
        if admission == Admission::Mint {
            let mut rest: Vec<LogRecord> = self.finish_event(event, now_unix, books);
            proof {
                assert(records(rows@ + rest@) =~= records(rows@) + records(rest@));
            }
            rows.append(&mut rest);
        }
        rows
    }

    /// What the open positions are worth, given the current book of each, or
    /// nothing where the fetch failed. Positions are marked at the midpoint, at
    /// the best ask where there are no bids, and at nothing where there are no
    /// asks.
    pub fn mark_to_market(&self, books: &Vec<Option<ClobBook>>) -> (r: MarkReport)
        requires
            books@.len() == self.account.open_positions@.len(),
        ensures
            r == marked(
                self.account@.open_positions,
                books_of(books@),
                self.account.open_positions@.len() as int,
            ),
    {
        self.account.mark(books)
    }
}

impl PaperAccount {
    /// What the open positions of the account are worth, given the current book of
    /// each, or nothing where the fetch failed.
    pub fn mark(&self, books: &Vec<Option<ClobBook>>) -> (r: MarkReport)
        requires
            books@.len() == self.open_positions@.len(),
        ensures
            r == marked(self@.open_positions, books_of(books@), self.open_positions@.len() as int),
    {
        let ghost held = self@.open_positions;
        let ghost shown = books_of(books@);
        let n: usize = self.open_positions.len();
        let mut total: Amount = 0;
        let mut priced: usize = 0;
        let mut unpriced: usize = 0;
        let mut i: usize = 0;
        while i < n
            invariant
                i <= n == books@.len() == self.open_positions@.len(),
                held == self@.open_positions,
                shown == books_of(books@),
                priced + unpriced == i,
                marked(held, shown, i as int) == (MarkReport { total, priced, unpriced }),
            decreases n - i,
        {
            let mid: Amount = match &books[i] {
                Some(b) => price_to_mark(b),
                None => 0,
            };
            assert(mid == mark_price(shown[i as int]));
            assert(held[i as int] == self.open_positions@[i as int]@);
            if mid > 0 {
                total = plus(total, times(self.open_positions[i].shares_held, mid));
                priced = priced + 1;
            } else {
                unpriced = unpriced + 1;
            }
            i = i + 1;
        }
        MarkReport { total, priced, unpriced }
    }
}

} // verus!
