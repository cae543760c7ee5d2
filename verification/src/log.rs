//! The structured log: what is recorded, and how a row is written.
//!
//! A row has five columns between bars: the Unix second, the slug of the event,
//! the kind, the detail as JSON and the bankroll after it.

use crate::account::texts;
use crate::amount::Amount;
use crate::text::{decimal, digit_for, digit_of, push_decimal};
use std::path::PathBuf;
use vstd::prelude::*;

verus! {

/// `std::path::PathBuf`, which the log carries without looking into it.
#[verifier::external_type_specification]
#[verifier::external_body]
pub struct ExPathBuf(PathBuf);

/// `From::from` of a type for itself: returns its argument unchanged.
pub assume_specification<T>[ <T as From<T>>::from ](t: T) -> (r: T)
    ensures
        r == t,
;

/// A file of rows, and how many were appended to it.
pub struct PaperLog {
    pub path: PathBuf,
    pub counter: u64,
}

/// Why a bucket was not sold.
#[derive(Debug, Clone, Copy, PartialEq, Eq, Structural)]
pub enum SkipReason {
    EmptyBook,
    AllBidsBelowFloor,
}

/// What a row records.
#[derive(Debug)]
pub enum LogEvent {
    SkipBankroll { bankroll: Amount, need: Amount },
    SkipConcurrentCap { open: usize },
    Mint { mint_total_usdc: Amount, gas_usdc: Amount, bucket_count: usize },
    DumpSkipped {
        bucket: String,
        reason: SkipReason,
        price_floor: Amount,
        mint_cost_per_share: Amount,
        min_dump_price: Amount,
        book_bids_count: usize,
    },
    Dump {
        bucket: String,
        target_shares: Amount,
        filled: Amount,
        avg_price: Amount,
        gross_proceeds: Amount,
        fee: Amount,
        net_proceeds: Amount,
        levels_consumed: usize,
        capped_by_depth: bool,
        residual_shares: Amount,
    },
    CycleSummary {
        mint_out: Amount,
        gas: Amount,
        dump_proceeds_gross: Amount,
        dump_fees: Amount,
        dump_proceeds_net: Amount,
        cycle_pnl: Amount,
        roi_pct: Amount,
        bankroll_after: Amount,
        open_events: usize,
        tail_legs_held: usize,
        skipped_below_cost: u64,
        mint_cost_per_share_threshold: Amount,
    },
    ResolutionSettled { winners: Vec<String>, credit_usdc: Amount },
}

/// A row before it is written: its event, what it records, and the bankroll
/// after it, which is -1 where the row does not tell.
#[derive(Debug)]
pub struct LogRecord {
    pub event_slug: String,
    pub entry: LogEvent,
    pub bankroll: Amount,
}

/// What a row records, with its texts as sequences of characters.
pub ghost enum Entry {
    SkipBankroll { bankroll: Amount, need: Amount },
    SkipConcurrentCap { open: nat },
    Mint { mint_total_usdc: Amount, gas_usdc: Amount, bucket_count: nat },
    DumpSkipped {
        bucket: Seq<char>,
        reason: SkipReason,
        price_floor: Amount,
        mint_cost_per_share: Amount,
        min_dump_price: Amount,
        book_bids_count: nat,
    },
    Dump {
        bucket: Seq<char>,
        target_shares: Amount,
        filled: Amount,
        avg_price: Amount,
        gross_proceeds: Amount,
        fee: Amount,
        net_proceeds: Amount,
        levels_consumed: nat,
        capped_by_depth: bool,
        residual_shares: Amount,
    },
    CycleSummary {
        mint_out: Amount,
        gas: Amount,
        dump_proceeds_gross: Amount,
        dump_fees: Amount,
        dump_proceeds_net: Amount,
        cycle_pnl: Amount,
        roi_pct: Amount,
        bankroll_after: Amount,
        open_events: nat,
        tail_legs_held: nat,
        skipped_below_cost: nat,
        mint_cost_per_share_threshold: Amount,
    },
    ResolutionSettled { winners: Seq<Seq<char>>, credit_usdc: Amount },
}

/// A row before it is written, with its texts as sequences of characters.
pub ghost struct Record {
    pub event_slug: Seq<char>,
    pub entry: Entry,
    pub bankroll: Amount,
}

impl View for LogEvent {
    type V = Entry;

    open spec fn view(&self) -> Entry {
        match *self {
            LogEvent::SkipBankroll { bankroll, need } => Entry::SkipBankroll { bankroll, need },
            LogEvent::SkipConcurrentCap { open } => Entry::SkipConcurrentCap { open: open as nat },
            LogEvent::Mint { mint_total_usdc, gas_usdc, bucket_count } => Entry::Mint {
                mint_total_usdc,
                gas_usdc,
                bucket_count: bucket_count as nat,
            },
            LogEvent::DumpSkipped {
                bucket,
                reason,
                price_floor,
                mint_cost_per_share,
                min_dump_price,
                book_bids_count,
            } => Entry::DumpSkipped {
                bucket: bucket@,
                reason,
                price_floor,
                mint_cost_per_share,
                min_dump_price,
                book_bids_count: book_bids_count as nat,
            },
            LogEvent::Dump {
                bucket,
                target_shares,
                filled,
                avg_price,
                gross_proceeds,
                fee,
                net_proceeds,
                levels_consumed,
                capped_by_depth,
                residual_shares,
            } => Entry::Dump {
                bucket: bucket@,
                target_shares,
                filled,
                avg_price,
                gross_proceeds,
                fee,
                net_proceeds,
                levels_consumed: levels_consumed as nat,
                capped_by_depth,
                residual_shares,
            },
            LogEvent::CycleSummary {
                mint_out,
                gas,
                dump_proceeds_gross,
                dump_fees,
                dump_proceeds_net,
                cycle_pnl,
                roi_pct,
                bankroll_after,
                open_events,
                tail_legs_held,
                skipped_below_cost,
                mint_cost_per_share_threshold,
            } => Entry::CycleSummary {
                mint_out,
                gas,
                dump_proceeds_gross,
                dump_fees,
                dump_proceeds_net,
                cycle_pnl,
                roi_pct,
                bankroll_after,
                open_events: open_events as nat,
                tail_legs_held: tail_legs_held as nat,
                skipped_below_cost: skipped_below_cost as nat,
                mint_cost_per_share_threshold,
            },
            LogEvent::ResolutionSettled { winners, credit_usdc } => Entry::ResolutionSettled {
                winners: texts(winners@),
                credit_usdc,
            },
        }
    }
}

impl View for LogRecord {
    type V = Record;

    open spec fn view(&self) -> Record {
        Record { event_slug: self.event_slug@, entry: self.entry@, bankroll: self.bankroll }
    }
}

/// A list of rows, with their texts as sequences of characters.
pub open spec fn records(v: Seq<LogRecord>) -> Seq<Record> {
    v.map_values(|r: LogRecord| r@)
}

/// The rows of a longer list.
pub proof fn lemma_records_push(v: Seq<LogRecord>, r: LogRecord)
    ensures
        records(v.push(r)) == records(v).push(r@),
{
    assert(records(v.push(r)) =~= records(v).push(r@));
}

/// The name that the log has for what a row records.
pub open spec fn kind_name(entry: Entry) -> Seq<char> {
    match entry {
        Entry::SkipBankroll { .. } => "skip_bankroll"@,
        Entry::SkipConcurrentCap { .. } => "skip_concurrent_cap"@,
        Entry::Mint { .. } => "mint"@,
        Entry::DumpSkipped { .. } => "dump_skipped"@,
        Entry::Dump { .. } => "dump"@,
        Entry::CycleSummary { .. } => "cycle_summary"@,
        Entry::ResolutionSettled { .. } => "resolution_settled"@,
    }
}

/// The name that the log has for a reason.
pub open spec fn reason_name(reason: SkipReason) -> Seq<char> {
    match reason {
        SkipReason::EmptyBook => "empty_book"@,
        SkipReason::AllBidsBelowFloor => "all_bids_below_floor"@,
    }
}

impl SkipReason {
    /// The name that the log has for the reason.
    pub fn name(&self) -> (r: &'static str)
        ensures
            r@ == reason_name(*self),
    {
        match self {
            SkipReason::EmptyBook => "empty_book",
            SkipReason::AllBidsBelowFloor => "all_bids_below_floor",
        }
    }
}

impl LogEvent {
    /// The name that the log has for what the row records.
    pub fn kind(&self) -> (r: &'static str)
        ensures
            r@ == kind_name(self@),
    {
        match self {
            LogEvent::SkipBankroll { .. } => "skip_bankroll",
            LogEvent::SkipConcurrentCap { .. } => "skip_concurrent_cap",
            LogEvent::Mint { .. } => "mint",
            LogEvent::DumpSkipped { .. } => "dump_skipped",
            LogEvent::Dump { .. } => "dump",
            LogEvent::CycleSummary { .. } => "cycle_summary",
            LogEvent::ResolutionSettled { .. } => "resolution_settled",
        }
    }
}

/// An integer in decimal, with a minus sign where it is negative.
pub open spec fn signed_decimal(n: int) -> Seq<char> {
    if n < 0 {
        seq!['-'] + decimal((-n) as nat)
    } else {
        decimal(n as nat)
    }
}

/// `n` divided by `d`, rounded to the nearest integer, to the even one of two.
pub open spec fn rounded(n: int, d: int) -> int
    recommends
        n >= 0,
        d > 0,
{
    let q = n / d;
    let r = n % d;
    if 2 * r > d || 2 * r == d && q % 2 == 1 {
        q + 1
    } else {
        q
    }
}

/// The last four digits of a number, with leading zeros.
pub open spec fn four_digits(n: int) -> Seq<char> {
    seq![
        digit_of(n / 1000 % 10),
        digit_of(n / 100 % 10),
        digit_of(n / 10 % 10),
        digit_of(n % 10),
    ]
}

/// An amount in decimal, with four places.
pub open spec fn four_places(x: Amount) -> Seq<char> {
    let sign: Seq<char> = if x < 0 {
        seq!['-']
    } else {
        Seq::empty()
    };
    let magnitude = if x < 0 {
        -x
    } else {
        x as int
    };
    let n = rounded(magnitude, 100_000);
    sign + decimal((n / 10_000) as nat) + seq!['.'] + four_digits(n % 10_000)
}

/// Appends an integer in decimal.
fn push_signed(s: &mut String, n: i64)
    ensures
        final(s)@ == old(s)@ + signed_decimal(n as int),
{
    if n < 0 {
        s.push('-');
        let magnitude: u64 = (-(n as i128)) as u64;
        push_decimal(s, magnitude);
    } else {
        push_decimal(s, n as u64);
    }
    assert(s@ =~= old(s)@ + signed_decimal(n as int));
}

/// Appends an amount in decimal, with four places.
fn push_four_places(s: &mut String, x: Amount)
    ensures
        final(s)@ == old(s)@ + four_places(x),
{
    if x < 0 {
        s.push('-');
    }
    let magnitude: u64 = if x < 0 {
        (-(x as i128)) as u64
    } else {
        x as u64
    };
    let q: u64 = magnitude / 100_000;
    let r: u64 = magnitude % 100_000;
    let n: u64 = if 2 * r > 100_000 || 2 * r == 100_000 && q % 2 == 1 {
        q + 1
    } else {
        q
    };
    push_decimal(s, n / 10_000);
    s.push('.');
    let f: u64 = n % 10_000;
    s.push(digit_for((f / 1000 % 10) as u8));
    s.push(digit_for((f / 100 % 10) as u8));
    s.push(digit_for((f / 10 % 10) as u8));
    s.push(digit_for((f % 10) as u8));
    assert(s@ =~= old(s)@ + four_places(x));
}

/// The row with the given columns.
pub open spec fn row(
    now_unix: i64,
    event_slug: Seq<char>,
    kind: Seq<char>,
    detail: Seq<char>,
    bankroll: Amount,
) -> Seq<char> {
    signed_decimal(now_unix as int) + seq!['|'] + event_slug + seq!['|'] + kind + seq!['|'] + detail
        + seq!['|'] + four_places(bankroll) + seq!['\n']
}

impl PaperLog {
    /// A log without rows.
    pub fn new(path: impl Into<PathBuf>) -> (r: Self)
        ensures
            call_ensures(Into::<PathBuf>::into, (path,), r.path),
            r.counter == 0,
    {
        Self { path: path.into(), counter: 0 }
    }

    /// The next row, to be appended to the file. The count of rows starts again at
    /// 0 after the largest.
    pub fn append(
        &mut self,
        now_unix: i64,
        event_slug: &str,
        kind: &str,
        detail: &str,
        bankroll: Amount,
    ) -> (r: String)
        ensures
            r@ == row(now_unix, event_slug@, kind@, detail@, bankroll),
            final(self).counter == (if old(self).counter == u64::MAX {
                0
            } else {
                (old(self).counter + 1) as u64
            }),
            final(self).path == old(self).path,
    {
        let mut s: String = String::new();
        push_signed(&mut s, now_unix);
        s.push('|');
        s.append(event_slug);
        s.push('|');
        s.append(kind);
        s.push('|');
        s.append(detail);
        s.push('|');
        push_four_places(&mut s, bankroll);
        s.push('\n');
        assert(s@ =~= row(now_unix, event_slug@, kind@, detail@, bankroll));
        self.counter = if self.counter == u64::MAX {
            0
        } else {
            self.counter + 1
        };
        s
    }
}

} // verus!
