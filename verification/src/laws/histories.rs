//! Any number of cycles and settlement rounds, one after the other.

use super::cycles::{
    balanced, in_range, law_cycle_keeps_balance, law_cycle_keeps_ledger,
    law_cycle_keeps_positions_open, law_mint_is_covered, law_mint_keeps_cap, ledger,
    lemma_sale_not_negative, positions_are_open, shares_not_negative,
};
use super::settlements::{
    law_round_is_bounded, law_round_keeps_positions_open, law_round_returns_what_it_credits,
};
use crate::account::Account;
use crate::amount::Amount;
use crate::book::Book;
use crate::engine::{Admission, EngineConfig};
use crate::event::WeatherEvent;
use crate::settle::{Reply, round};
use vstd::prelude::*;

verus! {

/// One thing that is done to an account.
pub ghost enum Step {
    /// A cycle for an event, with the books of its buckets.
    Cycle { event: WeatherEvent, now_unix: i64, books: Seq<Option<Book>> },
    /// A round of settlements, with the answers of the market service.
    Round { replies: Seq<Reply> },
}

/// The account after one step.
pub open spec fn stepped(config: EngineConfig, account: Account, step: Step) -> Account {
    match step {
        Step::Cycle { event, now_unix, books } => config.cycled(account, event, now_unix, books),
        Step::Round { replies } => round(account, replies, replies.len() as int).account,
    }
}

/// The account after the first `i` steps.
pub open spec fn history(config: EngineConfig, start: Account, steps: Seq<Step>, i: int) -> Account
    decreases i,
{
    if i <= 0 {
        start
    } else {
        stepped(config, history(config, start, steps, i - 1), steps[i - 1])
    }
}

/// Whether the counters have room for a step.
pub open spec fn has_room(config: EngineConfig, account: Account, step: Step) -> bool {
    match step {
        Step::Cycle { event, .. } => config.admission(account) == Admission::Mint ==> {
            &&& account.cum_mint_count < u64::MAX
            &&& account.cum_dump_count + event.buckets@.len() <= u64::MAX
        },
        Step::Round { .. } => true,
    }
}

/// Whether an account is sound: it has no debt, no more events are open than may
/// be, every open position belongs to one of them, and none owes shares.
pub open spec fn sound(config: EngineConfig, account: Account) -> bool {
    &&& account.bankroll_usdc >= 0
    &&& account.open_event_slugs.len() <= config.max_concurrent_events
    &&& positions_are_open(account)
    &&& shares_not_negative(account.open_positions)
}

/// Whether no running total of `b` is below that of `a`, and the start is the same.
pub open spec fn totals_grow(a: Account, b: Account) -> bool {
    &&& a.starting_bankroll == b.starting_bankroll
    &&& a.cum_mint_count <= b.cum_mint_count
    &&& a.cum_mint_usdc <= b.cum_mint_usdc
    &&& a.cum_dump_count <= b.cum_dump_count
    &&& a.cum_dump_usdc <= b.cum_dump_usdc
    &&& a.cum_gas_paid <= b.cum_gas_paid
    &&& a.cum_taker_fees <= b.cum_taker_fees
}

/// The buckets of an event bring nothing negative, and leave no position that owes
/// shares.
proof fn lemma_tally_not_negative(
    config: EngineConfig,
    event: WeatherEvent,
    books: Seq<Option<Book>>,
    now_unix: i64,
    i: int,
)
    requires
        config.mint_amount_usdc >= 0,
    ensures
        ({
            let tally = config.tally(event, books, now_unix, i);
            &&& config.taker_fee_bps <= 10_000 ==> tally.proceeds >= 0
            &&& tally.fees >= 0
            &&& shares_not_negative(tally.legs)
        }),
    decreases i,
{
    if i > 0 {
        lemma_tally_not_negative(config, event, books, now_unix, i - 1);
        lemma_sale_not_negative(config, books[i - 1], event.buckets@.len() as int);
    }
}

/// A cycle leaves no position that owes shares.
proof fn lemma_cycle_shares(
    config: EngineConfig,
    account: Account,
    event: WeatherEvent,
    books: Seq<Option<Book>>,
    now_unix: i64,
)
    requires
        config.mint_amount_usdc >= 0,
        shares_not_negative(account.open_positions),
    ensures
        shares_not_negative(config.cycled(account, event, now_unix, books).open_positions),
{
    let tally = config.tally(event, books, now_unix, event.buckets@.len() as int);
    lemma_tally_not_negative(config, event, books, now_unix, event.buckets@.len() as int);
    let after = config.cycled(account, event, now_unix, books).open_positions;
    let k = account.open_positions.len() as int;
    assert forall|i: int| 0 <= i < after.len() implies (#[trigger] after[i]).shares_held >= 0 by {
        if i < k {
            assert(after[i] == account.open_positions[i]);
        } else {
            assert(after[i] == tally.legs[i - k]);
        }
    }
}

/// A step keeps an account sound, and takes nothing from a running total.
pub proof fn law_step_keeps_sound(config: EngineConfig, account: Account, step: Step)
    requires
        sound(config, account),
        has_room(config, account, step),
        config.mint_amount_usdc >= 0,
        config.taker_fee_bps <= 10_000,
    ensures
        sound(config, stepped(config, account, step)),
        totals_grow(account, stepped(config, account, step)),
{
    match step {
        Step::Cycle { event, now_unix, books } => {
            lemma_cycle_shares(config, account, event, books, now_unix);
            if config.admission(account) == Admission::Mint {
                lemma_tally_not_negative(
                    config,
                    event,
                    books,
                    now_unix,
                    event.buckets@.len() as int,
                );
                law_mint_is_covered(config, account, event.event_slug@);
                law_mint_keeps_cap(config, account, event.event_slug@);
                law_cycle_keeps_positions_open(config, account, event, books, now_unix);
            }
        },
        Step::Round { replies } => {
            law_round_is_bounded(account, replies, replies.len() as int);
            law_round_keeps_positions_open(account, replies, replies.len() as int);
        },
    }
}

/// From a fresh account on, whatever cycles and rounds follow: there is never a
/// debt, never more events are open than may be, every open position belongs to an
/// open event, and no position owes shares.
pub proof fn law_account_stays_sound(
    config: EngineConfig,
    starting_bankroll: Amount,
    steps: Seq<Step>,
    i: int,
)
    requires
        starting_bankroll >= 0,
        config.mint_amount_usdc >= 0,
        config.taker_fee_bps <= 10_000,
        0 <= i <= steps.len(),
        forall|k: int|
            0 <= k < i ==> has_room(
                config,
                history(config, Account::fresh(starting_bankroll), steps, k),
                #[trigger] steps[k],
            ),
    ensures
        sound(config, history(config, Account::fresh(starting_bankroll), steps, i)),
    decreases i,
{
    if i > 0 {
        law_account_stays_sound(config, starting_bankroll, steps, i - 1);
        let before = history(config, Account::fresh(starting_bankroll), steps, i - 1);
        assert(has_room(config, before, steps[i - 1]));
        law_step_keeps_sound(config, before, steps[i - 1]);
    }
}

/// From a fresh account on, whatever cycles and rounds follow, no running total
/// ever falls.
pub proof fn law_totals_never_fall(
    config: EngineConfig,
    starting_bankroll: Amount,
    steps: Seq<Step>,
    j: int,
    i: int,
)
    requires
        starting_bankroll >= 0,
        config.mint_amount_usdc >= 0,
        config.taker_fee_bps <= 10_000,
        0 <= j <= i <= steps.len(),
        forall|k: int|
            0 <= k < i ==> has_room(
                config,
                history(config, Account::fresh(starting_bankroll), steps, k),
                #[trigger] steps[k],
            ),
    ensures
        totals_grow(
            history(config, Account::fresh(starting_bankroll), steps, j),
            history(config, Account::fresh(starting_bankroll), steps, i),
        ),
    decreases i,
{
    if j < i {
        law_totals_never_fall(config, starting_bankroll, steps, j, i - 1);
        law_account_stays_sound(config, starting_bankroll, steps, i - 1);
        let before = history(config, Account::fresh(starting_bankroll), steps, i - 1);
        assert(has_room(config, before, steps[i - 1]));
        law_step_keeps_sound(config, before, steps[i - 1]);
    }
}

/// What a step returns as credited.
pub open spec fn step_credit(account: Account, step: Step) -> int {
    match step {
        Step::Cycle { .. } => 0,
        Step::Round { replies } => round(
            account,
            replies,
            replies.len() as int,
        ).total_credit as int,
    }
}

/// Whether a step leads from figures within the range of amounts to such figures,
/// and none stands at the end of the range.
pub open spec fn stays_in_range(config: EngineConfig, account: Account, step: Step) -> bool {
    &&& in_range(account)
    &&& in_range(stepped(config, account, step))
    &&& step_credit(account, step) < i64::MAX
}

/// What the rounds among the first `i` steps return as credited.
pub open spec fn credits(config: EngineConfig, start: Account, steps: Seq<Step>, i: int) -> int
    decreases i,
{
    if i <= 0 {
        0
    } else {
        credits(config, start, steps, i - 1) + step_credit(
            history(config, start, steps, i - 1),
            steps[i - 1],
        )
    }
}

/// One step keeps the books.
proof fn lemma_step_keeps_ledger(config: EngineConfig, account: Account, step: Step)
    requires
        config.mint_amount_usdc >= 0,
        shares_not_negative(account.open_positions),
        stays_in_range(config, account, step),
    ensures
        ({
            let after = stepped(config, account, step);
            &&& shares_not_negative(after.open_positions)
            &&& ledger(after) == ledger(account) + step_credit(account, step)
            &&& after.starting_bankroll == account.starting_bankroll
            &&& config.taker_fee_bps == 0 && balanced(account) ==> balanced(after)
        }),
{
    match step {
        Step::Cycle { event, now_unix, books } => {
            lemma_cycle_shares(config, account, event, books, now_unix);
            law_cycle_keeps_ledger(config, account, event, books, now_unix);
            if config.taker_fee_bps == 0 && balanced(account) {
                law_cycle_keeps_balance(config, account, event, books, now_unix);
            }
        },
        Step::Round { replies } => {
            law_round_is_bounded(account, replies, replies.len() as int);
            law_round_returns_what_it_credits(account, replies, replies.len() as int);
        },
    }
}

/// The books are kept over any number of cycles and rounds, as long as no figure
/// reaches the end of the range of amounts: the bankroll is the
/// start, less what was minted and paid for gas, plus what was sold and what all
/// rounds credited. Without a taker fee the realized profit is what the bankroll has
/// gained.
pub proof fn law_books_are_kept(
    config: EngineConfig,
    starting_bankroll: Amount,
    steps: Seq<Step>,
    i: int,
)
    requires
        config.mint_amount_usdc >= 0,
        0 <= i <= steps.len(),
        forall|k: int|
            0 <= k < i ==> stays_in_range(
                config,
                history(config, Account::fresh(starting_bankroll), steps, k),
                #[trigger] steps[k],
            ),
    ensures
        ({
            let fresh = Account::fresh(starting_bankroll);
            let a = history(config, fresh, steps, i);
            &&& a.starting_bankroll == starting_bankroll
            &&& a.bankroll_usdc == starting_bankroll - a.cum_mint_usdc - a.cum_gas_paid
                + a.cum_dump_usdc + credits(config, fresh, steps, i)
            &&& config.taker_fee_bps == 0 ==> {
                &&& a.cum_realized_pnl == a.bankroll_usdc - starting_bankroll
                &&& a.cum_realized_pnl == a.realized()
            }
            &&& shares_not_negative(a.open_positions)
        }),
    decreases i,
{
    if i > 0 {
        law_books_are_kept(config, starting_bankroll, steps, i - 1);
        let before = history(config, Account::fresh(starting_bankroll), steps, i - 1);
        assert(stays_in_range(config, before, steps[i - 1]));
        lemma_step_keeps_ledger(config, before, steps[i - 1]);
    }
}

} // verus!
