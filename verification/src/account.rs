//! The virtual account: what was minted, sold, held and settled.

use crate::amount::{Amount, ONE, difference, minus, narrow, quotient, saturate};
use vstd::prelude::*;

verus! {

/// Shares of one bucket that are held after their event was minted.
#[derive(Debug)]
pub struct PaperPosition {
    pub event_slug: String,
    pub city: String,
    pub resolution_date: String,
    pub bucket_label: String,
    pub token_id: String,
    /// Shares remaining, held as a tail lottery ticket.
    pub shares_held: Amount,
    /// Cost per share in USDC: the mint cost where nothing was sold, nothing
    /// where the tail was left over from a sale.
    pub effective_cost_per_share: Amount,
    /// Unix second at which the shares were minted.
    pub minted_at: i64,
    /// Unix second at which the event resolves.
    pub resolves_at: i64,
}

/// A position, with its texts as sequences of characters.
pub ghost struct Position {
    pub event_slug: Seq<char>,
    pub city: Seq<char>,
    pub resolution_date: Seq<char>,
    pub bucket_label: Seq<char>,
    pub token_id: Seq<char>,
    pub shares_held: Amount,
    pub effective_cost_per_share: Amount,
    pub minted_at: i64,
    pub resolves_at: i64,
}

impl View for PaperPosition {
    type V = Position;

    open spec fn view(&self) -> Position {
        Position {
            event_slug: self.event_slug@,
            city: self.city@,
            resolution_date: self.resolution_date@,
            bucket_label: self.bucket_label@,
            token_id: self.token_id@,
            shares_held: self.shares_held,
            effective_cost_per_share: self.effective_cost_per_share,
            minted_at: self.minted_at,
            resolves_at: self.resolves_at,
        }
    }
}

impl Clone for PaperPosition {
    fn clone(&self) -> (r: Self)
        ensures
            r@ == self@,
    {
        PaperPosition {
            event_slug: self.event_slug.clone(),
            city: self.city.clone(),
            resolution_date: self.resolution_date.clone(),
            bucket_label: self.bucket_label.clone(),
            token_id: self.token_id.clone(),
            shares_held: self.shares_held,
            effective_cost_per_share: self.effective_cost_per_share,
            minted_at: self.minted_at,
            resolves_at: self.resolves_at,
        }
    }
}

/// The state of the account.
#[derive(Debug)]
pub struct PaperAccount {
    pub bankroll_usdc: Amount,
    pub starting_bankroll: Amount,
    /// The events that are open; there may be no more than a given number.
    pub open_event_slugs: Vec<String>,
    pub open_positions: Vec<PaperPosition>,
    pub closed_positions: Vec<PaperPosition>,
    // Running totals, which are never reset.
    pub cum_mint_count: u64,
    pub cum_mint_usdc: Amount,
    pub cum_dump_count: u64,
    pub cum_dump_usdc: Amount,
    pub cum_gas_paid: Amount,
    pub cum_taker_fees: Amount,
    pub cum_realized_pnl: Amount,
}

/// The state of the account, with its texts as sequences of characters.
#[verifier::ext_equal]
pub ghost struct Account {
    pub bankroll_usdc: Amount,
    pub starting_bankroll: Amount,
    pub open_event_slugs: Seq<Seq<char>>,
    pub open_positions: Seq<Position>,
    pub closed_positions: Seq<Position>,
    pub cum_mint_count: u64,
    pub cum_mint_usdc: Amount,
    pub cum_dump_count: u64,
    pub cum_dump_usdc: Amount,
    pub cum_gas_paid: Amount,
    pub cum_taker_fees: Amount,
    pub cum_realized_pnl: Amount,
}

/// The texts of a list of strings.
pub open spec fn texts(v: Seq<String>) -> Seq<Seq<char>> {
    v.map_values(|s: String| s@)
}

/// A list of positions, with their texts as sequences of characters.
pub open spec fn positions(v: Seq<PaperPosition>) -> Seq<Position> {
    v.map_values(|p: PaperPosition| p@)
}

impl View for PaperAccount {
    type V = Account;

    open spec fn view(&self) -> Account {
        Account {
            bankroll_usdc: self.bankroll_usdc,
            starting_bankroll: self.starting_bankroll,
            open_event_slugs: texts(self.open_event_slugs@),
            open_positions: positions(self.open_positions@),
            closed_positions: positions(self.closed_positions@),
            cum_mint_count: self.cum_mint_count,
            cum_mint_usdc: self.cum_mint_usdc,
            cum_dump_count: self.cum_dump_count,
            cum_dump_usdc: self.cum_dump_usdc,
            cum_gas_paid: self.cum_gas_paid,
            cum_taker_fees: self.cum_taker_fees,
            cum_realized_pnl: self.cum_realized_pnl,
        }
    }
}

impl Account {
    /// A fresh account.
    pub open spec fn fresh(starting_bankroll: Amount) -> Account {
        Account {
            bankroll_usdc: starting_bankroll,
            starting_bankroll,
            open_event_slugs: Seq::empty(),
            open_positions: Seq::empty(),
            closed_positions: Seq::empty(),
            cum_mint_count: 0,
            cum_mint_usdc: 0,
            cum_dump_count: 0,
            cum_dump_usdc: 0,
            cum_gas_paid: 0,
            cum_taker_fees: 0,
            cum_realized_pnl: 0,
        }
    }

    /// What [`PaperAccount::realized_pnl`] returns.
    pub open spec fn realized(self) -> Amount {
        difference(self.bankroll_usdc, self.starting_bankroll)
    }

    /// What [`PaperAccount::net_pnl_at_mark`] returns.
    pub open spec fn net_at_mark(self, open_value: Amount) -> Amount {
        saturate(self.bankroll_usdc - self.starting_bankroll + open_value)
    }

    /// A profit in percent of the starting bankroll; nothing where that is zero.
    pub open spec fn percent(self, pnl: Amount) -> Amount {
        if self.starting_bankroll == 0 {
            0
        } else {
            saturate(quotient(100 * pnl * ONE, self.starting_bankroll as int))
        }
    }
}

impl Default for PaperAccount {
    fn default() -> (r: Self)
        ensures
            r@ == Account::fresh(0),
    {
        let r: PaperAccount = PaperAccount {
            bankroll_usdc: 0,
            starting_bankroll: 0,
            open_event_slugs: Vec::new(),
            open_positions: Vec::new(),
            closed_positions: Vec::new(),
            cum_mint_count: 0,
            cum_mint_usdc: 0,
            cum_dump_count: 0,
            cum_dump_usdc: 0,
            cum_gas_paid: 0,
            cum_taker_fees: 0,
            cum_realized_pnl: 0,
        };
        assert(r@ =~= Account::fresh(0));
        r
    }
}

/// The texts of a longer list.
pub proof fn lemma_texts_push(v: Seq<String>, s: String)
    ensures
        texts(v.push(s)) == texts(v).push(s@),
{
    assert(texts(v.push(s)) =~= texts(v).push(s@));
}

/// The positions of a longer list.
pub proof fn lemma_positions_push(v: Seq<PaperPosition>, p: PaperPosition)
    ensures
        positions(v.push(p)) == positions(v).push(p@),
{
    assert(positions(v.push(p)) =~= positions(v).push(p@));
}

/// A copy of a list of strings.
pub fn copy_texts(v: &Vec<String>) -> (r: Vec<String>)
    ensures
        texts(r@) == texts(v@),
{
    let mut r: Vec<String> = Vec::new();
    let mut i: usize = 0;
    while i < v.len()
        invariant
            i <= v@.len(),
            texts(r@) == texts(v@).take(i as int),
        decreases v@.len() - i,
    {
        let item = v[i].clone();
        proof {
            lemma_texts_push(r@, item);
            assert(texts(v@).take(i + 1) =~= texts(v@).take(i as int).push(v@[i as int]@));
        }
        r.push(item);
        i = i + 1;
    }
    assert(texts(v@).take(i as int) =~= texts(v@));
    r
}

/// A copy of a list of positions.
pub fn copy_positions(v: &Vec<PaperPosition>) -> (r: Vec<PaperPosition>)
    ensures
        positions(r@) == positions(v@),
{
    let mut r: Vec<PaperPosition> = Vec::new();
    let mut i: usize = 0;
    while i < v.len()
        invariant
            i <= v@.len(),
            positions(r@) == positions(v@).take(i as int),
        decreases v@.len() - i,
    {
        let item = v[i].clone();
        proof {
            lemma_positions_push(r@, item);
            assert(positions(v@).take(i + 1) =~= positions(v@).take(i as int).push(v@[i as int]@));
        }
        r.push(item);
        i = i + 1;
    }
    assert(positions(v@).take(i as int) =~= positions(v@));
    r
}

impl Clone for PaperAccount {
    fn clone(&self) -> (r: Self)
        ensures
            r@ == self@,
    {
        PaperAccount {
            bankroll_usdc: self.bankroll_usdc,
            starting_bankroll: self.starting_bankroll,
            open_event_slugs: copy_texts(&self.open_event_slugs),
            open_positions: copy_positions(&self.open_positions),
            closed_positions: copy_positions(&self.closed_positions),
            cum_mint_count: self.cum_mint_count,
            cum_mint_usdc: self.cum_mint_usdc,
            cum_dump_count: self.cum_dump_count,
            cum_dump_usdc: self.cum_dump_usdc,
            cum_gas_paid: self.cum_gas_paid,
            cum_taker_fees: self.cum_taker_fees,
            cum_realized_pnl: self.cum_realized_pnl,
        }
    }
}

impl PaperAccount {
    /// An account that holds the starting bankroll and nothing else.
    pub fn new(starting_bankroll: Amount) -> (r: Self)
        ensures
            r@ == Account::fresh(starting_bankroll),
    {
        let mut r: PaperAccount = PaperAccount::default();
        r.bankroll_usdc = starting_bankroll;
        r.starting_bankroll = starting_bankroll;
        r
    }

    /// The profit with open positions counted as nothing.
    pub fn net_pnl(&self) -> (r: Amount)
        ensures
            r == self@.net_at_mark(0),
            r == self@.realized(),
    {
        self.net_pnl_at_mark(0)
    }

    /// The realized profit, with no value given to what is still held.
    pub fn realized_pnl(&self) -> (r: Amount)
        ensures
            r == self@.realized(),
    {
        minus(self.bankroll_usdc, self.starting_bankroll)
    }

    /// The realized profit plus the value of the open positions.
    pub fn net_pnl_at_mark(&self, open_value: Amount) -> (r: Amount)
        ensures
            r == self@.net_at_mark(open_value),
    {
        narrow(
            self.bankroll_usdc as i128 - self.starting_bankroll as i128 + open_value as i128,
        )
    }

    /// The realized profit in percent of the starting bankroll.
    pub fn roi_pct(&self) -> (r: Amount)
        ensures
            r == self@.percent(self@.realized()),
    {
        self.percent_of(self.realized_pnl())
    }

    /// The profit at mark in percent of the starting bankroll.
    pub fn roi_pct_at_mark(&self, open_value: Amount) -> (r: Amount)
        ensures
            r == self@.percent(self@.net_at_mark(open_value)),
    {
        self.percent_of(self.net_pnl_at_mark(open_value))
    }

    /// A profit in percent of the starting bankroll.
    fn percent_of(&self, pnl: Amount) -> (r: Amount)
        ensures
            r == self@.percent(pnl),
    {
        if self.starting_bankroll == 0 {
            return 0;
        }
        proof {
            let p = 100 * pnl;
            assert(-0x4000_0000_0000_0000_0000_0000_0000_0000 <= p * ONE
                <= 0x4000_0000_0000_0000_0000_0000_0000_0000) by (nonlinear_arith)
                requires
                    100 * i64::MIN <= p <= 100 * i64::MAX,
                    ONE == 1_000_000_000,
            ;
            crate::amount::lemma_quotient_bound(p * ONE, self.starting_bankroll as int);
        }
        narrow(100 * pnl as i128 * ONE as i128 / self.starting_bankroll as i128)
    }
}

} // verus!
