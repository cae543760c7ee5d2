//! Settlement: paying out the positions of events that have resolved.

use crate::account::{
    Account, PaperPosition, Position, lemma_positions_push, lemma_texts_push,
    positions, texts,
};
use crate::amount::{Amount, ONE, plus, product, sum, times};
use crate::dates::{rfc3339_or, rfc3339_second, second_or};
use crate::decimal::{Reading, read_decimal, reading};
use crate::engine::{NO_BANKROLL, PaperEngine};
use crate::log::{Entry, LogEvent, LogRecord, Record, lemma_records_push, records};
use crate::text::{joined, same_text};
use vstd::prelude::*;

verus! {

/// Half of [`ONE`].
pub const HALF: Amount = 500_000_000;

/// The outcome prices of one bucket: of YES first, then of NO.
#[derive(Debug)]
pub struct MarketQuote {
    pub label: String,
    pub prices: Vec<String>,
}

/// What the market service says of one bucket. The outcome prices are a list of
/// strings, written as JSON.
#[derive(Debug)]
pub struct MarketStatus {
    pub label: String,
    pub outcome_prices: Option<String>,
}

/// What the market service says of an event.
#[derive(Debug)]
pub struct EventStatus {
    pub closed: Option<bool>,
    pub end_date: Option<String>,
    pub markets: Option<Vec<MarketStatus>>,
}

/// The answer of the market service on one event, nothing where there was none,
/// and the Unix second at which it came.
#[derive(Debug)]
pub struct Reply {
    pub event_slug: String,
    pub status: Option<EventStatus>,
    pub now_unix: i64,
}

/// What a settlement came to.
#[derive(Debug)]
pub struct Settlement {
    pub credit: Amount,
    pub positions_settled: usize,
    pub record: LogRecord,
}

/// A bucket with its outcome prices, as sequences of characters.
pub ghost struct Quote {
    pub label: Seq<char>,
    pub prices: Seq<Seq<char>>,
}

impl View for MarketQuote {
    type V = Quote;

    open spec fn view(&self) -> Quote {
        Quote { label: self.label@, prices: texts(self.prices@) }
    }
}

/// A list of quotes, with their texts as sequences of characters.
pub open spec fn quotes(v: Seq<MarketQuote>) -> Seq<Quote> {
    v.map_values(|q: MarketQuote| q@)
}

/// Whether a number is below zero.
pub open spec fn is_negative(r: Reading) -> bool {
    r.negative && (r.amount != 0 || !r.exact)
}

/// The YES price of a bucket, where it has one that is not below zero.
pub open spec fn yes_price(q: Quote) -> Option<Reading> {
    if q.prices.len() == 0 {
        None
    } else {
        match reading(q.prices[0]) {
            Some(r) => if is_negative(r) {
                None
            } else {
                Some(r)
            },
            None => None,
        }
    }
}

/// Whether the oracle has reported on the bucket: its price is 0 or 1 exactly.
pub open spec fn is_reported(q: Quote) -> bool {
    match yes_price(q) {
        Some(r) => r.exact && (r.amount == 0 || r.amount == ONE),
        None => false,
    }
}

/// Whether the bucket has won: its price is above one half.
pub open spec fn is_winner(q: Quote) -> bool {
    match yes_price(q) {
        Some(r) => r.amount > HALF || r.amount == HALF && !r.exact,
        None => false,
    }
}

/// Whether the oracle has reported on any bucket of the event.
pub open spec fn any_reported(qs: Seq<Quote>) -> bool {
    exists|i: int| 0 <= i < qs.len() && is_reported(#[trigger] qs[i])
}

/// The labels of the buckets that have won, each once, in the order of the list.
pub open spec fn winners(qs: Seq<Quote>) -> Seq<Seq<char>>
    decreases qs.len(),
{
    if qs.len() == 0 {
        Seq::empty()
    } else {
        let before = winners(qs.drop_last());
        if is_winner(qs.last()) && !before.contains(qs.last().label) {
            before.push(qs.last().label)
        } else {
            before
        }
    }
}

/// What a share pays at a YES price: the price, but no more than one.
pub open spec fn share_value(r: Reading) -> Amount {
    if r.amount > ONE {
        ONE
    } else {
        r.amount
    }
}

/// What a share of the bucket with the label pays: what its YES price pays, the
/// most of it where several buckets have the label, nothing where none has.
pub open spec fn payout(qs: Seq<Quote>, label: Seq<char>) -> Amount
    decreases qs.len(),
{
    if qs.len() == 0 {
        0
    } else {
        let before = payout(qs.drop_last(), label);
        match yes_price(qs.last()) {
            Some(r) => if qs.last().label == label && share_value(r) > before {
                share_value(r)
            } else {
                before
            },
            None => before,
        }
    }
}

/// What the positions pay together.
pub open spec fn credit(ps: Seq<Position>, qs: Seq<Quote>) -> Amount
    decreases ps.len(),
{
    if ps.len() == 0 {
        0
    } else {
        sum(
            credit(ps.drop_last(), qs),
            product(ps.last().shares_held, payout(qs, ps.last().bucket_label)),
        )
    }
}

/// The positions of an event, in their order.
pub open spec fn of_event(ps: Seq<Position>, slug: Seq<char>) -> Seq<Position>
    decreases ps.len(),
{
    if ps.len() == 0 {
        ps
    } else if ps.last().event_slug == slug {
        of_event(ps.drop_last(), slug).push(ps.last())
    } else {
        of_event(ps.drop_last(), slug)
    }
}

/// Whether a position of the event is open.
pub open spec fn has_position(account: Account, slug: Seq<char>) -> bool {
    exists|i: int|
        0 <= i < account.open_positions.len() && (#[trigger] account.open_positions[i]).event_slug
            == slug
}

/// The positions of other events, in their order.
pub open spec fn of_others(ps: Seq<Position>, slug: Seq<char>) -> Seq<Position>
    decreases ps.len(),
{
    if ps.len() == 0 {
        ps
    } else if ps.last().event_slug == slug {
        of_others(ps.drop_last(), slug)
    } else {
        of_others(ps.drop_last(), slug).push(ps.last())
    }
}

/// A list of slugs without the given one.
pub open spec fn without(slugs: Seq<Seq<char>>, slug: Seq<char>) -> Seq<Seq<char>>
    decreases slugs.len(),
{
    if slugs.len() == 0 {
        slugs
    } else if slugs.last() == slug {
        without(slugs.drop_last(), slug)
    } else {
        without(slugs.drop_last(), slug).push(slugs.last())
    }
}

/// The account after an event was settled.
pub open spec fn settled(account: Account, slug: Seq<char>, qs: Seq<Quote>) -> Account {
    let closing = of_event(account.open_positions, slug);
    Account {
        bankroll_usdc: sum(account.bankroll_usdc, credit(closing, qs)),
        cum_realized_pnl: sum(account.cum_realized_pnl, credit(closing, qs)),
        open_positions: of_others(account.open_positions, slug),
        closed_positions: account.closed_positions + closing,
        open_event_slugs: without(account.open_event_slugs, slug),
        ..account
    }
}

/// The row that tells of a settlement.
pub open spec fn settlement_record(account: Account, slug: Seq<char>, qs: Seq<Quote>) -> Record {
    Record {
        event_slug: slug,
        entry: Entry::ResolutionSettled {
            winners: winners(qs),
            credit_usdc: credit(of_event(account.open_positions, slug), qs),
        },
        bankroll: NO_BANKROLL,
    }
}

/// What `serde_json::from_str` makes of a text, read as a list of strings.
pub uninterp spec fn json_string_list(s: Seq<char>) -> Option<Seq<Seq<char>>>;

/// `serde_json::from_str` for a list of strings: nothing where the text is not
/// one in JSON.
#[verifier::external_body]
fn json_strings(s: &str) -> (r: Option<Vec<String>>)
    ensures
        r is Some <==> json_string_list(s@) is Some,
        r matches Some(v) ==> Some(texts(v@)) == json_string_list(s@),
{
    match serde_json::from_str::<Vec<String>>(s) {
        Ok(v) => Some(v),
        Err(_) => None,
    }
}

/// The strings that a JSON text lists; none where it is no such list.
pub open spec fn listed(s: Seq<char>) -> Seq<Seq<char>> {
    match json_string_list(s) {
        Some(v) => v,
        None => Seq::empty(),
    }
}

/// The strings that a JSON text lists; none where it is no such list.
pub fn string_list(s: &str) -> (r: Vec<String>)
    ensures
        texts(r@) == listed(s@),
{
    match json_strings(s) {
        Some(v) => v,
        None => {
            let r: Vec<String> = Vec::new();
            assert(texts(r@) =~= Seq::empty());
            r
        },
    }
}

/// The YES price of a bucket, where it has one that is not below zero.
fn read_yes_price(q: &MarketQuote) -> (r: Option<Reading>)
    ensures
        r == yes_price(q@),
{
    if q.prices.len() == 0 {
        return None;
    }
    assert(q@.prices[0] == q.prices@[0]@);
    match read_decimal(q.prices[0].as_str()) {
        Some(r) => if r.negative && (r.amount != 0 || !r.exact) {
            None
        } else {
            Some(r)
        },
        None => None,
    }
}

/// Whether the oracle has reported on any bucket of the event.
pub fn has_reported(markets: &Vec<MarketQuote>) -> (r: bool)
    ensures
        r == any_reported(quotes(markets@)),
{
    let ghost qs = quotes(markets@);
    let mut i: usize = 0;
    while i < markets.len()
        invariant
            i <= markets@.len(),
            qs == quotes(markets@),
            forall|j: int| 0 <= j < i ==> !is_reported(#[trigger] qs[j]),
        decreases markets@.len() - i,
    {
        assert(qs[i as int] == markets@[i as int]@);
        if let Some(r) = read_yes_price(&markets[i]) {
            if r.exact && (r.amount == 0 || r.amount == ONE) {
                assert(is_reported(qs[i as int]));
                return true;
            }
        }
        i = i + 1;
    }
    false
}

/// Whether a list of strings holds a text.
fn holds_text(v: &Vec<String>, s: &String) -> (r: bool)
    ensures
        r == texts(v@).contains(s@),
{
    let mut i: usize = 0;
    while i < v.len()
        invariant
            i <= v@.len(),
            forall|j: int| 0 <= j < i ==> #[trigger] texts(v@)[j] != s@,
        decreases v@.len() - i,
    {
        assert(texts(v@)[i as int] == v@[i as int]@);
        if same_text(&v[i], s) {
            return true;
        }
        i = i + 1;
    }
    false
}

/// The labels of the buckets that have won, each once.
pub fn winning_labels(markets: &Vec<MarketQuote>) -> (r: Vec<String>)
    ensures
        texts(r@) == winners(quotes(markets@)),
{
    let ghost qs = quotes(markets@);
    let mut r: Vec<String> = Vec::new();
    let mut i: usize = 0;
    assert(texts(r@) =~= Seq::empty());
    while i < markets.len()
        invariant
            i <= markets@.len(),
            qs == quotes(markets@),
            texts(r@) == winners(qs.take(i as int)),
        decreases markets@.len() - i,
    {
        assert(qs.take(i + 1).drop_last() =~= qs.take(i as int));
        assert(qs.take(i + 1).last() == markets@[i as int]@);
        if let Some(y) = read_yes_price(&markets[i]) {
            if (y.amount > HALF || y.amount == HALF && !y.exact) && !holds_text(
                &r,
                &markets[i].label,
            ) {
                let label: String = markets[i].label.clone();
                proof {
                    lemma_texts_push(r@, label);
                }
                r.push(label);
            }
        }
        i = i + 1;
    }
    assert(qs.take(i as int) =~= qs);
    r
}

/// What a share of the bucket with the label pays.
pub fn payout_of(markets: &Vec<MarketQuote>, label: &String) -> (r: Amount)
    ensures
        r == payout(quotes(markets@), label@),
{
    let ghost qs = quotes(markets@);
    let mut best: Amount = 0;
    let mut i: usize = 0;
    while i < markets.len()
        invariant
            i <= markets@.len(),
            qs == quotes(markets@),
            best == payout(qs.take(i as int), label@),
        decreases markets@.len() - i,
    {
        assert(qs.take(i + 1).drop_last() =~= qs.take(i as int));
        assert(qs.take(i + 1).last() == markets@[i as int]@);
        if let Some(y) = read_yes_price(&markets[i]) {
            let value: Amount = if y.amount > ONE {
                ONE
            } else {
                y.amount
            };
            if same_text(&markets[i].label, label) && value > best {
                best = value;
            }
        }
        i = i + 1;
    }
    assert(qs.take(i as int) =~= qs);
    best
}

/// The positions of an event and those of other events.
fn split_positions(all: Vec<PaperPosition>, slug: &String) -> (r: (
    Vec<PaperPosition>,
    Vec<PaperPosition>,
))
    ensures
        positions(r.0@) == of_event(positions(all@), slug@),
        positions(r.1@) == of_others(positions(all@), slug@),
        r.0@.len() + r.1@.len() == all@.len(),
{
    let ghost ps = positions(all@);
    let mut closing: Vec<PaperPosition> = Vec::new();
    let mut staying: Vec<PaperPosition> = Vec::new();
    assert(positions(closing@) =~= Seq::empty());
    assert(positions(staying@) =~= Seq::empty());
    assert(ps.take(0) =~= Seq::empty());
    for p in it: all
        invariant
            ps == positions(all@),
            it.seq() == all@,
            closing@.len() + staying@.len() == it.index(),
            positions(closing@) == of_event(ps.take(it.index() as int), slug@),
            positions(staying@) == of_others(ps.take(it.index() as int), slug@),
    {
        proof {
            let i = it.index() as int;
            assert(ps.take(i + 1).drop_last() =~= ps.take(i));
            assert(ps.take(i + 1).last() == p@);
            lemma_positions_push(closing@, p);
            lemma_positions_push(staying@, p);
        }
        if same_text(&p.event_slug, slug) {
            closing.push(p);
        } else {
            staying.push(p);
        }
    }
    assert(ps.take(all@.len() as int) =~= ps);
    (closing, staying)
}

/// A list of slugs without the given one.
fn drop_slug(v: &Vec<String>, slug: &String) -> (r: Vec<String>)
    ensures
        texts(r@) == without(texts(v@), slug@),
{
    let mut r: Vec<String> = Vec::new();
    let mut i: usize = 0;
    assert(texts(r@) =~= Seq::empty());
    while i < v.len()
        invariant
            i <= v@.len(),
            texts(r@) == without(texts(v@).take(i as int), slug@),
        decreases v@.len() - i,
    {
        proof {
            assert(texts(v@).take(i + 1).drop_last() =~= texts(v@).take(i as int));
            assert(texts(v@).take(i + 1).last() == v@[i as int]@);
        }
        if !same_text(&v[i], slug) {
            let s: String = v[i].clone();
            proof {
                lemma_texts_push(r@, s);
            }
            r.push(s);
        }
        i = i + 1;
    }
    assert(texts(v@).take(i as int) =~= texts(v@));
    r
}

/// What the positions pay together.
fn credit_of(ps: &Vec<PaperPosition>, markets: &Vec<MarketQuote>) -> (r: Amount)
    ensures
        r == credit(positions(ps@), quotes(markets@)),
{
    let ghost s = positions(ps@);
    let mut total: Amount = 0;
    let mut i: usize = 0;
    while i < ps.len()
        invariant
            i <= ps@.len(),
            s == positions(ps@),
            total == credit(s.take(i as int), quotes(markets@)),
        decreases ps@.len() - i,
    {
        assert(s.take(i + 1).drop_last() =~= s.take(i as int));
        assert(s.take(i + 1).last() == ps@[i as int]@);
        let pay: Amount = payout_of(markets, &ps[i].bucket_label);
        total = plus(total, times(ps[i].shares_held, pay));
        i = i + 1;
    }
    assert(s.take(i as int) =~= s);
    total
}

impl PaperEngine {
    /// Whether a position of the event is open.
    fn holds_event(&self, slug: &String) -> (r: bool)
        ensures
            r == has_position(self.account@, slug@),
    {
        let mut i: usize = 0;
        while i < self.account.open_positions.len()
            invariant
                i <= self.account.open_positions@.len(),
                forall|j: int|
                    0 <= j < i ==> (#[trigger] self.account@.open_positions[j]).event_slug != slug@,
            decreases self.account.open_positions@.len() - i,
        {
            assert(self.account@.open_positions[i as int]
                == self.account.open_positions@[i as int]@);
            if same_text(&self.account.open_positions[i].event_slug, slug) {
                return true;
            }
            i = i + 1;
        }
        false
    }

    /// Settles an event: closes its positions and credits what they pay. Does
    /// nothing where no position of it is open, or where the oracle has not reported
    /// on any of its buckets.
    pub fn settle_event(&mut self, slug: &String, markets: &Vec<MarketQuote>) -> (r: Option<
        Settlement,
    >)
        ensures
            r is Some <==> has_position(old(self).account@, slug@) && any_reported(
                quotes(markets@),
            ),
            r matches Some(s) ==> {
                let before = old(self).account@;
                let qs = quotes(markets@);
                &&& final(self).account@ == settled(before, slug@, qs)
                &&& s.credit == credit(of_event(before.open_positions, slug@), qs)
                &&& s.positions_settled == of_event(before.open_positions, slug@).len()
                &&& s.record@ == settlement_record(before, slug@, qs)
                &&& s.positions_settled + final(self).account@.open_positions.len()
                    == before.open_positions.len()
            },
            r is None ==> final(self).account@ == old(self).account@,
            final(self).same_but_account(*old(self)),
    {
        if !self.holds_event(slug) || !has_reported(markets) {
            return None;
        }
        let ghost before = self.account@;
        let mut all: Vec<PaperPosition> = Vec::new();
        std::mem::swap(&mut all, &mut self.account.open_positions);
        let (mut closing, staying) = split_positions(all, slug);
        let pay: Amount = credit_of(&closing, markets);
        let positions_settled: usize = closing.len();
        proof {
            assert(positions(self.account.closed_positions@ + closing@) =~= positions(
                self.account.closed_positions@,
            ) + positions(closing@));
        }
        self.account.open_positions = staying;
        self.account.bankroll_usdc = plus(self.account.bankroll_usdc, pay);
        self.account.cum_realized_pnl = plus(self.account.cum_realized_pnl, pay);
        self.account.closed_positions.append(&mut closing);
        self.account.open_event_slugs = drop_slug(&self.account.open_event_slugs, slug);
        assert(self.account@ =~= settled(before, slug@, quotes(markets@)));
        let entry: LogEvent = LogEvent::ResolutionSettled {
            winners: winning_labels(markets),
            credit_usdc: pay,
        };
        let record: LogRecord = LogRecord {
            event_slug: slug.clone(),
            entry,
            bankroll: NO_BANKROLL,
        };
        Some(Settlement { credit: pay, positions_settled, record })
    }
}

/// The outcome prices that the market service gives for a bucket.
pub open spec fn quote_of(m: MarketStatus) -> Quote {
    Quote {
        label: m.label@,
        prices: match m.outcome_prices {
            Some(s) => listed(s@),
            None => Seq::empty(),
        },
    }
}

/// The outcome prices that the market service gives for an event.
pub open spec fn quotes_of(status: EventStatus) -> Seq<Quote> {
    match status.markets {
        Some(markets) => markets@.map_values(|m: MarketStatus| quote_of(m)),
        None => Seq::empty(),
    }
}

/// Whether an event is over: it is marked as closed, or its end has come.
pub open spec fn is_over(status: EventStatus, now_unix: i64) -> bool {
    status.closed == Some(true) || match status.end_date {
        Some(s) => second_or(rfc3339_second(s@), i64::MAX),
        None => i64::MAX,
    } <= now_unix
}

/// Whether an answer tells that its event has resolved.
pub open spec fn is_resolved(reply: Reply) -> bool {
    match reply.status {
        Some(status) => is_over(status, reply.now_unix) && any_reported(quotes_of(status)),
        None => false,
    }
}

/// Whether an answer settles its event: it has resolved, and positions of it are
/// open.
pub open spec fn settles(account: Account, reply: Reply) -> bool {
    has_position(account, reply.event_slug@) && is_resolved(reply)
}

/// Whether an event is over, given its end.
pub fn event_over(closed: Option<bool>, end_unix: i64, now_unix: i64) -> (r: bool)
    ensures
        r == (closed == Some(true) || end_unix <= now_unix),
{
    match closed {
        Some(true) => true,
        _ => end_unix <= now_unix,
    }
}

/// The outcome prices that the market service gives for an event.
fn read_quotes(status: &EventStatus) -> (r: Vec<MarketQuote>)
    ensures
        quotes(r@) == quotes_of(*status),
{
    let mut r: Vec<MarketQuote> = Vec::new();
    assert(quotes(r@) =~= Seq::empty());
    let markets: &Vec<MarketStatus> = match &status.markets {
        Some(m) => m,
        None => {
            return r;
        },
    };
    let mut i: usize = 0;
    while i < markets.len()
        invariant
            i <= markets@.len(),
            quotes(r@) == markets@.map_values(|m: MarketStatus| quote_of(m)).take(i as int),
        decreases markets@.len() - i,
    {
        let prices: Vec<String> = match &markets[i].outcome_prices {
            Some(s) => string_list(s.as_str()),
            None => Vec::new(),
        };
        let q: MarketQuote = MarketQuote { label: markets[i].label.clone(), prices };
        proof {
            let all = markets@.map_values(|m: MarketStatus| quote_of(m));
            assert(q@.prices =~= quote_of(markets@[i as int]).prices);
            assert(quotes(r@.push(q)) =~= quotes(r@).push(q@));
            assert(all.take(i + 1) =~= all.take(i as int).push(q@));
        }
        r.push(q);
        i = i + 1;
    }
    proof {
        let all = markets@.map_values(|m: MarketStatus| quote_of(m));
        assert(all.take(i as int) =~= all);
    }
    r
}

/// What a round of settlements came to.
#[derive(Debug)]
pub struct ResolutionReport {
    pub total_credit: Amount,
    pub events_resolved: usize,
    pub positions_settled: usize,
    pub records: Vec<LogRecord>,
}

/// A round of settlements: the account after it, and what it came to.
#[verifier::ext_equal]
pub ghost struct Round {
    pub account: Account,
    pub total_credit: Amount,
    pub events_resolved: nat,
    pub positions_settled: nat,
    pub records: Seq<Record>,
}

/// What the first `i` answers come to.
pub open spec fn round(account: Account, replies: Seq<Reply>, i: int) -> Round
    decreases i,
{
    if i <= 0 {
        Round {
            account,
            total_credit: 0,
            events_resolved: 0,
            positions_settled: 0,
            records: Seq::empty(),
        }
    } else {
        let before = round(account, replies, i - 1);
        let reply = replies[i - 1];
        if settles(before.account, reply) {
            let slug = reply.event_slug@;
            let qs = quotes_of(reply.status->0);
            let closing = of_event(before.account.open_positions, slug);
            Round {
                account: settled(before.account, slug, qs),
                total_credit: sum(before.total_credit, credit(closing, qs)),
                events_resolved: before.events_resolved + 1,
                positions_settled: before.positions_settled + closing.len(),
                records: before.records.push(settlement_record(before.account, slug, qs)),
            }
        } else {
            before
        }
    }
}

/// The slugs of the events of the positions, each once, in order.
pub open spec fn distinct_slugs(ps: Seq<Position>) -> Seq<Seq<char>>
    decreases ps.len(),
{
    if ps.len() == 0 {
        Seq::empty()
    } else {
        let before = distinct_slugs(ps.drop_last());
        if before.contains(ps.last().event_slug) {
            before
        } else {
            before.push(ps.last().event_slug)
        }
    }
}

impl PaperEngine {
    /// The events of which positions are open, each once: those to ask the market
    /// service about.
    pub fn open_slugs(&self) -> (r: Vec<String>)
        ensures
            texts(r@) == distinct_slugs(self.account@.open_positions),
    {
        let ghost ps = self.account@.open_positions;
        let mut r: Vec<String> = Vec::new();
        let mut i: usize = 0;
        assert(texts(r@) =~= Seq::empty());
        while i < self.account.open_positions.len()
            invariant
                i <= self.account.open_positions@.len(),
                ps == self.account@.open_positions,
                texts(r@) == distinct_slugs(ps.take(i as int)),
            decreases self.account.open_positions@.len() - i,
        {
            proof {
                assert(ps.take(i + 1).drop_last() =~= ps.take(i as int));
                assert(ps.take(i + 1).last() == self.account.open_positions@[i as int]@);
            }
            if !holds_text(&r, &self.account.open_positions[i].event_slug) {
                let slug: String = self.account.open_positions[i].event_slug.clone();
                proof {
                    lemma_texts_push(r@, slug);
                }
                r.push(slug);
            }
            i = i + 1;
        }
        assert(ps.take(i as int) =~= ps);
        r
    }

    /// Settles the event of an answer, if it is over and the oracle has reported.
    pub fn settle_reply(&mut self, reply: &Reply) -> (r: Option<Settlement>)
        ensures
            r is Some <==> settles(old(self).account@, *reply),
            r matches Some(s) ==> {
                let before = old(self).account@;
                let slug = reply.event_slug@;
                let qs = quotes_of(reply.status->0);
                &&& final(self).account@ == settled(before, slug, qs)
                &&& s.credit == credit(of_event(before.open_positions, slug), qs)
                &&& s.positions_settled == of_event(before.open_positions, slug).len()
                &&& s.record@ == settlement_record(before, slug, qs)
                &&& s.positions_settled + final(self).account@.open_positions.len()
                    == before.open_positions.len()
            },
            r is None ==> final(self).account@ == old(self).account@,
            final(self).same_but_account(*old(self)),
    {
        let status: &EventStatus = match &reply.status {
            Some(s) => s,
            None => {
                return None;
            },
        };
        let end_unix: i64 = match &status.end_date {
            Some(s) => rfc3339_or(s.as_str(), i64::MAX),
            None => i64::MAX,
        };
        if !event_over(status.closed, end_unix, reply.now_unix) {
            return None;
        }
        let markets: Vec<MarketQuote> = read_quotes(status);
        self.settle_event(&reply.event_slug, &markets)
    }

    /// Settles the events that have resolved, given the answers of the market
    /// service. Each share of a settled event pays the outcome price of its
    /// bucket, one at most. Events that are not over, on which the oracle has not
    /// reported or on which there is no answer stay open, and an answer on an event
    /// of which no position is open counts for nothing.
    pub fn resolve_settled_events(&mut self, replies: &Vec<Reply>) -> (r: ResolutionReport)
        ensures
            ({
                let round = round(old(self).account@, replies@, replies@.len() as int);
                &&& final(self).account@ == round.account
                &&& r.total_credit == round.total_credit
                &&& r.events_resolved == round.events_resolved
                &&& r.positions_settled == round.positions_settled
                &&& records(r.records@) == round.records
            }),
            final(self).same_but_account(*old(self)),
    {
        let mut total_credit: Amount = 0;
        let mut events_resolved: usize = 0;
        let mut positions_settled: usize = 0;
        let mut rows: Vec<LogRecord> = Vec::new();
        let ghost start = self.account@;
        let held: usize = self.account.open_positions.len();
        let mut i: usize = 0;
        assert(records(rows@) =~= Seq::empty());
        while i < replies.len()
            invariant
                i <= replies@.len(),
                start == old(self).account@,
                self.same_but_account(*old(self)),
                events_resolved <= i,
                positions_settled + self.account@.open_positions.len() == held,
                ({
                    let round = round(start, replies@, i as int);
                    &&& self.account@ == round.account
                    &&& total_credit == round.total_credit
                    &&& events_resolved == round.events_resolved
                    &&& positions_settled == round.positions_settled
                    &&& records(rows@) == round.records
                }),
            decreases replies@.len() - i,
        {
            if let Some(s) = self.settle_reply(&replies[i]) {
                total_credit = plus(total_credit, s.credit);
                events_resolved = events_resolved + 1;
                positions_settled = positions_settled + s.positions_settled;
                proof {
                    lemma_records_push(rows@, s.record);
                }
                rows.push(s.record);
            }
            i = i + 1;
        }
        ResolutionReport { total_credit, events_resolved, positions_settled, records: rows }
    }
}

/// Where the market service tells of an event.
pub fn event_url(gamma_url: &str, slug: &str) -> (r: String)
    ensures
        r@ == gamma_url@ + "/events/slug/"@ + slug@,
{
    joined(joined(gamma_url, "/events/slug/").as_str(), slug)
}

} // verus!
