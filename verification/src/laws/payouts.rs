//! What is read from outcome prices, and what a settlement pays and records.

use super::cycles::{fits, shares_not_negative};
use crate::account::{Account, Position};
use crate::amount::{ONE, product, saturate, sum};
use crate::decimal::{Reading, lemma_reading_sign, reading};
use crate::log::Entry;
use crate::settle::{
    EventStatus, Quote, Reply, any_reported, credit, has_position, is_over, is_reported,
    is_resolved, is_winner, of_event, of_others, payout, quotes_of, round, settled,
    settlement_record, winners, without, yes_price,
};
use vstd::prelude::*;

verus! {

/// Whether a bucket is listed with `r` as the first of its outcome prices, and that is
/// not below zero.
pub open spec fn lists_first(q: Quote, r: Reading) -> bool {
    &&& q.prices.len() > 0
    &&& reading(q.prices[0]) == Some(r)
    &&& !(r.negative && (r.amount < 0 || !r.exact))
}

/// The first listed price decides alone: a bucket of which it reads as one pays one for
/// a share, one of which it reads as nothing pays nothing, and one in between pays that
/// price, whatever stands behind it in the list.
pub proof fn law_first_price_decides(qs: Seq<Quote>, i: int, r: Reading)
    requires
        0 <= i < qs.len(),
        lists_first(qs[i], r),
        forall|j: int| 0 <= j < qs.len() && j != i ==> (#[trigger] qs[j]).label != qs[i].label,
    ensures
        r.amount >= ONE ==> payout(qs, qs[i].label) == ONE,
        r.amount <= ONE ==> payout(qs, qs[i].label) == r.amount,
        r.amount >= 0,
    decreases qs.len(),
{
    let label = qs[i].label;
    let head = qs.drop_last();
    lemma_reading_sign(qs[i].prices[0]);
    if i == qs.len() - 1 {
        lemma_no_such_label(head, label);
    } else {
        assert(qs[qs.len() - 1].label != label);
        assert forall|j: int| 0 <= j < head.len() && j != i implies (#[trigger] head[j]).label
            != head[i].label by {
            assert(qs[j].label != qs[i].label);
        }
        law_first_price_decides(head, i, r);
    }
}

proof fn lemma_no_such_label(qs: Seq<Quote>, label: Seq<char>)
    requires
        forall|j: int| 0 <= j < qs.len() ==> (#[trigger] qs[j]).label != label,
    ensures
        payout(qs, label) == 0,
    decreases qs.len(),
{
    if qs.len() > 0 {
        let head = qs.drop_last();
        assert forall|j: int| 0 <= j < head.len() implies (#[trigger] head[j]).label != label by {
            assert(qs[j].label != label);
        }
        assert(qs[qs.len() - 1].label != label);
        lemma_no_such_label(head, label);
    }
}

/// A label that no bucket has pays nothing, and so does one of which no bucket lists a
/// price that can be read and is not below zero.
pub proof fn law_unlisted_labels_pay_nothing(qs: Seq<Quote>, label: Seq<char>)
    requires
        forall|j: int, r: Reading|
            0 <= j < qs.len() && #[trigger] lists_first(qs[j], r) ==> qs[j].label != label,
    ensures
        payout(qs, label) == 0,
    decreases qs.len(),
{
    if qs.len() > 0 {
        let head = qs.drop_last();
        assert forall|j: int, r: Reading|
            0 <= j < head.len() && #[trigger] lists_first(head[j], r) implies head[j].label
            != label by {
            assert(lists_first(qs[j], r));
        }
        law_unlisted_labels_pay_nothing(head, label);
        if let Some(r) = yes_price(qs.last()) {
            assert(lists_first(qs[qs.len() - 1], r));
        }
    }
}

/// Whether two lists of quotes have the same labels and the same first prices.
pub open spec fn same_first_prices(a: Seq<Quote>, b: Seq<Quote>) -> bool {
    &&& a.len() == b.len()
    &&& forall|i: int|
        0 <= i < a.len() ==> {
            &&& (#[trigger] a[i]).label == b[i].label
            &&& (a[i].prices.len() == 0) == (b[i].prices.len() == 0)
            &&& a[i].prices.len() > 0 ==> a[i].prices[0] == b[i].prices[0]
        }
}

/// What stands behind the first price of a bucket changes nothing: neither what a share
/// pays, nor whether the oracle has reported, nor who has won, nor what is credited.
pub proof fn law_later_prices_do_not_matter(
    a: Seq<Quote>,
    b: Seq<Quote>,
    label: Seq<char>,
    account: Account,
    slug: Seq<char>,
)
    requires
        same_first_prices(a, b),
    ensures
        payout(a, label) == payout(b, label),
        any_reported(a) == any_reported(b),
        winners(a) == winners(b),
        settled(account, slug, a) == settled(account, slug, b),
        settlement_record(account, slug, a) == settlement_record(account, slug, b),
{
    lemma_payout_first(a, b, label);
    lemma_winners_first(a, b);
    lemma_credit_first(of_event(account.open_positions, slug), a, b);
    if any_reported(a) {
        let i = choose|i: int| 0 <= i < a.len() && is_reported(#[trigger] a[i]);
        assert(is_reported(b[i]));
    }
    if any_reported(b) {
        let i = choose|i: int| 0 <= i < b.len() && is_reported(#[trigger] b[i]);
        assert(a[i].label == b[i].label);
        assert(is_reported(a[i]));
    }
}

proof fn lemma_same_first_head(a: Seq<Quote>, b: Seq<Quote>)
    requires
        same_first_prices(a, b),
        a.len() > 0,
    ensures
        same_first_prices(a.drop_last(), b.drop_last()),
        a.last().label == b.last().label,
        yes_price(a.last()) == yes_price(b.last()),
{
    assert(a[a.len() - 1].label == b[a.len() - 1].label);
    assert forall|i: int| 0 <= i < a.drop_last().len() implies {
        &&& (#[trigger] a.drop_last()[i]).label == b.drop_last()[i].label
        &&& (a.drop_last()[i].prices.len() == 0) == (b.drop_last()[i].prices.len() == 0)
        &&& a.drop_last()[i].prices.len() > 0 ==> a.drop_last()[i].prices[0]
            == b.drop_last()[i].prices[0]
    } by {
        assert(a[i].label == b[i].label);
    }
}

proof fn lemma_payout_first(a: Seq<Quote>, b: Seq<Quote>, label: Seq<char>)
    requires
        same_first_prices(a, b),
    ensures
        payout(a, label) == payout(b, label),
    decreases a.len(),
{
    if a.len() > 0 {
        lemma_same_first_head(a, b);
        lemma_payout_first(a.drop_last(), b.drop_last(), label);
    }
}

proof fn lemma_winners_first(a: Seq<Quote>, b: Seq<Quote>)
    requires
        same_first_prices(a, b),
    ensures
        winners(a) == winners(b),
    decreases a.len(),
{
    if a.len() > 0 {
        lemma_same_first_head(a, b);
        lemma_winners_first(a.drop_last(), b.drop_last());
    }
}

proof fn lemma_credit_first(ps: Seq<Position>, a: Seq<Quote>, b: Seq<Quote>)
    requires
        same_first_prices(a, b),
    ensures
        credit(ps, a) == credit(ps, b),
    decreases ps.len(),
{
    if ps.len() > 0 {
        lemma_credit_first(ps.drop_last(), a, b);
        lemma_payout_first(a, b, ps.last().bucket_label);
    }
}

/// The oracle has reported on an event exactly where the first listed price of some
/// bucket is nothing or one, with nothing cut off.
pub proof fn law_reported_at_nothing_or_one(qs: Seq<Quote>)
    ensures
        any_reported(qs) <==> exists|i: int, r: Reading|
            0 <= i < qs.len() && #[trigger] lists_first(qs[i], r) && r.exact && (r.amount == 0
                || r.amount == 1_000_000_000),
{
    if any_reported(qs) {
        let i = choose|i: int| 0 <= i < qs.len() && is_reported(#[trigger] qs[i]);
        let r = yes_price(qs[i])->0;
        assert(lists_first(qs[i], r));
    }
    if exists|i: int, r: Reading|
        0 <= i < qs.len() && #[trigger] lists_first(qs[i], r) && r.exact && (r.amount == 0
            || r.amount == 1_000_000_000) {
        let (i, r) = choose|i: int, r: Reading|
            0 <= i < qs.len() && #[trigger] lists_first(qs[i], r) && r.exact && (r.amount == 0
                || r.amount == 1_000_000_000);
        lemma_reading_sign(qs[i].prices[0]);
        assert(yes_price(qs[i]) == Some(r));
        assert(is_reported(qs[i]));
    }
}

/// Whether a bucket with the label lists a first price above one half.
pub open spec fn has_won(qs: Seq<Quote>, label: Seq<char>) -> bool {
    exists|i: int, r: Reading|
        0 <= i < qs.len() && #[trigger] lists_first(qs[i], r) && qs[i].label == label && (r.amount
            > 500_000_000 || r.amount == 500_000_000 && !r.exact)
}

/// The winners are the labels of the buckets of which the first listed price is above
/// one half, each once.
pub proof fn law_winners_are_above_one_half(qs: Seq<Quote>)
    ensures
        winners(qs).no_duplicates(),
        forall|label: Seq<char>| #[trigger] winners(qs).contains(label) <==> has_won(qs, label),
    decreases qs.len(),
{
    if qs.len() > 0 {
        let head = qs.drop_last();
        let last = qs.last();
        let before = winners(head);
        law_winners_are_above_one_half(head);
        assert forall|label: Seq<char>| #[trigger] winners(qs).contains(label) <==> has_won(
            qs,
            label,
        ) by {
            let won_here = is_winner(last) && last.label == label;
            assert(has_won(qs, label) <==> has_won(head, label) || won_here) by {
                if has_won(qs, label) {
                    let (i, r) = choose|i: int, r: Reading|
                        0 <= i < qs.len() && #[trigger] lists_first(qs[i], r) && qs[i].label
                            == label && (r.amount > 500_000_000 || r.amount == 500_000_000
                            && !r.exact);
                    if i < head.len() {
                        assert(lists_first(head[i], r));
                    } else {
                        lemma_reading_sign(last.prices[0]);
                        assert(yes_price(last) == Some(r));
                    }
                }
                if has_won(head, label) {
                    let (i, r) = choose|i: int, r: Reading|
                        0 <= i < head.len() && #[trigger] lists_first(head[i], r) && head[i].label
                            == label && (r.amount > 500_000_000 || r.amount == 500_000_000
                            && !r.exact);
                    assert(lists_first(qs[i], r));
                }
                if won_here {
                    let r = yes_price(last)->0;
                    assert(lists_first(qs[qs.len() - 1], r));
                }
            }
            let full = before.push(last.label);
            if is_winner(last) && !before.contains(last.label) {
                assert(full[full.len() - 1] == last.label);
                if before.contains(label) {
                    let k = choose|k: int| 0 <= k < before.len() && before[k] == label;
                    assert(full[k] == label);
                }
                if full.contains(label) {
                    let k = choose|k: int| 0 <= k < full.len() && full[k] == label;
                    if k < before.len() {
                        assert(before[k] == label);
                    }
                }
            }
        }
    }
}

/// What positions pay is what each pays by itself: its own shares times what a share of
/// its own bucket pays.
pub open spec fn pays(ps: Seq<Position>, qs: Seq<Quote>) -> int
    decreases ps.len(),
{
    if ps.len() == 0 {
        0
    } else {
        pays(ps.drop_last(), qs) + product(
            ps.last().shares_held,
            payout(qs, ps.last().bucket_label),
        )
    }
}

/// A settlement credits what each closed position pays by itself.
pub proof fn law_credit_adds_up(ps: Seq<Position>, qs: Seq<Quote>)
    requires
        shares_not_negative(ps),
    ensures
        credit(ps, qs) == saturate(pays(ps, qs)),
        pays(ps, qs) >= 0,
    decreases ps.len(),
{
    if ps.len() > 0 {
        let head = ps.drop_last();
        assert forall|i: int| 0 <= i < head.len() implies (#[trigger] head[i]).shares_held >= 0 by {
            assert(ps[i].shares_held >= 0);
        }
        law_credit_adds_up(head, qs);
        let p = ps.last();
        assert(ps[ps.len() - 1].shares_held >= 0);
        super::settlements::lemma_payout_range(qs, p.bucket_label);
        super::books::lemma_product_shrinks(p.shares_held, payout(qs, p.bucket_label));
    }
}

/// A settlement moves the positions of its event, in their order and unchanged, behind
/// those that are closed, credits what they pay to bankroll and profit, and touches
/// nothing else.
pub proof fn law_settlement_books(account: Account, slug: Seq<char>, qs: Seq<Quote>)
    requires
        shares_not_negative(account.open_positions),
    ensures
        ({
            let after = settled(account, slug, qs);
            let closed = after.closed_positions.skip(account.closed_positions.len() as int);
            &&& after.closed_positions.take(account.closed_positions.len() as int)
                == account.closed_positions
            &&& forall|k: int|
                0 <= k < closed.len() ==> (#[trigger] closed[k]).event_slug == slug
                    && account.open_positions.contains(closed[k])
            &&& closed.len() + after.open_positions.len() == account.open_positions.len()
            &&& after.bankroll_usdc == sum(account.bankroll_usdc, saturate(pays(closed, qs)))
            &&& after.cum_realized_pnl == sum(
                account.cum_realized_pnl,
                saturate(pays(closed, qs)),
            )
            &&& after.starting_bankroll == account.starting_bankroll
            &&& after.cum_mint_count == account.cum_mint_count
            &&& after.cum_mint_usdc == account.cum_mint_usdc
            &&& after.cum_dump_count == account.cum_dump_count
            &&& after.cum_dump_usdc == account.cum_dump_usdc
            &&& after.cum_gas_paid == account.cum_gas_paid
            &&& after.cum_taker_fees == account.cum_taker_fees
        }),
        ({
            let record = settlement_record(account, slug, qs);
            let closed = settled(account, slug, qs).closed_positions.skip(
                account.closed_positions.len() as int,
            );
            &&& record.event_slug == slug
            &&& record.bankroll == -1_000_000_000
            &&& record.entry matches Entry::ResolutionSettled { winners: w, credit_usdc }
                && credit_usdc == saturate(pays(closed, qs)) && w == winners(qs)
        }),
{
    let closing = of_event(account.open_positions, slug);
    let after = settled(account, slug, qs);
    let m = account.closed_positions.len() as int;
    super::settlements::lemma_split(account.open_positions, slug);
    super::settlements::lemma_split_not_negative(account.open_positions, slug);
    law_credit_adds_up(closing, qs);
    assert(after.closed_positions.skip(m) =~= closing);
    assert(after.closed_positions.take(m) =~= account.closed_positions);
    lemma_split_len(account.open_positions, slug);
}

proof fn lemma_split_len(ps: Seq<Position>, slug: Seq<char>)
    ensures
        of_event(ps, slug).len() + of_others(ps, slug).len() == ps.len(),
    decreases ps.len(),
{
    if ps.len() > 0 {
        lemma_split_len(ps.drop_last(), slug);
    }
}

/// An event is over where it is marked as closed, or where its end is given, can be
/// read, and has come. Later it is over still.
pub proof fn law_over_when_closed_or_ended(status: EventStatus, now_unix: i64, later: i64)
    ensures
        status.closed == Some(true) ==> is_over(status, now_unix),
        status.closed != Some(true) && status.end_date is None && now_unix < i64::MAX ==> !is_over(
            status,
            now_unix,
        ),
        status.closed != Some(true) ==> (status.end_date matches Some(s) ==> (
        crate::dates::rfc3339_second(s@) matches Some(end) ==> (is_over(status, now_unix) <==> end
            <= now_unix))),
        status.closed != Some(true) ==> (status.end_date matches Some(s) ==> (
        crate::dates::rfc3339_second(s@) is None && now_unix < i64::MAX ==> !is_over(
            status,
            now_unix,
        ))),
        now_unix <= later && is_over(status, now_unix) ==> is_over(status, later),
{
}

/// An answer tells that its event has resolved exactly where there is one, the event is
/// over and the oracle has reported on one of the buckets that are listed.
pub proof fn law_resolved_when_over_and_reported(reply: Reply)
    ensures
        reply.status is None ==> !is_resolved(reply),
        reply.status matches Some(status) ==> (is_resolved(reply) <==> is_over(
            status,
            reply.now_unix,
        ) && any_reported(quotes_of(status))),
        reply.status matches Some(status) ==> (status.markets is None ==> !is_resolved(reply)),
{
}

/// The quotes of an answer are those of its buckets, one for each and in their order:
/// each has the label of the bucket, and as prices the strings that its text lists.
pub proof fn law_quotes_are_listed(status: EventStatus, i: int)
    ensures
        status.markets matches Some(markets) ==> {
            &&& quotes_of(status).len() == markets@.len()
            &&& 0 <= i < markets@.len() ==> {
                &&& quotes_of(status)[i].label == markets@[i].label@
                &&& markets@[i].outcome_prices is None ==> quotes_of(status)[i].prices.len() == 0
                &&& markets@[i].outcome_prices matches Some(s) ==> match crate::settle::json_string_list(
                    s@,
                ) {
                    Some(list) => quotes_of(status)[i].prices == list,
                    None => quotes_of(status)[i].prices.len() == 0,
                }
            }
        },
        status.markets is None ==> quotes_of(status).len() == 0,
{
}

/// The records of a round: one for each event that it resolves, and together they
/// credit what the round returns.
pub open spec fn recorded_credit(records: Seq<crate::log::Record>) -> int
    decreases records.len(),
{
    if records.len() == 0 {
        0
    } else {
        recorded_credit(records.drop_last()) + match records.last().entry {
            Entry::ResolutionSettled { credit_usdc, .. } => credit_usdc as int,
            _ => 0,
        }
    }
}

/// A round records one settlement for each event that it resolves; it counts the
/// positions that it closes; and its records credit together what it returns.
pub proof fn law_round_records_what_it_does(account: Account, replies: Seq<Reply>, i: int)
    requires
        shares_not_negative(account.open_positions),
        fits(super::settlements::credited_by(account, replies, i)),
    ensures
        ({
            let r = round(account, replies, i);
            &&& r.records.len() == r.events_resolved
            &&& r.account.open_positions.len() + r.positions_settled
                == account.open_positions.len()
            &&& r.account.closed_positions.len() == account.closed_positions.len()
                + r.positions_settled
            &&& recorded_credit(r.records) == r.total_credit
        }),
    decreases i,
{
    if i > 0 {
        super::settlements::lemma_credits_grow(account, replies, i);
        law_round_records_what_it_does(account, replies, i - 1);
        super::settlements::law_round_returns_what_it_credits(account, replies, i - 1);
        super::settlements::law_round_returns_what_it_credits(account, replies, i);
        let before = round(account, replies, i - 1);
        let after = round(account, replies, i);
        let reply = replies[i - 1];
        if crate::settle::settles(before.account, reply) {
            lemma_split_len(before.account.open_positions, reply.event_slug@);
            assert(after.records.drop_last() =~= before.records);
        }
    }
}

/// Positions count each for itself, in their order: those of an event in two runs are
/// those in the one and those in the other, and so are those of other events.
pub proof fn law_positions_part_in_order(a: Seq<Position>, b: Seq<Position>, slug: Seq<char>)
    ensures
        of_event(a + b, slug) == of_event(a, slug) + of_event(b, slug),
        of_others(a + b, slug) == of_others(a, slug) + of_others(b, slug),
    decreases b.len(),
{
    if b.len() > 0 {
        law_positions_part_in_order(a, b.drop_last(), slug);
        assert((a + b).drop_last() =~= a + b.drop_last());
        assert((a + b).last() == b.last());
    } else {
        assert(a + b =~= a);
    }
    assert(of_event(a + b, slug) =~= of_event(a, slug) + of_event(b, slug));
    assert(of_others(a + b, slug) =~= of_others(a, slug) + of_others(b, slug));
}

/// One position is of an event where it has its slug, and of others where it has not.
pub proof fn law_position_is_of_its_event(p: Position, slug: Seq<char>)
    ensures
        p.event_slug == slug ==> of_event(seq![p], slug) == seq![p] && of_others(
            seq![p],
            slug,
        ).len() == 0,
        p.event_slug != slug ==> of_others(seq![p], slug) == seq![p] && of_event(
            seq![p],
            slug,
        ).len() == 0,
{
    reveal_with_fuel(of_event, 2);
    reveal_with_fuel(of_others, 2);
    assert(seq![p].drop_last() =~= Seq::empty());
    assert(Seq::<Position>::empty().push(p) =~= seq![p]);
}

/// Slugs of open events keep their order when one is taken out, wherever it stands.
pub proof fn law_slugs_part_in_order(a: Seq<Seq<char>>, b: Seq<Seq<char>>, slug: Seq<char>)
    ensures
        without(a + b, slug) == without(a, slug) + without(b, slug),
        without(seq![slug], slug).len() == 0,
        forall|s: Seq<char>| s != slug ==> #[trigger] without(seq![s], slug) == seq![s],
    decreases b.len(),
{
    reveal_with_fuel(without, 2);
    assert(seq![slug].drop_last() =~= Seq::empty());
    assert forall|s: Seq<char>| s != slug implies #[trigger] without(seq![s], slug) == seq![s] by {
        assert(seq![s].drop_last() =~= Seq::empty());
        assert(Seq::<Seq<char>>::empty().push(s) =~= seq![s]);
    }
    if b.len() > 0 {
        law_slugs_part_in_order(a, b.drop_last(), slug);
        assert((a + b).drop_last() =~= a + b.drop_last());
        assert((a + b).last() == b.last());
    } else {
        assert(a + b =~= a);
    }
    assert(without(a + b, slug) =~= without(a, slug) + without(b, slug));
}

/// A position of an event is open exactly where some open position has its slug.
pub proof fn law_events_with_positions(account: Account, slug: Seq<char>)
    ensures
        has_position(account, slug) <==> of_event(account.open_positions, slug).len() > 0,
        settled(account, slug, Seq::empty()).open_event_slugs == without(
            account.open_event_slugs,
            slug,
        ),
{
    let ps = account.open_positions;
    super::settlements::lemma_split(ps, slug);
    if of_event(ps, slug).len() > 0 {
        let p = of_event(ps, slug)[0];
        assert(ps.contains(p));
        let k = choose|k: int| 0 <= k < ps.len() && ps[k] == p;
        assert(ps[k].event_slug == slug);
    } else if has_position(account, slug) {
        let k = choose|k: int| 0 <= k < ps.len() && (#[trigger] ps[k]).event_slug == slug;
        assert(ps =~= ps.take(k) + ps.skip(k));
        assert(ps.skip(k) =~= seq![ps[k]] + ps.skip(k + 1));
        law_positions_part_in_order(ps.take(k), ps.skip(k), slug);
        law_positions_part_in_order(seq![ps[k]], ps.skip(k + 1), slug);
        law_position_is_of_its_event(ps[k], slug);
    }
}

/// One answer settles its own event with its own prices, or nothing.
pub proof fn law_one_answer(account: Account, reply: Reply)
    ensures
        ({
            let r = round(account, seq![reply], 1);
            let slug = reply.event_slug@;
            if has_position(account, slug) && is_resolved(reply) {
                let qs = quotes_of(reply.status->0);
                &&& r.account == settled(account, slug, qs)
                &&& r.total_credit == credit(of_event(account.open_positions, slug), qs)
                &&& r.events_resolved == 1
                &&& r.positions_settled == of_event(account.open_positions, slug).len()
                &&& r.records == seq![settlement_record(account, slug, qs)]
            } else {
                &&& r.account == account
                &&& r.total_credit == 0
                &&& r.events_resolved == 0
                &&& r.positions_settled == 0
                &&& r.records.len() == 0
            }
        }),
{
    reveal_with_fuel(round, 2);
    let slug = reply.event_slug@;
    let qs = quotes_of(reply.status->0);
    assert(Seq::<crate::log::Record>::empty().push(settlement_record(account, slug, qs)) =~= seq![
        settlement_record(account, slug, qs),
    ]);
}

proof fn lemma_round_prefix(account: Account, a: Seq<Reply>, b: Seq<Reply>, i: int)
    requires
        i <= a.len(),
        i <= b.len(),
        forall|k: int| 0 <= k < i ==> a[k] == b[k],
    ensures
        round(account, a, i) == round(account, b, i),
    decreases i,
{
    if i > 0 {
        lemma_round_prefix(account, a, b, i - 1);
        assert(a[i - 1] == b[i - 1]);
    }
}

/// Answers are taken one after the other: two runs of them do to the account what the one
/// does and then the other, and resolve, close and record what both do.
pub proof fn law_rounds_compose(account: Account, a: Seq<Reply>, b: Seq<Reply>)
    ensures
        ({
            let first = round(account, a, a.len() as int);
            let second = round(first.account, b, b.len() as int);
            let both = round(account, a + b, (a + b).len() as int);
            &&& both.account == second.account
            &&& both.events_resolved == first.events_resolved + second.events_resolved
            &&& both.positions_settled == first.positions_settled + second.positions_settled
            &&& both.records == first.records + second.records
        }),
    decreases b.len(),
{
    let first = round(account, a, a.len() as int);
    let n = (a + b).len() as int;
    if b.len() > 0 {
        let head = b.drop_last();
        law_rounds_compose(account, a, head);
        lemma_round_prefix(account, a + head, a + b, n - 1);
        lemma_round_prefix(first.account, head, b, b.len() - 1);
        assert((a + b)[n - 1] == b[b.len() - 1]);
    } else {
        assert(a + b =~= a);
    }
    assert(round(account, a + b, n).records =~= first.records + round(
        first.account,
        b,
        b.len() as int,
    ).records);
}

/// Where several buckets have one label, a share pays the most that one of their first
/// prices gives, and never more than one.
pub proof fn law_payout_is_the_most(qs: Seq<Quote>, label: Seq<char>)
    ensures
        0 <= payout(qs, label) <= ONE,
        forall|i: int, r: Reading|
            0 <= i < qs.len() && #[trigger] lists_first(qs[i], r) && qs[i].label == label ==> payout(
                qs,
                label,
            ) >= (if r.amount > ONE {
                ONE
            } else {
                r.amount
            }),
        payout(qs, label) > 0 ==> exists|i: int, r: Reading|
            0 <= i < qs.len() && #[trigger] lists_first(qs[i], r) && qs[i].label == label && payout(
                qs,
                label,
            ) == (if r.amount > ONE {
                ONE
            } else {
                r.amount
            }),
    decreases qs.len(),
{
    if qs.len() > 0 {
        let head = qs.drop_last();
        let last = qs.last();
        law_payout_is_the_most(head, label);
        super::settlements::lemma_payout_range(qs, label);
        assert forall|i: int, r: Reading|
            0 <= i < qs.len() && #[trigger] lists_first(qs[i], r) && qs[i].label == label implies payout(
            qs,
            label,
        ) >= (if r.amount > ONE {
            ONE
        } else {
            r.amount
        }) by {
            lemma_reading_sign(qs[i].prices[0]);
            if i < head.len() {
                assert(lists_first(head[i], r));
            } else {
                assert(yes_price(last) == Some(r));
            }
        }
        if payout(qs, label) > 0 {
            if payout(qs, label) == payout(head, label) {
                let (i, r) = choose|i: int, r: Reading|
                    0 <= i < head.len() && #[trigger] lists_first(head[i], r) && head[i].label
                        == label && payout(head, label) == (if r.amount > ONE {
                        ONE
                    } else {
                        r.amount
                    });
                assert(lists_first(qs[i], r));
            } else {
                let r = yes_price(last)->0;
                assert(lists_first(qs[qs.len() - 1], r));
            }
        }
    }
}

} // verus!
