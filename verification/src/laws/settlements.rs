//! Settlement of resolved events.

use super::books::{lemma_product_shrinks, lemma_quotient_product};
use super::cycles::{
    balanced, fits, lemma_shares_together, positions_are_open, shares_in, shares_not_negative,
};
use crate::account::{Account, Position};
use crate::amount::{Amount, ONE, product, saturate};
use crate::settle::{
    Quote, Reply, Round, credit, distinct_slugs, has_position, is_resolved, of_event, of_others,
    payout, quotes_of, round, settled, settles, share_value, without, yes_price,
};
use vstd::prelude::*;

verus! {

/// The positions of an event are of it, those of others are not.
pub proof fn lemma_split(ps: Seq<Position>, slug: Seq<char>)
    ensures
        forall|i: int|
            0 <= i < of_event(ps, slug).len() ==> (#[trigger] of_event(ps, slug)[i]).event_slug
                == slug,
        forall|i: int|
            0 <= i < of_others(ps, slug).len() ==> (#[trigger] of_others(ps, slug)[i]).event_slug
                != slug,
        forall|i: int|
            0 <= i < of_others(ps, slug).len() ==> ps.contains(#[trigger] of_others(ps, slug)[i]),
        forall|i: int|
            0 <= i < of_event(ps, slug).len() ==> ps.contains(#[trigger] of_event(ps, slug)[i]),
        of_event(ps, slug).to_multiset().add(of_others(ps, slug).to_multiset()) == ps.to_multiset(),
    decreases ps.len(),
{
    broadcast use vstd::seq_lib::group_to_multiset_ensures;

    if ps.len() > 0 {
        let head = ps.drop_last();
        lemma_split(head, slug);
        assert(head.push(ps.last()) =~= ps);
        assert(of_event(ps, slug).to_multiset().add(of_others(ps, slug).to_multiset())
            =~= ps.to_multiset());
        assert forall|i: int| 0 <= i < of_others(ps, slug).len() implies ps.contains(
            #[trigger] of_others(ps, slug)[i],
        ) by {
            let p = of_others(ps, slug)[i];
            if i < of_others(head, slug).len() {
                assert(head.contains(of_others(head, slug)[i]));
                let k = choose|k: int| 0 <= k < head.len() && head[k] == p;
                assert(ps[k] == p);
            } else {
                assert(ps[ps.len() - 1] == p);
            }
        }
        assert forall|i: int| 0 <= i < of_event(ps, slug).len() implies ps.contains(
            #[trigger] of_event(ps, slug)[i],
        ) by {
            let p = of_event(ps, slug)[i];
            if i < of_event(head, slug).len() {
                assert(head.contains(of_event(head, slug)[i]));
                let k = choose|k: int| 0 <= k < head.len() && head[k] == p;
                assert(ps[k] == p);
            } else {
                assert(ps[ps.len() - 1] == p);
            }
        }
    } else {
        assert(of_event(ps, slug).to_multiset().add(of_others(ps, slug).to_multiset())
            =~= ps.to_multiset());
    }
}

proof fn lemma_without(slugs: Seq<Seq<char>>, slug: Seq<char>)
    ensures
        !without(slugs, slug).contains(slug),
        forall|s: Seq<char>|
            s != slug ==> (#[trigger] without(slugs, slug).contains(s) <==> slugs.contains(s)),
        without(slugs, slug).len() <= slugs.len(),
    decreases slugs.len(),
{
    if slugs.len() > 0 {
        let head = slugs.drop_last();
        let rest = without(head, slug);
        lemma_without(head, slug);
        assert forall|s: Seq<char>| s != slug implies (#[trigger] without(slugs, slug).contains(s)
            <==> slugs.contains(s)) by {
            assert(slugs.contains(s) <==> head.contains(s) || slugs.last() == s) by {
                if slugs.contains(s) {
                    let k = choose|k: int| 0 <= k < slugs.len() && slugs[k] == s;
                    if k < head.len() {
                        assert(head[k] == s);
                    }
                }
                if head.contains(s) {
                    let k = choose|k: int| 0 <= k < head.len() && head[k] == s;
                    assert(slugs[k] == s);
                }
                if slugs.last() == s {
                    assert(slugs[slugs.len() - 1] == s);
                }
            }
            if slugs.last() != slug {
                let full = rest.push(slugs.last());
                assert(full.contains(s) <==> rest.contains(s) || slugs.last() == s) by {
                    if full.contains(s) {
                        let k = choose|k: int| 0 <= k < full.len() && full[k] == s;
                        if k < rest.len() {
                            assert(rest[k] == s);
                        }
                    }
                    if rest.contains(s) {
                        let k = choose|k: int| 0 <= k < rest.len() && rest[k] == s;
                        assert(full[k] == s);
                    }
                    if slugs.last() == s {
                        assert(full[full.len() - 1] == s);
                    }
                }
            }
            assert(rest.contains(s) <==> head.contains(s));
        }
        assert(!without(slugs, slug).contains(slug)) by {
            if slugs.last() != slug {
                let full = rest.push(slugs.last());
                if full.contains(slug) {
                    let k = choose|k: int| 0 <= k < full.len() && full[k] == slug;
                    assert(rest[k] == slug);
                    assert(rest.contains(slug));
                }
            }
        }
    }
}

/// Settling an event closes it: no position of it stays open, and it no longer
/// counts as an open event.
pub proof fn law_settlement_closes_event(account: Account, slug: Seq<char>, qs: Seq<Quote>)
    ensures
        ({
            let after = settled(account, slug, qs);
            &&& forall|i: int|
                0 <= i < after.open_positions.len() ==> (
                #[trigger] after.open_positions[i]).event_slug != slug
            &&& !after.open_event_slugs.contains(slug)
            &&& after.open_event_slugs.len() <= account.open_event_slugs.len()
        }),
{
    lemma_split(account.open_positions, slug);
    lemma_without(account.open_event_slugs, slug);
}

proof fn lemma_others_untouched(ps: Seq<Position>, slug: Seq<char>, other: Seq<char>)
    requires
        other != slug,
    ensures
        of_event(of_others(ps, slug), other) == of_event(ps, other),
    decreases ps.len(),
{
    if ps.len() > 0 {
        let head = ps.drop_last();
        lemma_others_untouched(head, slug, other);
        if ps.last().event_slug != slug {
            assert(of_others(head, slug).push(ps.last()).drop_last() =~= of_others(head, slug));
        }
    }
}

/// Settling an event leaves other events alone: their positions stay open in
/// their order, and they stay open events.
pub proof fn law_settlement_leaves_others(
    account: Account,
    slug: Seq<char>,
    qs: Seq<Quote>,
    other: Seq<char>,
)
    requires
        other != slug,
    ensures
        of_event(settled(account, slug, qs).open_positions, other) == of_event(
            account.open_positions,
            other,
        ),
        settled(account, slug, qs).open_event_slugs.contains(other)
            <==> account.open_event_slugs.contains(other),
{
    lemma_others_untouched(account.open_positions, slug, other);
    lemma_without(account.open_event_slugs, slug);
}

/// Settling loses no position: each is open or closed afterwards as it was before.
pub proof fn law_settlement_conserves_positions(account: Account, slug: Seq<char>, qs: Seq<Quote>)
    ensures
        ({
            let after = settled(account, slug, qs);
            after.open_positions.to_multiset().add(after.closed_positions.to_multiset())
                == account.open_positions.to_multiset().add(account.closed_positions.to_multiset())
        }),
{
    let closing = of_event(account.open_positions, slug);
    let after = settled(account, slug, qs);
    lemma_split(account.open_positions, slug);
    vstd::seq_lib::lemma_multiset_commutative(account.closed_positions, closing);
    assert(after.open_positions.to_multiset().add(after.closed_positions.to_multiset())
        =~= account.open_positions.to_multiset().add(account.closed_positions.to_multiset()));
}

proof fn lemma_nothing_left(ps: Seq<Position>, slug: Seq<char>)
    requires
        forall|i: int| 0 <= i < ps.len() ==> (#[trigger] ps[i]).event_slug != slug,
    ensures
        of_event(ps, slug) == Seq::<Position>::empty(),
        of_others(ps, slug) == ps,
    decreases ps.len(),
{
    if ps.len() > 0 {
        let head = ps.drop_last();
        assert forall|i: int| 0 <= i < head.len() implies (#[trigger] head[i]).event_slug
            != slug by {
            assert(ps[i].event_slug != slug);
        }
        lemma_nothing_left(head, slug);
        assert(ps[ps.len() - 1].event_slug != slug);
        assert(head.push(ps.last()) =~= ps);
    }
}

proof fn lemma_without_absent(slugs: Seq<Seq<char>>, slug: Seq<char>)
    requires
        !slugs.contains(slug),
    ensures
        without(slugs, slug) == slugs,
    decreases slugs.len(),
{
    if slugs.len() > 0 {
        let head = slugs.drop_last();
        assert(!head.contains(slug)) by {
            if head.contains(slug) {
                let k = choose|k: int| 0 <= k < head.len() && head[k] == slug;
                assert(slugs[k] == slug);
            }
        }
        assert(slugs[slugs.len() - 1] != slug);
        lemma_without_absent(head, slug);
        assert(head.push(slugs.last()) =~= slugs);
    }
}

/// An event pays once: settling it again changes nothing.
pub proof fn law_event_pays_once(
    account: Account,
    slug: Seq<char>,
    qs: Seq<Quote>,
    again: Seq<Quote>,
)
    ensures
        settled(settled(account, slug, qs), slug, again) == settled(account, slug, qs),
        credit(of_event(settled(account, slug, qs).open_positions, slug), again) == 0,
{
    let once = settled(account, slug, qs);
    law_settlement_closes_event(account, slug, qs);
    lemma_nothing_left(once.open_positions, slug);
    lemma_without_absent(once.open_event_slugs, slug);
    assert(settled(once, slug, again) =~= once);
}

/// Settling keeps an account balanced.
pub proof fn law_settlement_keeps_balance(account: Account, slug: Seq<char>, qs: Seq<Quote>)
    requires
        balanced(account),
        ({
            let pay = credit(of_event(account.open_positions, slug), qs);
            fits(account.bankroll_usdc + pay) && fits(account.cum_realized_pnl + pay)
        }),
    ensures
        balanced(settled(account, slug, qs)),
        settled(account, slug, qs).bankroll_usdc == account.bankroll_usdc + credit(
            of_event(account.open_positions, slug),
            qs,
        ),
{
}

/// Settling leaves every open position in an open event.
pub proof fn law_settlement_keeps_positions_open(account: Account, slug: Seq<char>, qs: Seq<Quote>)
    requires
        positions_are_open(account),
    ensures
        positions_are_open(settled(account, slug, qs)),
{
    let after = settled(account, slug, qs);
    lemma_split(account.open_positions, slug);
    lemma_without(account.open_event_slugs, slug);
    assert forall|i: int| 0 <= i < after.open_positions.len() implies after.open_event_slugs.contains(
        (#[trigger] after.open_positions[i]).event_slug,
    ) by {
        let p = after.open_positions[i];
        assert(account.open_positions.contains(p));
        let k = choose|k: int| 0 <= k < account.open_positions.len() && account.open_positions[k] == p;
        assert(account.open_event_slugs.contains(account.open_positions[k].event_slug));
        assert(p.event_slug != slug);
    }
}

/// What a bucket pays is what its price pays, or nothing.
proof fn lemma_payout(qs: Seq<Quote>, label: Seq<char>, price: Amount)
    requires
        price >= 0,
        forall|i: int|
            0 <= i < qs.len() && (#[trigger] qs[i]).label == label && yes_price(qs[i]) is Some
                ==> share_value(yes_price(qs[i])->0) == price,
    ensures
        payout(qs, label) == 0 || payout(qs, label) == price,
        (exists|i: int|
            0 <= i < qs.len() && (#[trigger] qs[i]).label == label && yes_price(qs[i]) is Some)
            ==> payout(qs, label) == price,
    decreases qs.len(),
{
    if qs.len() > 0 {
        let head = qs.drop_last();
        assert forall|i: int|
            0 <= i < head.len() && (#[trigger] head[i]).label == label && yes_price(
                head[i],
            ) is Some implies share_value(yes_price(head[i])->0) == price by {
            assert(qs[i].label == label);
        }
        lemma_payout(head, label, price);
        if exists|i: int|
            0 <= i < qs.len() && (#[trigger] qs[i]).label == label && yes_price(qs[i]) is Some {
            let i = choose|i: int|
                0 <= i < qs.len() && (#[trigger] qs[i]).label == label && yes_price(qs[i]) is Some;
            if i < head.len() {
                assert(head[i].label == label);
            }
        }
        assert(qs[qs.len() - 1] == qs.last());
    }
}

/// A share of a bucket pays the outcome price of that bucket: one for a bucket
/// that has won, nothing for one that has lost, and a part for a partial payout. It
/// never pays more than one.
pub proof fn law_share_pays_outcome_price(
    qs: Seq<Quote>,
    label: Seq<char>,
    shares: Amount,
    price: Amount,
)
    requires
        price >= 0,
        exists|i: int|
            0 <= i < qs.len() && (#[trigger] qs[i]).label == label && yes_price(qs[i]) is Some,
        forall|i: int|
            0 <= i < qs.len() && (#[trigger] qs[i]).label == label && yes_price(qs[i]) is Some
                ==> yes_price(qs[i])->0.amount == price,
    ensures
        payout(qs, label) == (if price > ONE {
            ONE
        } else {
            price
        }),
        price >= ONE ==> product(shares, payout(qs, label)) == shares,
        price == 0 ==> product(shares, payout(qs, label)) == 0,
{
    lemma_payout(
        qs,
        label,
        if price > ONE {
            ONE
        } else {
            price
        },
    );
    lemma_quotient_product(shares as int, ONE as int);
    lemma_quotient_product(0, ONE as int);
    assert(shares * 0 == 0 * ONE);
}

/// What the first `i` answers credit, without saturation.
pub open spec fn credited_by(account: Account, replies: Seq<Reply>, i: int) -> int
    decreases i,
{
    if i <= 0 {
        0
    } else {
        let before = round(account, replies, i - 1);
        let reply = replies[i - 1];
        credited_by(account, replies, i - 1) + if settles(before.account, reply) {
            credit(
                of_event(before.account.open_positions, reply.event_slug@),
                quotes_of(reply.status->0),
            ) as int
        } else {
            0
        }
    }
}

/// What a share of a bucket pays lies between nothing and one.
pub proof fn lemma_payout_range(qs: Seq<Quote>, label: Seq<char>)
    ensures
        0 <= payout(qs, label) <= ONE,
    decreases qs.len(),
{
    if qs.len() > 0 {
        lemma_payout_range(qs.drop_last(), label);
    }
}

/// Positions pay between nothing and the number of their shares.
pub proof fn law_credit_is_bounded(ps: Seq<Position>, qs: Seq<Quote>)
    requires
        shares_not_negative(ps),
    ensures
        0 <= credit(ps, qs) <= shares_in(ps),
    decreases ps.len(),
{
    if ps.len() > 0 {
        let head = ps.drop_last();
        assert(shares_not_negative(head)) by {
            assert forall|i: int| 0 <= i < head.len() implies (#[trigger] head[i]).shares_held
                >= 0 by {
                assert(ps[i].shares_held >= 0);
            }
        }
        law_credit_is_bounded(head, qs);
        let p = ps.last();
        assert(ps[ps.len() - 1].shares_held >= 0);
        lemma_payout_range(qs, p.bucket_label);
        lemma_product_shrinks(p.shares_held, payout(qs, p.bucket_label));
    }
}

/// The positions of one event, and those of others, are not negative where none is.
pub proof fn lemma_split_not_negative(ps: Seq<Position>, slug: Seq<char>)
    requires
        shares_not_negative(ps),
    ensures
        shares_not_negative(of_event(ps, slug)),
        shares_not_negative(of_others(ps, slug)),
{
    lemma_split(ps, slug);
    let a = of_event(ps, slug);
    let b = of_others(ps, slug);
    assert forall|i: int| 0 <= i < a.len() implies (#[trigger] a[i]).shares_held >= 0 by {
        assert(ps.contains(a[i]));
        let k = choose|k: int| 0 <= k < ps.len() && ps[k] == a[i];
        assert(ps[k].shares_held >= 0);
    }
    assert forall|i: int| 0 <= i < b.len() implies (#[trigger] b[i]).shares_held >= 0 by {
        assert(ps.contains(b[i]));
        let k = choose|k: int| 0 <= k < ps.len() && ps[k] == b[i];
        assert(ps[k].shares_held >= 0);
    }
}

/// The positions that the first `i` answers close.
pub open spec fn closed_by(account: Account, replies: Seq<Reply>, i: int) -> Seq<Position> {
    round(account, replies, i).account.closed_positions.skip(
        account.closed_positions.len() as int,
    )
}

/// A round of settlements credits between nothing and the number of shares that it
/// closes, reopens nothing, and leaves everything but the bankroll, the realized
/// profit and the positions with their events as it was.
pub proof fn law_round_is_bounded(account: Account, replies: Seq<Reply>, i: int)
    requires
        shares_not_negative(account.open_positions),
    ensures
        ({
            let r = round(account, replies, i);
            &&& 0 <= r.total_credit <= shares_in(closed_by(account, replies, i))
            &&& 0 <= credited_by(account, replies, i) <= shares_in(closed_by(account, replies, i))
            &&& r.account.closed_positions == account.closed_positions + closed_by(
                account,
                replies,
                i,
            )
            &&& shares_not_negative(r.account.open_positions)
            &&& r.account == (Account {
                bankroll_usdc: r.account.bankroll_usdc,
                cum_realized_pnl: r.account.cum_realized_pnl,
                open_event_slugs: r.account.open_event_slugs,
                open_positions: r.account.open_positions,
                closed_positions: r.account.closed_positions,
                ..account
            })
            &&& r.account.bankroll_usdc >= account.bankroll_usdc
            &&& r.account.open_event_slugs.len() <= account.open_event_slugs.len()
        }),
    decreases i,
{
    let closed = account.closed_positions;
    if i > 0 {
        law_round_is_bounded(account, replies, i - 1);
        let before = round(account, replies, i - 1);
        let reply = replies[i - 1];
        if settles(before.account, reply) {
            let slug = reply.event_slug@;
            let qs = quotes_of(reply.status->0);
            let closing = of_event(before.account.open_positions, slug);
            lemma_split_not_negative(before.account.open_positions, slug);
            law_credit_is_bounded(closing, qs);
            law_settlement_closes_event(before.account, slug, qs);
            assert(closed_by(account, replies, i) =~= closed_by(account, replies, i - 1)
                + closing);
            lemma_shares_together(closed_by(account, replies, i - 1), closing);
        }
    } else {
        assert(closed_by(account, replies, i) =~= Seq::empty());
    }
    assert(round(account, replies, i).account.closed_positions =~= closed + closed_by(
        account,
        replies,
        i,
    ));
}

/// The credits of a round grow with every answer.
pub proof fn lemma_credits_grow(account: Account, replies: Seq<Reply>, i: int)
    requires
        shares_not_negative(account.open_positions),
        i > 0,
    ensures
        0 <= credited_by(account, replies, i - 1) <= credited_by(account, replies, i),
{
    law_round_is_bounded(account, replies, i - 1);
    let before = round(account, replies, i - 1);
    let reply = replies[i - 1];
    if settles(before.account, reply) {
        lemma_split_not_negative(before.account.open_positions, reply.event_slug@);
        law_credit_is_bounded(
            of_event(before.account.open_positions, reply.event_slug@),
            quotes_of(reply.status->0),
        );
    }
}

/// What a round of settlements returns is what it adds to the bankroll and to the
/// realized profit. A sum that leaves the range of amounts is brought into it.
pub proof fn law_round_returns_what_it_credits(account: Account, replies: Seq<Reply>, i: int)
    requires
        shares_not_negative(account.open_positions),
    ensures
        ({
            let r = round(account, replies, i);
            let paid = credited_by(account, replies, i);
            &&& r.total_credit == saturate(paid)
            &&& r.account.bankroll_usdc == saturate(account.bankroll_usdc + paid)
            &&& r.account.cum_realized_pnl == saturate(account.cum_realized_pnl + paid)
            &&& fits(paid) && fits(account.bankroll_usdc + paid) && fits(
                account.cum_realized_pnl + paid,
            ) ==> {
                &&& r.total_credit == r.account.bankroll_usdc - account.bankroll_usdc
                &&& r.total_credit == r.account.cum_realized_pnl - account.cum_realized_pnl
            }
        }),
    decreases i,
{
    if i > 0 {
        lemma_credits_grow(account, replies, i);
        law_round_returns_what_it_credits(account, replies, i - 1);
    }
}

/// Whether a position of an event is open does not come back in a round.
proof fn lemma_positions_go(account: Account, replies: Seq<Reply>, j: int, i: int, slug: Seq<char>)
    requires
        j <= i,
        has_position(round(account, replies, i).account, slug),
    ensures
        has_position(round(account, replies, j).account, slug),
    decreases i,
{
    if i > 0 && j < i {
        let before = round(account, replies, i - 1).account;
        let after = round(account, replies, i).account;
        let reply = replies[i - 1];
        if settles(before, reply) {
            lemma_split(before.open_positions, reply.event_slug@);
            let k = choose|k: int|
                0 <= k < after.open_positions.len() && (#[trigger] after.open_positions[k]).event_slug
                    == slug;
            let p = after.open_positions[k];
            assert(before.open_positions.contains(p));
            let m = choose|m: int|
                0 <= m < before.open_positions.len() && before.open_positions[m] == p;
            assert(before.open_positions[m].event_slug == slug);
        }
        lemma_positions_go(account, replies, j, i - 1, slug);
    }
}

/// After a round none of its answers settles anything.
proof fn lemma_answers_are_spent(account: Account, replies: Seq<Reply>, i: int, k: int)
    requires
        0 <= k < i,
    ensures
        !settles(round(account, replies, i).account, replies[k]),
{
    let slug = replies[k].event_slug@;
    let before = round(account, replies, k).account;
    let after = round(account, replies, k + 1).account;
    if settles(round(account, replies, i).account, replies[k]) {
        lemma_positions_go(account, replies, k + 1, i, slug);
        lemma_positions_go(account, replies, k, i, slug);
        law_settlement_closes_event(before, slug, quotes_of(replies[k].status->0));
        let m = choose|m: int|
            0 <= m < after.open_positions.len() && (#[trigger] after.open_positions[m]).event_slug
                == slug;
        assert(after.open_positions[m].event_slug != slug);
    }
}

/// A second round that tells of no event as resolved but those of the first round
/// credits nothing, changes nothing and records nothing, whenever its answers came and
/// whatever else they say.
pub proof fn law_second_round_is_empty(
    account: Account,
    replies: Seq<Reply>,
    again: Seq<Reply>,
    i: int,
)
    requires
        0 <= i <= again.len(),
        forall|k: int|
            0 <= k < i && is_resolved(#[trigger] again[k]) ==> exists|j: int|
                0 <= j < replies.len() && is_resolved(#[trigger] replies[j])
                    && replies[j].event_slug@ == again[k].event_slug@,
    ensures
        ({
            let after = round(account, replies, replies.len() as int).account;
            round(after, again, i) == (Round {
                account: after,
                total_credit: 0,
                events_resolved: 0,
                positions_settled: 0,
                records: Seq::empty(),
            })
        }),
    decreases i,
{
    if i > 0 {
        law_second_round_is_empty(account, replies, again, i - 1);
        if is_resolved(again[i - 1]) {
            let j = choose|j: int|
                0 <= j < replies.len() && is_resolved(#[trigger] replies[j])
                    && replies[j].event_slug@ == again[i - 1].event_slug@;
            lemma_answers_are_spent(account, replies, replies.len() as int, j);
        }
    }
}

/// An answer on an event of which no position is open, or on one that has not
/// resolved, settles nothing.
pub proof fn law_idle_answers_settle_nothing(account: Account, replies: Seq<Reply>, i: int)
    requires
        i > 0,
        !has_position(round(account, replies, i - 1).account, replies[i - 1].event_slug@)
            || !is_resolved(replies[i - 1]),
    ensures
        round(account, replies, i) == round(account, replies, i - 1),
{
}

/// A round of settlements keeps every open position in an open event.
pub proof fn law_round_keeps_positions_open(account: Account, replies: Seq<Reply>, i: int)
    requires
        positions_are_open(account),
    ensures
        positions_are_open(round(account, replies, i).account),
    decreases i,
{
    if i > 0 {
        law_round_keeps_positions_open(account, replies, i - 1);
        let reply = replies[i - 1];
        if settles(round(account, replies, i - 1).account, reply) {
            law_settlement_keeps_positions_open(
                round(account, replies, i - 1).account,
                reply.event_slug@,
                quotes_of(reply.status->0),
            );
        }
    }
}

/// The market service is asked about each event of which a position is open, and
/// about each once.
pub proof fn law_every_open_event_is_asked_once(ps: Seq<Position>)
    ensures
        distinct_slugs(ps).no_duplicates(),
        forall|s: Seq<char>|
            #[trigger] distinct_slugs(ps).contains(s) <==> exists|i: int|
                0 <= i < ps.len() && (#[trigger] ps[i]).event_slug == s,
    decreases ps.len(),
{
    if ps.len() > 0 {
        let head = ps.drop_last();
        let before = distinct_slugs(head);
        let x = ps.last().event_slug;
        law_every_open_event_is_asked_once(head);
        assert forall|s: Seq<char>|
            #[trigger] distinct_slugs(ps).contains(s) <==> exists|i: int|
                0 <= i < ps.len() && (#[trigger] ps[i]).event_slug == s by {
            assert(distinct_slugs(ps).contains(s) <==> before.contains(s) || s == x) by {
                if !before.contains(x) {
                    let full = before.push(x);
                    assert(full[full.len() - 1] == x);
                    if before.contains(s) {
                        let k = choose|k: int| 0 <= k < before.len() && before[k] == s;
                        assert(full[k] == s);
                    }
                    if full.contains(s) {
                        let k = choose|k: int| 0 <= k < full.len() && full[k] == s;
                        if k < before.len() {
                            assert(before[k] == s);
                        }
                    }
                }
            }
            if exists|i: int| 0 <= i < ps.len() && (#[trigger] ps[i]).event_slug == s {
                let i = choose|i: int| 0 <= i < ps.len() && (#[trigger] ps[i]).event_slug == s;
                if i < head.len() {
                    assert(head[i].event_slug == s);
                }
            }
            if before.contains(s) {
                let i = choose|i: int| 0 <= i < head.len() && (#[trigger] head[i]).event_slug == s;
                assert(ps[i].event_slug == s);
            }
            if s == x {
                assert(ps[ps.len() - 1].event_slug == s);
            }
        }
    }
}

/// The market service is asked about the events in the order in which their first
/// positions stand: each event that is asked about has a position before which only
/// positions of events asked about earlier stand.
pub proof fn law_events_are_asked_in_order(ps: Seq<Position>, k: int)
    requires
        0 <= k < distinct_slugs(ps).len(),
    ensures
        exists|n: int|
            #![trigger ps[n]]
            0 <= n < ps.len() && ps[n].event_slug == distinct_slugs(ps)[k] && forall|m: int|
                0 <= m < n ==> distinct_slugs(ps).take(k).contains((#[trigger] ps[m]).event_slug),
    decreases ps.len(),
{
    let head = ps.drop_last();
    let before = distinct_slugs(head);
    let asked = distinct_slugs(ps).take(k);
    law_every_open_event_is_asked_once(head);
    if k < before.len() {
        law_events_are_asked_in_order(head, k);
        assert(asked =~= before.take(k));
        let n = choose|n: int|
            #![trigger head[n]]
            0 <= n < head.len() && head[n].event_slug == before[k] && forall|m: int|
                0 <= m < n ==> before.take(k).contains((#[trigger] head[m]).event_slug);
        assert(ps[n] == head[n]);
        assert forall|m: int| 0 <= m < n implies asked.contains((#[trigger] ps[m]).event_slug) by {
            assert(ps[m] == head[m]);
        }
    } else {
        let n = ps.len() - 1;
        assert(asked =~= before);
        assert(ps[n].event_slug == distinct_slugs(ps)[k]);
        assert forall|m: int| 0 <= m < n implies asked.contains((#[trigger] ps[m]).event_slug) by {
            assert(head[m].event_slug == ps[m].event_slug);
        }
    }
}

} // verus!
