//! Picking the events to replay.

use crate::event::BucketInfo;
use crate::replay::{
    BucketIds, GammaEvent, ReplayError, SLUG_PREFIX, candidates, end_of, ending, hex_bytes,
    hex_value, insert_by_end, is_bucket, is_candidate, is_market_id, soonest_first, target_end,
    without_0x,
};
use vstd::prelude::*;

verus! {

/// Whether no index ends sooner than one before it.
pub open spec fn ascending(order: Seq<usize>, ends: Seq<i64>) -> bool {
    forall|i: int, j: int|
        0 <= i < j < order.len() ==> ends[#[trigger] order[i] as int] <= ends[
        #[trigger] order[j] as int]
}

proof fn lemma_insert(order: Seq<usize>, ends: Seq<i64>, k: usize)
    requires
        ascending(order, ends),
    ensures
        ascending(insert_by_end(order, ends, k), ends),
        insert_by_end(order, ends, k).to_multiset() == order.to_multiset().insert(k),
        insert_by_end(order, ends, k).len() == order.len() + 1,
        forall|i: int|
            0 <= i < insert_by_end(order, ends, k).len() ==> ends[#[trigger] insert_by_end(
                order,
                ends,
                k,
            )[i] as int] <= ends[k as int] || order.len() > 0 && ends[insert_by_end(
                order,
                ends,
                k,
            )[i] as int] <= ends[order.last() as int],
    decreases order.len(),
{
    broadcast use vstd::seq_lib::group_to_multiset_ensures;

    let r = insert_by_end(order, ends, k);
    if order.len() == 0 || ends[order.last() as int] <= ends[k as int] {
        assert forall|i: int, j: int| 0 <= i < j < r.len() implies ends[#[trigger] r[i] as int]
            <= ends[#[trigger] r[j] as int] by {
            if j == order.len() && i < order.len() - 1 {
                assert(ends[order[i] as int] <= ends[order[order.len() - 1] as int]);
            }
        }
        assert forall|i: int| 0 <= i < r.len() implies ends[#[trigger] r[i] as int]
            <= ends[k as int] || order.len() > 0 && ends[r[i] as int] <= ends[order.last() as int] by {
            if i < order.len() - 1 {
                assert(ends[order[i] as int] <= ends[order[order.len() - 1] as int]);
            }
        }
    } else {
        let short = order.drop_last();
        let head = insert_by_end(short, ends, k);
        assert(ascending(short, ends)) by {
            assert forall|i: int, j: int| 0 <= i < j < short.len() implies ends[
            #[trigger] short[i] as int] <= ends[#[trigger] short[j] as int] by {
                assert(ends[order[i] as int] <= ends[order[j] as int]);
            }
        }
        lemma_insert(short, ends, k);
        assert forall|i: int| 0 <= i < head.len() implies ends[#[trigger] head[i] as int]
            <= ends[order.last() as int] by {
            if short.len() > 0 {
                assert(ends[order[short.len() - 1] as int] <= ends[order[order.len() - 1] as int]);
            }
        }
        assert forall|i: int, j: int| 0 <= i < j < r.len() implies ends[#[trigger] r[i] as int]
            <= ends[#[trigger] r[j] as int] by {
            if j < head.len() {
                assert(ends[head[i] as int] <= ends[head[j] as int]);
            } else {
                assert(ends[head[i] as int] <= ends[order.last() as int]);
            }
        }
        assert(short.push(order.last()) =~= order);
        assert(r.to_multiset() =~= order.to_multiset().insert(k));
    }
}

/// Sorting keeps every index, and puts none behind one that ends later.
pub proof fn law_soonest_first_sorts(picks: Seq<usize>, ends: Seq<i64>)
    ensures
        ascending(soonest_first(picks, ends), ends),
        soonest_first(picks, ends).to_multiset() == picks.to_multiset(),
    decreases picks.len(),
{
    broadcast use vstd::seq_lib::group_to_multiset_ensures;

    if picks.len() > 0 {
        law_soonest_first_sorts(picks.drop_last(), ends);
        lemma_insert(soonest_first(picks.drop_last(), ends), ends, picks.last());
        assert(picks.drop_last().push(picks.last()) =~= picks);
    }
}

proof fn lemma_candidates(events: Seq<GammaEvent>, ends: Seq<i64>, earliest_end: i64, i: int)
    requires
        0 <= i <= events.len() <= usize::MAX,
    ensures
        forall|k: usize|
            #[trigger] candidates(events, ends, earliest_end, i).contains(k) <==> k < i
                && is_candidate(events[k as int], ends[k as int], earliest_end),
    decreases i,
{
    if i > 0 {
        lemma_candidates(events, ends, earliest_end, i - 1);
        let before = candidates(events, ends, earliest_end, i - 1);
        let last = (i - 1) as usize;
        let full = before.push(last);
        assert forall|k: usize|
            #[trigger] candidates(events, ends, earliest_end, i).contains(k) <==> k < i
                && is_candidate(events[k as int], ends[k as int], earliest_end) by {
            assert(full.contains(k) <==> before.contains(k) || k == last) by {
                if full.contains(k) {
                    let j = choose|j: int| 0 <= j < full.len() && full[j] == k;
                    if j < before.len() {
                        assert(before[j] == k);
                    }
                }
                if before.contains(k) {
                    let j = choose|j: int| 0 <= j < before.len() && before[j] == k;
                    assert(full[j] == k);
                }
                if k == last {
                    assert(full[full.len() - 1] == k);
                }
            }
        }
    }
}

proof fn lemma_ending(
    events: Seq<GammaEvent>,
    order: Seq<usize>,
    end_date: Seq<char>,
    limit: int,
)
    requires
        limit >= 0,
    ensures
        ({
            let picks = ending(events, order, end_date, limit);
            &&& picks.len() <= limit
            &&& forall|i: int|
                0 <= i < picks.len() ==> order.contains(#[trigger] picks[i])
                    && events[picks[i] as int].end_date is Some
                    && events[picks[i] as int].end_date->0@ == end_date
            &&& limit > 0 && order.len() > 0 && events[order[0] as int].end_date is Some
                && events[order[0] as int].end_date->0@ == end_date ==> picks.len() > 0
                && picks[0] == order[0]
        }),
    decreases order.len(),
{
    if order.len() > 0 {
        let head = order.drop_last();
        lemma_ending(events, head, end_date, limit);
        let picks = ending(events, order, end_date, limit);
        let before = ending(events, head, end_date, limit);
        assert forall|i: int| 0 <= i < picks.len() implies order.contains(#[trigger] picks[i])
            && events[picks[i] as int].end_date is Some && events[picks[i] as int].end_date->0@
            == end_date by {
            if i < before.len() {
                assert(head.contains(before[i]));
                let j = choose|j: int| 0 <= j < head.len() && head[j] == before[i];
                assert(order[j] == picks[i]);
            } else {
                assert(order[order.len() - 1] == picks[i]);
            }
        }
    }
}

/// The batch to replay is the one that resolves soonest: it has at most `limit`
/// events, all of them can be replayed and give the same end, the soonest is
/// among them, and no event that can be replayed ends sooner.
pub proof fn law_batch_resolves_soonest(
    events: Seq<GammaEvent>,
    ends: Seq<i64>,
    earliest_end: i64,
    limit: int,
)
    requires
        limit >= 0,
        events.len() == ends.len(),
        events.len() <= usize::MAX,
        // An end is a matter of the text that gives it.
        forall|i: int, j: int|
            0 <= i < events.len() && 0 <= j < events.len() && (#[trigger] events[i]).end_date is Some
                && (#[trigger] events[j]).end_date is Some && events[i].end_date->0@
                == events[j].end_date->0@ ==> ends[i] == ends[j],
    ensures
        ({
            let order = soonest_first(
                candidates(events, ends, earliest_end, events.len() as int),
                ends,
            );
            let picks = ending(events, order, target_end(events, order), limit);
            &&& picks.len() <= limit
            &&& forall|i: int|
                0 <= i < picks.len() ==> (#[trigger] picks[i]) < events.len() && is_candidate(
                    events[picks[i] as int],
                    ends[picks[i] as int],
                    earliest_end,
                )
            &&& order.len() > 0 && events[order[0] as int].end_date is Some ==> {
                &&& limit > 0 ==> picks.len() > 0 && picks[0] == order[0]
                &&& forall|i: int, c: int|
                    0 <= i < picks.len() && 0 <= c < events.len() && is_candidate(
                        #[trigger] events[c],
                        ends[c],
                        earliest_end,
                    ) ==> ends[#[trigger] picks[i] as int] <= ends[c]
            }
        }),
{
    broadcast use vstd::seq_lib::group_to_multiset_ensures;

    let all = candidates(events, ends, earliest_end, events.len() as int);
    let order = soonest_first(all, ends);
    let target = target_end(events, order);
    let picks = ending(events, order, target, limit);
    law_soonest_first_sorts(all, ends);
    lemma_candidates(events, ends, earliest_end, events.len() as int);
    lemma_ending(events, order, target, limit);
    assert forall|i: int| 0 <= i < picks.len() implies (#[trigger] picks[i]) < events.len()
        && is_candidate(events[picks[i] as int], ends[picks[i] as int], earliest_end) by {
        assert(order.contains(picks[i]));
        assert(all.to_multiset().count(picks[i]) > 0);
        assert(all.contains(picks[i]));
    }
    if order.len() > 0 && events[order[0] as int].end_date is Some {
        assert(order.contains(order[0]));
        assert(all.to_multiset().count(order[0]) > 0);
        assert(all.contains(order[0]));
        assert forall|i: int, c: int|
            0 <= i < picks.len() && 0 <= c < events.len() && is_candidate(
                #[trigger] events[c],
                ends[c],
                earliest_end,
            ) implies ends[#[trigger] picks[i] as int] <= ends[c] by {
            assert(all.contains(c as usize));
            assert(order.to_multiset().count(c as usize) > 0);
            assert(order.contains(c as usize));
            let j = choose|j: int| 0 <= j < order.len() && order[j] == c as usize;
            if j > 0 {
                assert(ends[order[0] as int] <= ends[order[j] as int]);
            }
            assert(events[picks[i] as int].end_date->0@ == target);
            assert(ends[picks[i] as int] == ends[order[0] as int]);
        }
    }
}

/// An event can be replayed exactly where its buckets exclude each other, it has some, it
/// ends late enough, and its slug is that of a temperature event.
pub proof fn law_temperature_events_are_replayed(event: GammaEvent, end: i64, earliest_end: i64)
    ensures
        is_candidate(event, end, earliest_end) <==> {
            &&& event.neg_risk
            &&& event.markets@.len() > 0
            &&& end >= earliest_end
            &&& exists|rest: Seq<char>| event.slug@ == #[trigger] ("highest-temperature-in-"@ + rest)
        },
{
    let prefix = "highest-temperature-in-"@;
    assert(SLUG_PREFIX@ == prefix);
    if exists|rest: Seq<char>| event.slug@ == #[trigger] (prefix + rest) {
        let rest = choose|rest: Seq<char>| event.slug@ == #[trigger] (prefix + rest);
        assert((prefix + rest).take(prefix.len() as int) =~= prefix);
    }
    if event.slug@.len() >= prefix.len() && event.slug@.take(prefix.len() as int) == prefix {
        let rest = event.slug@.skip(prefix.len() as int);
        assert(event.slug@ =~= prefix + rest);
    }
}

/// An event ends at the second that its text writes, and long ago where it writes none.
pub proof fn law_ends_are_read(event: GammaEvent)
    ensures
        event.end_date is None ==> end_of(event) == 0,
        event.end_date matches Some(s) ==> match crate::dates::rfc3339_second(s@) {
            Some(t) => end_of(event) == t,
            None => end_of(event) == 0,
        },
{
}

/// Whether indices stand in the order of their ends, and those of one end in their own.
spec fn in_order(order: Seq<usize>, ends: Seq<i64>) -> bool {
    forall|i: int, j: int|
        0 <= i < j < order.len() ==> {
            ||| ends[(#[trigger] order[i]) as int] < ends[(#[trigger] order[j]) as int]
            ||| ends[order[i] as int] == ends[order[j] as int] && order[i] < order[j]
        }
}

proof fn lemma_insert_in_order(order: Seq<usize>, ends: Seq<i64>, k: usize)
    requires
        in_order(order, ends),
        forall|i: int| 0 <= i < order.len() ==> (#[trigger] order[i]) < k,
    ensures
        in_order(insert_by_end(order, ends, k), ends),
        forall|i: int|
            0 <= i < insert_by_end(order, ends, k).len() ==> (#[trigger] insert_by_end(
                order,
                ends,
                k,
            )[i]) == k || order.contains(insert_by_end(order, ends, k)[i]),
    decreases order.len(),
{
    let all = insert_by_end(order, ends, k);
    if order.len() == 0 || ends[order.last() as int] <= ends[k as int] {
        assert forall|i: int| 0 <= i < all.len() implies (#[trigger] all[i]) == k
            || order.contains(all[i]) by {
            if i < order.len() {
                assert(all[i] == order[i]);
            }
        }
        assert forall|i: int, j: int| 0 <= i < j < all.len() implies {
            ||| ends[(#[trigger] all[i]) as int] < ends[(#[trigger] all[j]) as int]
            ||| ends[all[i] as int] == ends[all[j] as int] && all[i] < all[j]
        } by {
            assert(all[i] == order[i]);
            if j < order.len() {
                assert(all[j] == order[j]);
            } else {
                assert(order[i] < k);
                let m = order.len() - 1;
                if i < m {
                    assert(ends[order[i] as int] <= ends[order[m] as int]);
                }
            }
        }
    } else {
        let head = order.drop_last();
        assert forall|i: int| 0 <= i < head.len() implies (#[trigger] head[i]) < k by {
            assert(order[i] < k);
        }
        assert(in_order(head, ends)) by {
            assert forall|i: int, j: int| 0 <= i < j < head.len() implies {
                ||| ends[(#[trigger] head[i]) as int] < ends[(#[trigger] head[j]) as int]
                ||| ends[head[i] as int] == ends[head[j] as int] && head[i] < head[j]
            } by {
                assert(order[i] == head[i] && order[j] == head[j]);
            }
        }
        lemma_insert_in_order(head, ends, k);
        let rest = insert_by_end(head, ends, k);
        assert forall|i: int| 0 <= i < all.len() implies (#[trigger] all[i]) == k
            || order.contains(all[i]) by {
            if i < rest.len() {
                assert(all[i] == rest[i]);
                if rest[i] != k {
                    let m = choose|m: int| 0 <= m < head.len() && head[m] == rest[i];
                    assert(order[m] == all[i]);
                }
            } else {
                assert(all[i] == order[order.len() - 1]);
            }
        }
        assert forall|i: int, j: int| 0 <= i < j < all.len() implies {
            ||| ends[(#[trigger] all[i]) as int] < ends[(#[trigger] all[j]) as int]
            ||| ends[all[i] as int] == ends[all[j] as int] && all[i] < all[j]
        } by {
            assert(all[i] == rest[i]);
            if j < rest.len() {
                assert(all[j] == rest[j]);
            } else if rest[i] != k {
                let m = choose|m: int| 0 <= m < head.len() && head[m] == rest[i];
                assert(order[m] == rest[i] && order[order.len() - 1] == all[j]);
            }
        }
    }
}

proof fn lemma_candidates_rise(
    events: Seq<GammaEvent>,
    ends: Seq<i64>,
    earliest_end: i64,
    i: int,
)
    requires
        0 <= i <= events.len() <= usize::MAX,
    ensures
        in_order(soonest_first(candidates(events, ends, earliest_end, i), ends), ends),
        forall|k: int|
            0 <= k < soonest_first(candidates(events, ends, earliest_end, i), ends).len()
                ==> #[trigger] soonest_first(candidates(events, ends, earliest_end, i), ends)[k]
                < i,
    decreases i,
{
    if i > 0 {
        lemma_candidates_rise(events, ends, earliest_end, i - 1);
        let before = candidates(events, ends, earliest_end, i - 1);
        let last = (i - 1) as usize;
        if is_candidate(events[i - 1], ends[i - 1], earliest_end) {
            assert(before.push(last).drop_last() =~= before);
            let sorted = soonest_first(before, ends);
            lemma_insert_in_order(sorted, ends, last);
            let all = insert_by_end(sorted, ends, last);
            assert forall|k: int| 0 <= k < all.len() implies (#[trigger] all[k]) < i by {
                if all[k] != last {
                    let m = choose|m: int| 0 <= m < sorted.len() && sorted[m] == all[k];
                    assert(sorted[m] < i - 1);
                }
            }
        }
    }
}

/// Indices that are picked keep their order, and none that fits is left out as long as
/// there is room.
proof fn lemma_ending_keeps(
    events: Seq<GammaEvent>,
    order: Seq<usize>,
    ends: Seq<i64>,
    end_date: Seq<char>,
    limit: int,
)
    requires
        in_order(order, ends),
    ensures
        in_order(ending(events, order, end_date, limit), ends),
        forall|i: int|
            0 <= i < ending(events, order, end_date, limit).len() ==> order.contains(
                #[trigger] ending(events, order, end_date, limit)[i],
            ),
        ending(events, order, end_date, limit).len() < limit ==> forall|i: int|
            0 <= i < order.len() && events[(#[trigger] order[i]) as int].end_date is Some
                && events[order[i] as int].end_date->0@ == end_date ==> ending(
                events,
                order,
                end_date,
                limit,
            ).contains(order[i]),
    decreases order.len(),
{
    if order.len() > 0 {
        let head = order.drop_last();
        assert(in_order(head, ends)) by {
            assert forall|i: int, j: int| 0 <= i < j < head.len() implies {
                ||| ends[(#[trigger] head[i]) as int] < ends[(#[trigger] head[j]) as int]
                ||| ends[head[i] as int] == ends[head[j] as int] && head[i] < head[j]
            } by {
                assert(order[i] == head[i] && order[j] == head[j]);
            }
        }
        lemma_ending_keeps(events, head, ends, end_date, limit);
        let before = ending(events, head, end_date, limit);
        let picks = ending(events, order, end_date, limit);
        assert forall|i: int| 0 <= i < picks.len() implies order.contains(#[trigger] picks[i]) by {
            if i < before.len() {
                assert(head.contains(before[i]));
                let m = choose|m: int| 0 <= m < head.len() && head[m] == before[i];
                assert(order[m] == picks[i]);
            } else {
                assert(order[order.len() - 1] == picks[i]);
            }
        }
        assert forall|i: int, j: int| 0 <= i < j < picks.len() implies {
            ||| ends[(#[trigger] picks[i]) as int] < ends[(#[trigger] picks[j]) as int]
            ||| ends[picks[i] as int] == ends[picks[j] as int] && picks[i] < picks[j]
        } by {
            assert(picks[i] == before[i]);
            if j < before.len() {
                assert(picks[j] == before[j]);
            } else {
                assert(head.contains(before[i]));
                let m = choose|m: int| 0 <= m < head.len() && head[m] == before[i];
                assert(order[m] == picks[i] && order[order.len() - 1] == picks[j]);
            }
        }
        if picks.len() < limit {
            assert forall|i: int|
                0 <= i < order.len() && events[(#[trigger] order[i]) as int].end_date is Some
                    && events[order[i] as int].end_date->0@ == end_date implies picks.contains(
                order[i],
            ) by {
                if i < head.len() {
                    assert(head[i] == order[i]);
                    assert(before.contains(head[i]));
                    let m = choose|m: int| 0 <= m < before.len() && before[m] == head[i];
                    assert(picks[m] == order[i]);
                } else {
                    assert(picks[picks.len() - 1] == order[i]);
                }
            }
        }
    }
}

/// The batch to replay has every event that can be replayed and gives its end, as far as
/// the limit goes, in the order in which they are listed, and the first of them where it
/// does not go far enough.
pub proof fn law_batch_is_complete(
    events: Seq<GammaEvent>,
    ends: Seq<i64>,
    earliest_end: i64,
    limit: int,
    k: int,
)
    requires
        limit >= 0,
        events.len() == ends.len(),
        events.len() <= usize::MAX,
        0 <= k < events.len(),
        // An end is a matter of the text that gives it.
        forall|i: int, j: int|
            0 <= i < events.len() && 0 <= j < events.len() && (#[trigger] events[i]).end_date is Some
                && (#[trigger] events[j]).end_date is Some && events[i].end_date->0@
                == events[j].end_date->0@ ==> ends[i] == ends[j],
    ensures
        ({
            let order = soonest_first(
                candidates(events, ends, earliest_end, events.len() as int),
                ends,
            );
            let target = target_end(events, order);
            let picks = ending(events, order, target, limit);
            &&& forall|i: int, j: int|
                0 <= i < j < picks.len() ==> (#[trigger] picks[i]) < (#[trigger] picks[j])
            &&& picks.len() < limit && is_candidate(events[k], ends[k], earliest_end) && (
            events[k].end_date matches Some(s) && s@ == target) ==> picks.contains(k as usize)
            &&& forall|i: int|
                0 <= i < picks.len() ==> (events[(#[trigger] picks[i]) as int].end_date matches Some(
                    s,
                ) && s@ == target)
        }),
{
    broadcast use vstd::seq_lib::group_to_multiset_ensures;

    let all = candidates(events, ends, earliest_end, events.len() as int);
    let order = soonest_first(all, ends);
    let target = target_end(events, order);
    let picks = ending(events, order, target, limit);
    law_soonest_first_sorts(all, ends);
    lemma_candidates(events, ends, earliest_end, events.len() as int);
    lemma_candidates_rise(events, ends, earliest_end, events.len() as int);
    lemma_ending(events, order, target, limit);
    lemma_ending_keeps(events, order, ends, target, limit);
    if is_candidate(events[k], ends[k], earliest_end) {
        assert(all.contains(k as usize));
        assert(order.to_multiset().count(k as usize) > 0);
        assert(order.contains(k as usize));
        let j = choose|j: int| 0 <= j < order.len() && order[j] == k as usize;
        assert(events[order[j] as int] == events[k]);
    }
    assert forall|i: int, j: int| 0 <= i < j < picks.len() implies (#[trigger] picks[i]) < (
    #[trigger] picks[j]) by {
        assert(order.contains(picks[i]) && order.contains(picks[j]));
        let a = choose|a: int| 0 <= a < order.len() && order[a] == picks[i];
        let b = choose|b: int| 0 <= b < order.len() && order[b] == picks[j];
        assert(order[a] < events.len() && order[b] < events.len());
        assert(events[picks[i] as int].end_date is Some);
        assert(events[picks[j] as int].end_date is Some);
        assert(ends[picks[i] as int] == ends[picks[j] as int]);
    }
}

/// The leading `0x` of an identifier does not matter, however often it stands there, and
/// nothing else is taken off.
pub proof fn law_leading_0x_is_dropped(s: Seq<char>)
    ensures
        without_0x(seq!['0', 'x'] + s) == without_0x(s),
        !(s.len() >= 2 && s[0] == '0' && s[1] == 'x') ==> without_0x(s) == s,
{
    let t = seq!['0', 'x'] + s;
    assert(t.skip(2) =~= s);
}

/// Two digits make a byte, the first counting sixteen, and letters count in either case.
pub proof fn law_hex_digits_make_bytes(s: Seq<char>, i: int)
    ensures
        hex_bytes(s) matches Some(b) ==> {
            &&& 2 * b.len() == s.len()
            &&& 0 <= i < b.len() ==> {
                &&& hex_value(s[2 * i]) is Some && hex_value(s[2 * i + 1]) is Some
                &&& b[i] == 16 * hex_value(s[2 * i])->0 + hex_value(s[2 * i + 1])->0
            }
        },
        hex_value('0') == Some(0int),
        hex_value('9') == Some(9int),
        hex_value('a') == Some(10int),
        hex_value('A') == Some(10int),
        hex_value('f') == Some(15int),
        hex_value('F') == Some(15int),
        hex_value('g') is None,
        hex_value('x') is None,
{
    if hex_bytes(s) is Some && 0 <= i < s.len() / 2 {
        assert(hex_value(s[2 * i]) is Some);
        assert(hex_value(s[2 * i + 1]) is Some);
    }
}

/// A market identifier is that of the event itself: the 32 bytes that its text writes in
/// hexadecimal.
pub proof fn law_market_id_is_read(event: GammaEvent, id: [u8; 32])
    ensures
        is_market_id(event, Ok(id)) <==> (event.neg_risk_market_id matches Some(s) && hex_bytes(
            without_0x(s@),
        ) == Some(id@)),
{
    if let Some(s) = event.neg_risk_market_id {
        if hex_bytes(without_0x(s@)) == Some(id@) {
            assert(id@.len() == 32);
        }
    }
}

/// A bucket that is built has what was derived for it, each under its own name, its number
/// in the list, and the identifier of its market with that number in the last byte.
pub proof fn law_buckets_are_built_in_place(
    b: BucketInfo,
    market_id: Seq<u8>,
    ids: BucketIds,
    i: int,
    k: int,
)
    requires
        is_bucket(b, market_id, ids, i),
        market_id.len() == 32,
        0 <= i,
    ensures
        b.condition_id == ids.condition_id,
        b.token_id_yes == ids.token_id_yes,
        b.token_id_no == ids.token_id_no,
        b.bucket_label@ == ids.label@,
        i < 0x1_0000_0000 ==> b.outcome_index == i,
        b.question_id@.len() == 32,
        0 <= k < 31 ==> b.question_id@[k] == market_id[k],
        i < 256 ==> b.question_id@[31] == i,
{
}

/// Why an event has no market identifier: it gives none, what it gives is no hexadecimal, or
/// the digits are not those of 32 bytes, of which half as many bytes are reported.
pub proof fn law_why_no_market_id_is_read(event: GammaEvent, got: usize, slug: String)
    ensures
        is_market_id(event, Err(ReplayError::NoMarketId { slug }))
            <==> event.neg_risk_market_id is None && slug@ == event.slug@,
        is_market_id(event, Err(ReplayError::BadHex)) <==> (event.neg_risk_market_id matches Some(s)
            && hex_bytes(without_0x(s@)) is None),
        is_market_id(event, Err(ReplayError::WrongLength { got })) <==> (
        event.neg_risk_market_id matches Some(s) && hex_bytes(without_0x(s@)) is Some
            && without_0x(s@).len() != 64 && 2 * got == without_0x(s@).len()),
{
}

} // verus!
