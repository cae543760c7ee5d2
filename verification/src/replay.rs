//! Replaying live events: reading what the market service lists, picking the
//! batch to replay, and building the events.

use crate::dates::{parse_end_date, rfc3339_second, second_or};
use crate::event::{BucketInfo, EventKind, WeatherEvent};
use crate::text::{chars_of, joined, same_text};
use hex::FromHexError;
use vstd::prelude::*;

verus! {

/// How the slug of a temperature event starts.
pub const SLUG_PREFIX: &'static str = "highest-temperature-in-";

/// Seconds of an hour.
pub const HOUR_SECONDS: i64 = 3_600;

/// One market of an event, as the market service lists it.
#[derive(Debug)]
pub struct GammaMarket {
    pub condition_id: String,
    pub question: String,
    pub clob_token_ids: String,
}

/// An event, as the market service lists it.
#[derive(Debug)]
pub struct GammaEvent {
    pub slug: String,
    pub neg_risk: bool,
    pub neg_risk_market_id: Option<String>,
    pub markets: Vec<GammaMarket>,
    pub end_date: Option<String>,
    pub closed: bool,
}

/// What is derived for one bucket: its label and its on-chain identifiers.
#[derive(Debug)]
pub struct BucketIds {
    pub label: String,
    pub condition_id: [u8; 32],
    pub token_id_yes: [u8; 32],
    pub token_id_no: [u8; 32],
}

/// Why an event cannot be built.
#[derive(Debug)]
pub enum ReplayError {
    /// The event has no market identifier.
    NoMarketId { slug: String },
    /// The identifier is not hexadecimal.
    BadHex,
    /// The identifier has the given number of bytes instead of 32.
    WrongLength { got: usize },
}

/// What a hexadecimal digit counts, in either case.
pub open spec fn hex_value(c: char) -> Option<int> {
    if '0' <= c && c <= '9' {
        Some(c as int - '0' as int)
    } else if 'a' <= c && c <= 'f' {
        Some(c as int - 'a' as int + 10)
    } else if 'A' <= c && c <= 'F' {
        Some(c as int - 'A' as int + 10)
    } else {
        None
    }
}

/// The bytes that pairs of hexadecimal digits write.
pub open spec fn hex_bytes(s: Seq<char>) -> Option<Seq<u8>> {
    if s.len() % 2 == 0 && forall|i: int| 0 <= i < s.len() ==> hex_value(#[trigger] s[i]) is Some {
        Some(
            Seq::new(
                s.len() / 2,
                |i: int| (16 * hex_value(s[2 * i])->0 + hex_value(s[2 * i + 1])->0) as u8,
            ),
        )
    } else {
        None
    }
}

/// `hex::FromHexError`, which is not looked into.
#[verifier::external_type_specification]
#[verifier::external_body]
pub struct ExFromHexError(FromHexError);

/// `hex::decode`: the bytes that pairs of hexadecimal digits write, in either
/// case, and an error for everything else.
#[verifier::external_body]
fn hex_decode(s: &str) -> (r: Result<Vec<u8>, FromHexError>)
    ensures
        r is Ok <==> hex_bytes(s@) is Some,
        r matches Ok(v) ==> Some(v@) == hex_bytes(s@),
{
    hex::decode(s)
}

/// A text without the `0x`, and the repetitions of it, that it starts with.
pub open spec fn without_0x(s: Seq<char>) -> Seq<char>
    decreases s.len(),
{
    if s.len() >= 2 && s[0] == '0' && s[1] == 'x' {
        without_0x(s.skip(2))
    } else {
        s
    }
}

/// Reads 32 bytes in hexadecimal, with or without a leading `0x`.
pub fn parse_b256(s: &str) -> (r: Result<[u8; 32], ReplayError>)
    ensures
        match hex_bytes(without_0x(s@)) {
            Some(bytes) => if bytes.len() == 32 {
                r matches Ok(a) && a@ == bytes
            } else {
                r matches Err(ReplayError::WrongLength { got }) && got == bytes.len()
            },
            None => r == Err::<[u8; 32], ReplayError>(ReplayError::BadHex),
        },
{
    let v: Vec<char> = chars_of(s);
    let n: usize = v.len();
    let mut start: usize = 0;
    assert(s@.skip(0) =~= s@);
    while n - start >= 2 && v[start] == '0' && v[start + 1] == 'x'
        invariant
            start <= n,
            n == v@.len(),
            v@ == s@,
            without_0x(s@) == without_0x(s@.skip(start as int)),
        decreases n - start,
    {
        assert(s@.skip(start as int).skip(2) =~= s@.skip(start + 2));
        start = start + 2;
    }
    let digits: &str = s.substring_char(start, n);
    assert(digits@ =~= without_0x(s@));
    match hex_decode(digits) {
        Ok(bytes) => {
            if bytes.len() != 32 {
                return Err(ReplayError::WrongLength { got: bytes.len() });
            }
            let mut out: [u8; 32] = [0;32];
            let mut i: usize = 0;
            while i < 32
                invariant
                    i <= 32,
                    bytes@.len() == 32,
                    forall|j: int| 0 <= j < i ==> out@[j] == bytes@[j],
                decreases 32 - i,
            {
                out[i] = bytes[i];
                i = i + 1;
            }
            assert(out@ =~= bytes@);
            Ok(out)
        },
        Err(_) => Err(ReplayError::BadHex),
    }
}

/// The second at which an event ends, as far as it says.
pub open spec fn end_of(event: GammaEvent) -> i64 {
    match event.end_date {
        Some(s) => second_or(rfc3339_second(s@), 0),
        None => 0,
    }
}

/// Whether a text starts with another.
pub open spec fn starts(s: Seq<char>, prefix: Seq<char>) -> bool {
    s.len() >= prefix.len() && s.take(prefix.len() as int) == prefix
}

/// Whether an event that ends at `end` can be replayed.
pub open spec fn is_candidate(event: GammaEvent, end: i64, earliest_end: i64) -> bool {
    event.neg_risk && event.markets@.len() > 0 && starts(event.slug@, SLUG_PREFIX@) && end
        >= earliest_end
}

/// The indices below `i` of the events that can be replayed.
pub open spec fn candidates(
    events: Seq<GammaEvent>,
    ends: Seq<i64>,
    earliest_end: i64,
    i: int,
) -> Seq<usize>
    decreases i,
{
    if i <= 0 {
        Seq::empty()
    } else {
        let before = candidates(events, ends, earliest_end, i - 1);
        if is_candidate(events[i - 1], ends[i - 1], earliest_end) {
            before.push((i - 1) as usize)
        } else {
            before
        }
    }
}

/// `order` with `k` put behind the last index that does not end later.
pub open spec fn insert_by_end(order: Seq<usize>, ends: Seq<i64>, k: usize) -> Seq<usize>
    decreases order.len(),
{
    if order.len() == 0 || ends[order.last() as int] <= ends[k as int] {
        order.push(k)
    } else {
        insert_by_end(order.drop_last(), ends, k).push(order.last())
    }
}

/// The indices from the soonest end to the latest; those of one end keep their
/// order.
pub open spec fn soonest_first(picks: Seq<usize>, ends: Seq<i64>) -> Seq<usize>
    decreases picks.len(),
{
    if picks.len() == 0 {
        picks
    } else {
        insert_by_end(soonest_first(picks.drop_last(), ends), ends, picks.last())
    }
}

/// The indices of the events that give `end_date` as their end, at most `limit`.
pub open spec fn ending(
    events: Seq<GammaEvent>,
    order: Seq<usize>,
    end_date: Seq<char>,
    limit: int,
) -> Seq<usize>
    decreases order.len(),
{
    if order.len() == 0 {
        order
    } else {
        let before = ending(events, order.drop_last(), end_date, limit);
        let k = order.last();
        if before.len() < limit && events[k as int].end_date is Some
            && events[k as int].end_date->0@ == end_date {
            before.push(k)
        } else {
            before
        }
    }
}

/// The end that the soonest event of an order gives; nothing where there is none.
pub open spec fn target_end(events: Seq<GammaEvent>, order: Seq<usize>) -> Seq<char> {
    if order.len() > 0 && events[order[0] as int].end_date is Some {
        events[order[0] as int].end_date->0@
    } else {
        Seq::empty()
    }
}

/// The events to replay: those that resolve soonest.
#[derive(Debug)]
pub struct ReplayBatch {
    /// The end that all of them give.
    pub target_end: String,
    /// Their indices.
    pub picks: Vec<usize>,
}

/// Whether a text starts with another.
fn has_prefix(s: &str, prefix: &str) -> (r: bool)
    ensures
        r == starts(s@, prefix@),
{
    let v: Vec<char> = chars_of(s);
    let p: Vec<char> = chars_of(prefix);
    if v.len() < p.len() {
        return false;
    }
    let mut i: usize = 0;
    while i < p.len()
        invariant
            i <= p@.len() <= v@.len(),
            v@ == s@,
            p@ == prefix@,
            forall|j: int| 0 <= j < i ==> v@[j] == p@[j],
        decreases p@.len() - i,
    {
        if v[i] != p[i] {
            assert(s@.take(prefix@.len() as int)[i as int] != prefix@[i as int]);
            return false;
        }
        i = i + 1;
    }
    assert(s@.take(prefix@.len() as int) =~= prefix@);
    true
}

/// Puts an index behind the last one that does not end later.
fn place_by_end(order: &mut Vec<usize>, ends: &Vec<i64>, k: usize)
    requires
        k < ends@.len(),
        forall|j: int| 0 <= j < old(order)@.len() ==> (#[trigger] old(order)@[j]) < ends@.len(),
    ensures
        final(order)@ == insert_by_end(old(order)@, ends@, k),
        forall|j: int| 0 <= j < final(order)@.len() ==> (#[trigger] final(order)@[j]) < ends@.len(),
{
    let n: usize = order.len();
    let mut p: usize = n;
    assert(order@.take(n as int) =~= order@);
    assert(insert_by_end(order@, ends@, k) + order@.skip(n as int) =~= insert_by_end(
        order@,
        ends@,
        k,
    ));
    while p > 0 && ends[order[p - 1]] > ends[k]
        invariant
            p <= n == order@.len(),
            k < ends@.len(),
            order@ == old(order)@,
            forall|j: int| 0 <= j < order@.len() ==> (#[trigger] order@[j]) < ends@.len(),
            insert_by_end(order@, ends@, k) == insert_by_end(order@.take(p as int), ends@, k)
                + order@.skip(p as int),
        decreases p,
    {
        proof {
            let head = order@.take(p as int);
            assert(head.drop_last() =~= order@.take(p - 1));
            assert(head.last() == order@[p - 1]);
            assert(insert_by_end(head, ends@, k) + order@.skip(p as int) =~= insert_by_end(
                order@.take(p - 1),
                ends@,
                k,
            ) + order@.skip(p - 1));
        }
        p = p - 1;
    }
    proof {
        let head = order@.take(p as int);
        if p > 0 {
            assert(head.last() == order@[p - 1]);
        }
        assert(order@.insert(p as int, k) =~= head.push(k) + order@.skip(p as int));
    }
    order.insert(p, k);
}

/// Picks the events to replay, given the second at which each ends: of the
/// temperature events that end at `earliest_end` or later, the batch that gives
/// the same end as the soonest, `limit` of them at most.
pub fn select_batch(
    events: &Vec<GammaEvent>,
    ends: &Vec<i64>,
    earliest_end: i64,
    limit: usize,
) -> (r: ReplayBatch)
    requires
        ends@.len() == events@.len(),
    ensures
        ({
            let order = soonest_first(
                candidates(events@, ends@, earliest_end, events@.len() as int),
                ends@,
            );
            &&& r.target_end@ == target_end(events@, order)
            &&& r.picks@ == ending(events@, order, r.target_end@, limit as int)
        }),
{
    let mut order: Vec<usize> = Vec::new();
    let mut i: usize = 0;
    while i < events.len()
        invariant
            i <= events@.len() == ends@.len(),
            order@ == soonest_first(candidates(events@, ends@, earliest_end, i as int), ends@),
            forall|j: int| 0 <= j < order@.len() ==> (#[trigger] order@[j]) < ends@.len(),
        decreases events@.len() - i,
    {
        let e: &GammaEvent = &events[i];
        if e.neg_risk && e.markets.len() > 0 && has_prefix(e.slug.as_str(), SLUG_PREFIX) && ends[i]
            >= earliest_end {
            place_by_end(&mut order, ends, i);
            proof {
                let before = candidates(events@, ends@, earliest_end, i as int);
                assert(before.push(i).drop_last() =~= before);
            }
        }
        i = i + 1;
    }
    let mut target: String = String::new();
    if order.len() > 0 {
        assert(order@[0] < ends@.len());
        if let Some(s) = &events[order[0]].end_date {
            target = s.clone();
        }
    }
    assert(target@ =~= target_end(events@, order@));
    let mut picks: Vec<usize> = Vec::new();
    let mut j: usize = 0;
    assert(order@.take(0) =~= Seq::empty());
    while j < order.len()
        invariant
            j <= order@.len(),
            events@.len() == ends@.len(),
            forall|k: int| 0 <= k < order@.len() ==> (#[trigger] order@[k]) < ends@.len(),
            picks@ == ending(events@, order@.take(j as int), target@, limit as int),
        decreases order@.len() - j,
    {
        let k: usize = order[j];
        assert(order@[j as int] < ends@.len());
        assert(order@.take(j + 1).drop_last() =~= order@.take(j as int));
        if let Some(s) = &events[k].end_date {
            if same_text(s, &target) && picks.len() < limit {
                picks.push(k);
            }
        }
        j = j + 1;
    }
    assert(order@.take(j as int) =~= order@);
    ReplayBatch { target_end: target, picks }
}

/// Picks the events to replay: those that have at least `min_hours_ahead` hours
/// to go and resolve soonest, `limit` of them at most.
pub fn replay_batch(
    events: &Vec<GammaEvent>,
    now_unix: i64,
    min_hours_ahead: i64,
    limit: usize,
) -> (r: ReplayBatch)
    requires
        i64::MIN <= min_hours_ahead * 3_600 <= i64::MAX,
        i64::MIN <= now_unix + min_hours_ahead * 3_600 <= i64::MAX,
    ensures
        ({
            let ends = events@.map_values(|e: GammaEvent| end_of(e));
            let earliest_end = (now_unix + min_hours_ahead * 3_600) as i64;
            let order = soonest_first(
                candidates(events@, ends, earliest_end, events@.len() as int),
                ends,
            );
            &&& r.target_end@ == target_end(events@, order)
            &&& r.picks@ == ending(events@, order, r.target_end@, limit as int)
        }),
{
    let ghost all = events@.map_values(|e: GammaEvent| end_of(e));
    let mut ends: Vec<i64> = Vec::new();
    let mut i: usize = 0;
    while i < events.len()
        invariant
            i <= events@.len(),
            all == events@.map_values(|e: GammaEvent| end_of(e)),
            ends@ == all.take(i as int),
        decreases events@.len() - i,
    {
        let end: i64 = match &events[i].end_date {
            Some(s) => parse_end_date(s.as_str()),
            None => 0,
        };
        assert(all.take(i + 1) =~= all.take(i as int).push(end));
        ends.push(end);
        i = i + 1;
    }
    assert(all.take(i as int) =~= all);
    select_batch(events, &ends, now_unix + min_hours_ahead * HOUR_SECONDS, limit)
}

/// The market identifier of an event, or why there is none.
pub open spec fn is_market_id(event: GammaEvent, r: Result<[u8; 32], ReplayError>) -> bool {
    match event.neg_risk_market_id {
        Some(s) => match hex_bytes(without_0x(s@)) {
            Some(bytes) => if bytes.len() == 32 {
                r matches Ok(a) && a@ == bytes
            } else {
                r matches Err(ReplayError::WrongLength { got }) && got == bytes.len()
            },
            None => r == Err::<[u8; 32], ReplayError>(ReplayError::BadHex),
        },
        None => r matches Err(ReplayError::NoMarketId { slug }) && slug@ == event.slug@,
    }
}

/// The question identifier of a bucket: the market identifier with the number of
/// the bucket in its last byte.
pub open spec fn question_id(market_id: Seq<u8>, i: int) -> Seq<u8> {
    market_id.update(31, (i % 256) as u8)
}

/// Whether bucket `i` of an event is built from the market and what was derived.
pub open spec fn is_bucket(b: BucketInfo, market_id: Seq<u8>, ids: BucketIds, i: int) -> bool {
    &&& b.condition_id == ids.condition_id
    &&& b.question_id@ == question_id(market_id, i)
    &&& b.outcome_index == i % 0x1_0000_0000
    &&& b.bucket_label@ == ids.label@
    &&& b.token_id_yes == ids.token_id_yes
    &&& b.token_id_no == ids.token_id_no
}

impl GammaEvent {
    /// Reads the market identifier.
    pub fn market_id(&self) -> (r: Result<[u8; 32], ReplayError>)
        ensures
            is_market_id(*self, r),
    {
        match &self.neg_risk_market_id {
            Some(s) => parse_b256(s.as_str()),
            None => Err(ReplayError::NoMarketId { slug: self.slug.clone() }),
        }
    }
}

/// Builds an event from its listing. `place` is the city and the resolution date
/// that the slug tells, and `ids` what was derived for each market.
pub fn gamma_to_weather_event(
    ev: &GammaEvent,
    place: Option<(String, String)>,
    ids: &Vec<BucketIds>,
    oracle: [u8; 20],
    detected_at_ns: u64,
) -> (r: Result<WeatherEvent, ReplayError>)
    requires
        ids@.len() == ev.markets@.len(),
    ensures
        r matches Err(e) ==> is_market_id(*ev, Err(e)),
        r matches Ok(w) ==> {
            &&& w.neg_risk_market_id is Some
            &&& is_market_id(*ev, Ok(w.neg_risk_market_id->0))
            &&& w.event_slug@ == ev.slug@
            &&& w.city@ == (match place {
                Some((city, _)) => city@,
                None => Seq::empty(),
            })
            &&& w.resolution_date@ == (match place {
                Some((_, date)) => date@,
                None => Seq::empty(),
            })
            &&& w.kind == EventKind::NegRisk
            &&& w.oracle == oracle
            &&& w.detected_at_ns == detected_at_ns
            &&& w.buckets@.len() == ev.markets@.len()
            &&& forall|i: int|
                0 <= i < w.buckets@.len() ==> is_bucket(
                    #[trigger] w.buckets@[i],
                    w.neg_risk_market_id->0@,
                    ids@[i],
                    i,
                )
        },
{
    let market_id: [u8; 32] = match ev.market_id() {
        Ok(id) => id,
        Err(e) => {
            return Err(e);
        },
    };
    let (city, resolution_date) = match place {
        Some((city, date)) => (city, date),
        None => (String::new(), String::new()),
    };
    let mut buckets: Vec<BucketInfo> = Vec::new();
    let n: usize = ev.markets.len();
    let mut i: usize = 0;
    while i < n
        invariant
            i <= n == ids@.len(),
            buckets@.len() == i,
            forall|j: int|
                0 <= j < i ==> is_bucket(#[trigger] buckets@[j], market_id@, ids@[j], j),
        decreases n - i,
    {
        let mut question_id: [u8; 32] = market_id;
        question_id[31] = (i % 256) as u8;
        let b: BucketInfo = BucketInfo {
            condition_id: ids[i].condition_id,
            question_id,
            outcome_index: (i as u64 % 0x1_0000_0000) as u32,
            bucket_label: ids[i].label.clone(),
            token_id_yes: ids[i].token_id_yes,
            token_id_no: ids[i].token_id_no,
        };
        buckets.push(b);
        i = i + 1;
    }
    Ok(
        WeatherEvent {
            event_slug: ev.slug.clone(),
            city,
            resolution_date,
            kind: EventKind::NegRisk,
            neg_risk_market_id: Some(market_id),
            oracle,
            buckets,
            detected_at_ns,
        },
    )
}

/// Where the market service lists the open weather events.
pub fn listing_url(gamma_url: &str) -> (r: String)
    ensures
        r@ == gamma_url@ + "/events?tag_slug=weather&closed=false&limit=200"@,
{
    joined(gamma_url, "/events?tag_slug=weather&closed=false&limit=200")
}

} // verus!
