//! Picking and building the events of a replay.

use weather_paper::event::EventKind;
use weather_paper::replay::{
    gamma_to_weather_event, listing_url, replay_batch, select_batch, BucketIds, GammaEvent,
    GammaMarket, ReplayError,
};

const NOW: i64 = 1_776_000_000;

fn market() -> GammaMarket {
    GammaMarket {
        condition_id: String::new(),
        question: String::new(),
        clob_token_ids: String::new(),
    }
}

fn listing(slug: &str, end: Option<&str>) -> GammaEvent {
    GammaEvent {
        slug: slug.into(),
        neg_risk: true,
        neg_risk_market_id: None,
        markets: vec![market()],
        end_date: end.map(|s| s.to_string()),
        closed: false,
    }
}

#[test]
fn the_soonest_batch_is_picked() {
    let late = Some("2026-04-14T12:00:00Z");
    let soon = Some("2026-04-13T12:00:00Z");
    let mut loose = listing("highest-temperature-in-e", soon);
    loose.neg_risk = false;
    let mut bare = listing("highest-temperature-in-f", soon);
    bare.markets.clear();
    let events = vec![
        listing("highest-temperature-in-a", late),
        listing("highest-temperature-in-b", soon),
        listing("lowest-temperature-in-c", soon),
        listing("highest-temperature-in-d", soon),
        loose,
        bare,
        listing("highest-temperature-in-g", None),
        listing("highest-temperature-in-h", Some("tomorrow")),
        // The same second, written otherwise.
        listing("highest-temperature-in-i", Some("2026-04-13T14:00:00+02:00")),
        listing("highest-temperature-in-j", soon),
        // Over in less than six hours.
        listing("highest-temperature-in-k", Some("2026-04-12T19:19:59Z")),
    ];
    let batch = replay_batch(&events, NOW, 6, 20);
    assert_eq!(batch.target_end, "2026-04-13T12:00:00Z");
    assert_eq!(batch.picks, vec![1, 3, 9]);
    assert_eq!(replay_batch(&events, NOW, 6, 2).picks, vec![1, 3]);
    assert_eq!(replay_batch(&events, NOW, 24, 20).picks, vec![0]);
    let none = replay_batch(&events, NOW, 100, 20);
    assert_eq!(none.target_end, "");
    assert!(none.picks.is_empty());
    assert_eq!(replay_batch(&events, NOW, 5, 20).picks, vec![10]);
}

#[test]
fn a_batch_goes_by_the_given_ends() {
    let slug = "highest-temperature-in-";
    let events = vec![
        listing(slug, Some("b")),
        listing(slug, Some("a")),
        listing(slug, Some("a")),
        listing(slug, Some("c")),
    ];
    let batch = select_batch(&events, &vec![30, 20, 20, 10], 15, 9);
    assert_eq!(batch.target_end, "a");
    assert_eq!(batch.picks, vec![1, 2]);
    assert_eq!(select_batch(&events, &vec![30, 20, 20, 10], 10, 9).picks, vec![3]);
}

fn ids(n: usize) -> Vec<BucketIds> {
    (0..n)
        .map(|i| BucketIds {
            label: format!("{i}C"),
            condition_id: [i as u8; 32],
            token_id_yes: [1; 32],
            token_id_no: [2; 32],
        })
        .collect()
}

#[test]
fn events_are_built_from_their_listing() {
    let mut ev = listing("highest-temperature-in-lucknow", None);
    ev.neg_risk_market_id = Some(format!("0x{}", "ab".repeat(32)));
    ev.markets = (0..300).map(|_| market()).collect();
    let place = Some(("lucknow".to_string(), "2026-04-15".to_string()));
    let w = gamma_to_weather_event(&ev, place, &ids(300), [7; 20], 42).unwrap();
    assert_eq!(w.event_slug, ev.slug);
    assert_eq!(w.city, "lucknow");
    assert_eq!(w.resolution_date, "2026-04-15");
    assert_eq!(w.kind, EventKind::NegRisk);
    assert_eq!(w.neg_risk_market_id, Some([0xab; 32]));
    assert_eq!(w.oracle, [7; 20]);
    assert_eq!(w.detected_at_ns, 42);
    assert_eq!(w.buckets.len(), 300);
    let mut question_id = [0xab; 32];
    question_id[31] = 3;
    assert_eq!(w.buckets[3].question_id, question_id);
    assert_eq!(w.buckets[3].outcome_index, 3);
    assert_eq!(w.buckets[3].bucket_label, "3C");
    assert_eq!(w.buckets[3].condition_id, [3; 32]);
    assert_eq!(w.buckets[3].token_id_yes, [1; 32]);
    assert_eq!(w.buckets[3].token_id_no, [2; 32]);
    // The number of a bucket takes one byte of its question.
    question_id[31] = 1;
    assert_eq!(w.buckets[257].question_id, question_id);
    assert_eq!(w.buckets[257].outcome_index, 257);

    let w = gamma_to_weather_event(&ev, None, &ids(300), [7; 20], 42).unwrap();
    assert_eq!(w.city, "");
    assert_eq!(w.resolution_date, "");
}

#[test]
fn events_without_a_market_are_refused() {
    let mut ev = listing("a", None);
    assert!(matches!(
        gamma_to_weather_event(&ev, None, &ids(1), [0; 20], 0),
        Err(ReplayError::NoMarketId { slug }) if slug == "a"
    ));
    ev.neg_risk_market_id = Some("0xzz".into());
    assert!(matches!(ev.market_id(), Err(ReplayError::BadHex)));
    assert!(matches!(
        gamma_to_weather_event(&ev, None, &ids(1), [0; 20], 0),
        Err(ReplayError::BadHex)
    ));
    ev.neg_risk_market_id = Some("0xabcd".into());
    assert!(matches!(
        gamma_to_weather_event(&ev, None, &ids(1), [0; 20], 0),
        Err(ReplayError::WrongLength { got: 2 })
    ));
}

#[test]
fn listing_url_asks_for_open_weather_events() {
    assert_eq!(
        listing_url("https://gamma"),
        "https://gamma/events?tag_slug=weather&closed=false&limit=200",
    );
}
