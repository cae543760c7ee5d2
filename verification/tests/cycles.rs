//! Whole cycles: minting, selling, marking and settling.

use std::path::PathBuf;
use weather_paper::amount::ONE;
use weather_paper::book::{ClobBook, ClobLevel, DumpStrategy};
use weather_paper::engine::{
    Admission, EngineConfig, LegOutcome, MarkReport, PaperEngine, DEFAULT_TAKER_FEE_BPS,
    GAS_COST_CONVERT_USDC, GAS_COST_MINT_USDC, GAS_COST_REDEEM_USDC, GAS_COST_SPLIT_USDC,
    NO_BANKROLL,
};
use weather_paper::event::{BucketInfo, EventKind, WeatherEvent};
use weather_paper::log::{LogEvent, LogRecord, SkipReason};
use weather_paper::settle::{
    event_over, event_url, has_reported, payout_of, winning_labels, EventStatus, MarketQuote,
    MarketStatus, Reply,
};

const NOW: i64 = 1_776_000_000;

fn fixed(x: f64) -> i64 {
    (x * 1e9).round() as i64
}

fn level(price: &str, size: &str) -> ClobLevel {
    ClobLevel { price: price.into(), size: size.into() }
}

fn bids(levels: &[(&str, &str)]) -> Option<ClobBook> {
    let bids = levels.iter().map(|(p, s)| level(p, s)).collect();
    Some(ClobBook { bids, asks: vec![] })
}

fn event(slug: &str, labels: &[&str]) -> WeatherEvent {
    let mut buckets = Vec::new();
    for (i, label) in labels.iter().enumerate() {
        let mut token_id_yes = [0; 32];
        token_id_yes[31] = i as u8 + 1;
        buckets.push(BucketInfo {
            condition_id: [0; 32],
            question_id: [0; 32],
            outcome_index: i as u32,
            bucket_label: label.to_string(),
            token_id_yes,
            token_id_no: [0; 32],
        });
    }
    WeatherEvent {
        event_slug: slug.into(),
        city: "lucknow".into(),
        resolution_date: "2026-04-15".into(),
        kind: EventKind::NegRisk,
        neg_risk_market_id: None,
        oracle: [0; 20],
        buckets,
        detected_at_ns: 0,
    }
}

fn engine(bankroll: f64, cap: usize) -> PaperEngine {
    PaperEngine::new(
        "https://clob".into(),
        fixed(bankroll),
        cap,
        fixed(62.0),
        fixed(0.08),
        fixed(0.95),
        PathBuf::from("/tmp/paper.log"),
    )
}

fn maker(markup: f64, fill_rate: f64) -> PaperEngine {
    PaperEngine::new_with_strategy(
        "https://clob".into(),
        fixed(1000.0),
        8,
        fixed(62.0),
        fixed(0.08),
        fixed(0.95),
        PathBuf::from("/tmp/paper.log"),
        DumpStrategy::Maker { markup: fixed(markup), fill_rate: fixed(fill_rate) },
    )
}

fn kinds(rows: &[LogRecord]) -> Vec<&'static str> {
    rows.iter().map(|r| r.entry.kind()).collect()
}

#[test]
fn gas_costs_are_those_of_the_chain() {
    assert_eq!(DEFAULT_TAKER_FEE_BPS, 0);
    assert_eq!(GAS_COST_SPLIT_USDC, fixed(0.008));
    assert_eq!(GAS_COST_CONVERT_USDC, fixed(0.012));
    assert_eq!(GAS_COST_REDEEM_USDC, fixed(0.006));
    assert_eq!(GAS_COST_MINT_USDC, GAS_COST_SPLIT_USDC + GAS_COST_CONVERT_USDC);
}

#[test]
fn engine_starts_fresh() {
    let e = engine(1000.0, 8);
    assert_eq!(e.clob_url, "https://clob");
    assert_eq!(e.log.path, PathBuf::from("/tmp/paper.log"));
    assert_eq!(e.log.counter, 0);
    assert_eq!(e.config.dump_strategy, DumpStrategy::Taker);
    assert_eq!(e.config.taker_fee_bps, 0);
    let acct = e.snapshot();
    assert_eq!(acct.bankroll_usdc, fixed(1000.0));
    assert_eq!(acct.starting_bankroll, fixed(1000.0));
    assert!(acct.open_positions.is_empty());
    assert_eq!(acct.cum_mint_count, 0);
}

#[test]
fn a_cycle_sells_holds_and_books() {
    let mut e = engine(1000.0, 8);
    let ev = event("slug-a", &["39C", "40C", "41C", "42C"]);
    let books = vec![
        bids(&[("0.60", "100")]),
        bids(&[]),
        bids(&[("0.10", "100")]),
        None,
    ];
    let rows = e.run_event(&ev, NOW, &books);
    assert_eq!(
        kinds(&rows),
        vec!["mint", "dump", "dump_skipped", "dump_skipped", "cycle_summary"],
    );
    assert!(rows.iter().all(|r| r.event_slug == "slug-a"));

    // 1000 - 124.02 for the mint, + 58.9 * 0.60 for the first bucket.
    assert_eq!(rows[0].bankroll, fixed(875.98));
    assert!(matches!(
        rows[0].entry,
        LogEvent::Mint { mint_total_usdc, gas_usdc, bucket_count: 4 }
            if mint_total_usdc == fixed(124.0) && gas_usdc == fixed(0.02)
    ));
    assert!(matches!(
        rows[1].entry,
        LogEvent::Dump {
            target_shares, filled, avg_price, gross_proceeds, fee: 0, net_proceeds,
            levels_consumed: 1, capped_by_depth: false, residual_shares, ..
        } if target_shares == fixed(58.9) && filled == fixed(58.9) && avg_price == fixed(0.6)
            && gross_proceeds == fixed(35.34) && net_proceeds == fixed(35.34)
            && residual_shares == fixed(3.1)
    ));
    assert_eq!(rows[1].bankroll, NO_BANKROLL);
    assert!(matches!(
        rows[2].entry,
        LogEvent::DumpSkipped { reason: SkipReason::EmptyBook, book_bids_count: 0, .. }
    ));
    assert!(matches!(
        rows[3].entry,
        LogEvent::DumpSkipped {
            reason: SkipReason::AllBidsBelowFloor, price_floor, mint_cost_per_share,
            min_dump_price, book_bids_count: 1, ..
        } if price_floor == fixed(0.25) && mint_cost_per_share == fixed(0.25)
            && min_dump_price == fixed(0.08)
    ));
    assert!(matches!(
        rows[4].entry,
        LogEvent::CycleSummary {
            mint_out, gas, dump_proceeds_gross, dump_fees: 0, dump_proceeds_net, cycle_pnl,
            roi_pct, bankroll_after, open_events: 1, tail_legs_held: 4, skipped_below_cost: 1,
            mint_cost_per_share_threshold,
        } if mint_out == fixed(124.0) && gas == fixed(0.02) && dump_proceeds_gross == fixed(35.34)
            && dump_proceeds_net == fixed(35.34) && cycle_pnl == fixed(-88.68)
            && roi_pct == fixed(-8.868) && bankroll_after == fixed(911.32)
            && mint_cost_per_share_threshold == fixed(0.25)
    ));
    assert_eq!(rows[4].bankroll, fixed(911.32));

    let acct = e.snapshot();
    assert_eq!(acct.bankroll_usdc, fixed(911.32));
    assert_eq!(acct.open_event_slugs, vec!["slug-a".to_string()]);
    assert_eq!(acct.cum_mint_count, 1);
    assert_eq!(acct.cum_mint_usdc, fixed(124.0));
    assert_eq!(acct.cum_dump_count, 4);
    assert_eq!(acct.cum_dump_usdc, fixed(35.34));
    assert_eq!(acct.cum_gas_paid, fixed(0.02));
    assert_eq!(acct.cum_taker_fees, 0);
    // Without fees the running total is what the bankroll gained.
    assert_eq!(acct.cum_realized_pnl, acct.realized_pnl());

    let held: Vec<_> = acct
        .open_positions
        .iter()
        .map(|p| {
            (p.bucket_label.as_str(), p.token_id.as_str(), p.shares_held, p.effective_cost_per_share)
        })
        .collect();
    assert_eq!(
        held,
        vec![
            ("39C", "1", fixed(3.1), 0),
            ("40C", "2", fixed(62.0), fixed(0.25)),
            ("41C", "3", fixed(62.0), fixed(0.25)),
            ("42C", "4", fixed(62.0), fixed(0.25)),
        ],
    );
    for p in &acct.open_positions {
        assert_eq!(p.event_slug, "slug-a");
        assert_eq!(p.city, "lucknow");
        assert_eq!(p.resolution_date, "2026-04-15");
        assert_eq!(p.minted_at, NOW);
        assert_eq!(p.resolves_at, 1_776_254_400);
    }
}

#[test]
fn two_halves_make_a_cycle() {
    let ev = event("slug-a", &["39C", "40C"]);
    let books = vec![bids(&[("0.70", "20"), ("0.55", "9")]), bids(&[("0.1", "1")])];
    let mut whole = engine(1000.0, 8);
    let rows = whole.run_event(&ev, NOW, &books);
    let mut halves = engine(1000.0, 8);
    let (admission, first) = halves.begin_event(&ev);
    assert_eq!(admission, Admission::Mint);
    let rest = halves.finish_event(&ev, NOW, &books);
    assert_eq!(first.bankroll, rows[0].bankroll);
    assert_eq!(kinds(&rest), kinds(&rows)[1..].to_vec());
    assert_eq!(format!("{:?}", halves.snapshot()), format!("{:?}", whole.snapshot()));
}

#[test]
fn a_small_bankroll_is_not_spent() {
    let mut e = engine(124.01, 8);
    let rows = e.run_event(&event("slug-a", &["39C"]), NOW, &vec![None]);
    assert_eq!(kinds(&rows), vec!["skip_bankroll"]);
    assert_eq!(rows[0].bankroll, fixed(124.01));
    assert!(matches!(
        rows[0].entry,
        LogEvent::SkipBankroll { bankroll, need }
            if bankroll == fixed(124.01) && need == fixed(124.02)
    ));
    assert_eq!(e.snapshot().bankroll_usdc, fixed(124.01));
    assert!(e.snapshot().open_event_slugs.is_empty());

    let mut just = engine(124.02, 8);
    assert_eq!(just.begin_event(&event("slug-a", &["39C"])).0, Admission::Mint);
    assert_eq!(just.snapshot().bankroll_usdc, 0);
}

#[test]
fn the_cap_holds() {
    let mut e = engine(1000.0, 1);
    let a = e.run_event(&event("slug-a", &["39C"]), NOW, &vec![None]);
    assert_eq!(kinds(&a), vec!["mint", "cycle_summary"]);
    let b = e.run_event(&event("slug-b", &["39C"]), NOW, &vec![None]);
    assert_eq!(kinds(&b), vec!["skip_concurrent_cap"]);
    assert!(matches!(b[0].entry, LogEvent::SkipConcurrentCap { open: 1 }));
    assert_eq!(b[0].bankroll, fixed(875.98));
    assert_eq!(e.snapshot().open_event_slugs.len(), 1);
    assert_eq!(engine(1000.0, 0).begin_event(&event("c", &[])).0, Admission::SkipConcurrentCap);
}

#[test]
fn less_than_a_share_is_held() {
    let config = engine(1000.0, 8).config;
    assert_eq!(
        config.leg_outcome(&bids(&[("0.90", "0.999")]), 11),
        LegOutcome::Held { reason: SkipReason::AllBidsBelowFloor },
    );
    assert!(matches!(
        config.leg_outcome(&bids(&[("0.90", "1")]), 11),
        LegOutcome::Sold { fill, net, residual, .. }
            if fill.shares_filled == ONE && fill.capped_by_depth && net == fixed(0.9)
                && residual == fixed(61.0)
    ));
    assert_eq!(config.leg_outcome(&None, 11), LegOutcome::Unpriced);
}

#[test]
fn a_share_costs_its_part_of_the_mint() {
    // 62 across 11 buckets: a bid at 0.0909 is sold into, one at 0.0908 is not.
    let config = engine(1000.0, 8).config;
    assert!(matches!(
        config.leg_outcome(&bids(&[("0.0910", "70")]), 11),
        LegOutcome::Sold { fill, .. } if fill.avg_price == fixed(0.091)
    ));
    assert!(matches!(config.leg_outcome(&bids(&[("0.0908", "70")]), 11), LegOutcome::Held { .. }));
    // Across 20 buckets the configured floor of 0.08 is the higher one.
    assert!(matches!(config.leg_outcome(&bids(&[("0.08", "70")]), 20), LegOutcome::Sold { .. }));
    assert!(matches!(config.leg_outcome(&bids(&[("0.079", "70")]), 20), LegOutcome::Held { .. }));
}

#[test]
fn a_bid_below_its_part_of_the_mint_is_refused() {
    let config = engine(1000.0, 8).config;
    assert_eq!(
        config.leg_outcome(&bids(&[("0.333333333", "70")]), 3),
        LegOutcome::Held { reason: SkipReason::AllBidsBelowFloor },
    );
    assert!(matches!(
        config.leg_outcome(&bids(&[("0.333333334", "70")]), 3),
        LegOutcome::Sold { fill, .. } if fill.avg_price * 3 >= ONE
    ));
    // A maker with a markup of one asks for the cost itself.
    let mut e = maker(1.0, 1.0);
    let rows = e.run_event(&event("a", &["x", "y", "z"]), NOW, &vec![bids(&[]), None, None]);
    assert_eq!(kinds(&rows), vec!["mint", "dump", "cycle_summary"]);
    assert_eq!(e.snapshot().open_positions[1].effective_cost_per_share, 333_333_334);
}

#[test]
fn a_large_mint_costs_its_part_too() {
    let config = EngineConfig { mint_amount_usdc: fixed(1e9), ..engine(1000.0, 8).config };
    assert!(matches!(
        config.leg_outcome(&bids(&[("0.0910", "70")]), 11),
        LegOutcome::Sold { fill, .. } if fill.avg_price == fixed(0.091)
    ));
    assert!(matches!(config.leg_outcome(&bids(&[("0.0908", "70")]), 11), LegOutcome::Held { .. }));
}

#[test]
fn a_mint_of_nothing_holds_nothing() {
    let mut e = engine(1000.0, 8);
    e.config.mint_amount_usdc = 0;
    let rows = e.run_event(&event("a", &["x", "y"]), NOW, &vec![bids(&[("0.9", "9")]), None]);
    assert_eq!(kinds(&rows), vec!["mint", "dump_skipped", "cycle_summary"]);
    let acct = e.snapshot();
    assert_eq!(acct.bankroll_usdc, fixed(999.98));
    assert!(acct.open_positions.iter().all(|p| p.shares_held == 0));
    assert_eq!(acct.open_positions[0].effective_cost_per_share, fixed(0.5));
}

#[test]
fn taker_fees_are_taken_from_the_proceeds() {
    let config = EngineConfig { taker_fee_bps: 200, ..engine(1000.0, 8).config };
    assert!(matches!(
        config.leg_outcome(&bids(&[("0.50", "100")]), 2),
        LegOutcome::Sold { fill, fee, net, .. }
            if fill.gross_proceeds_usdc == fixed(29.45) && fee == fixed(0.589)
                && net == fixed(28.861)
    ));
    let mut e = engine(1000.0, 8);
    e.config = config;
    e.run_event(&event("a", &["x", "y"]), NOW, &vec![bids(&[("0.50", "100")]), None]);
    let acct = e.snapshot();
    assert_eq!(acct.cum_taker_fees, fixed(0.589));
    assert_eq!(acct.bankroll_usdc, fixed(1000.0 - 124.02 + 28.861));
    // The fee weighs on the profit of the cycle once more.
    assert_eq!(acct.cum_realized_pnl, fixed(28.861 - 124.02 - 0.589));
}

#[test]
fn makers_sell_at_their_ask() {
    let mut e = maker(1.10, 0.75);
    let book = ClobBook { bids: vec![level("0.20", "100")], asks: vec![level("0.60", "100")] };
    let rows = e.run_event(&event("a", &["x", "y"]), NOW, &vec![Some(book), bids(&[])]);
    // The midpoint 0.40 is below the mint cost of 0.50, so the ask is 0.55.
    assert!(matches!(
        rows[1].entry,
        LogEvent::Dump { filled, avg_price, gross_proceeds, residual_shares, .. }
            if filled == fixed(44.175) && avg_price == fixed(0.55)
                && gross_proceeds == fixed(24.29625) && residual_shares == fixed(17.825)
    ));
    // An empty book is asked into at the mint cost times the markup too.
    assert_eq!(kinds(&rows), vec!["mint", "dump", "dump", "cycle_summary"]);
}

#[test]
fn makers_do_not_ask_below_the_floor() {
    let mut e = maker(0.90, 0.75);
    let rows = e.run_event(&event("a", &["x", "y"]), NOW, &vec![bids(&[("0.2", "9")]), None]);
    assert_eq!(kinds(&rows), vec!["mint", "dump_skipped", "cycle_summary"]);
    assert_eq!(e.snapshot().open_positions.len(), 2);
}

#[test]
fn no_share_is_lost() {
    let mut e = engine(1000.0, 8);
    let ev = event("a", &["v", "w", "x", "y", "z"]);
    let books = vec![
        bids(&[("0.9", "10.5"), ("0.3", "7.25"), ("0.1", "50")]),
        bids(&[("0.2", "1000")]),
        bids(&[("0.19", "1000")]),
        bids(&[]),
        None,
    ];
    let rows = e.run_event(&ev, NOW, &books);
    let mut sold: i64 = 0;
    for r in &rows {
        if let LogEvent::Dump { filled, .. } = r.entry {
            sold += filled;
        }
    }
    let held: i64 = e.snapshot().open_positions.iter().map(|p| p.shares_held).sum();
    assert_eq!(sold + held, 5 * fixed(62.0));
    assert_eq!(sold, fixed(17.75 + 58.9));
    let acct = e.snapshot();
    assert_eq!(
        acct.bankroll_usdc + acct.cum_mint_usdc + acct.cum_gas_paid - acct.cum_dump_usdc,
        acct.starting_bankroll,
    );
}

#[test]
fn positions_are_marked_at_the_midpoint() {
    let mut e = engine(1000.0, 8);
    e.run_event(&event("a", &["v", "w", "x", "y", "z"]), NOW, &vec![None, None, None, None, None]);
    let both = ClobBook { bids: vec![level("0.20", "1")], asks: vec![level("0.30", "1")] };
    let asks = ClobBook { bids: vec![], asks: vec![level("0.10", "1")] };
    let none = ClobBook { bids: vec![], asks: vec![] };
    let books = vec![Some(both), Some(asks), bids(&[("0.50", "1")]), Some(none), None];
    let report = e.mark_to_market(&books);
    // 62 * 0.25 + 62 * 0.10; without asks a position counts as nothing.
    assert_eq!(report, MarkReport { total: fixed(21.7), priced: 2, unpriced: 3 });
    assert_eq!(e.snapshot().mark(&books), report);
    assert_eq!(e.snapshot().net_pnl_at_mark(report.total), fixed(-124.02 + 21.7));
}

fn quote(label: &str, prices: &[&str]) -> MarketQuote {
    MarketQuote { label: label.into(), prices: prices.iter().map(|p| p.to_string()).collect() }
}

#[test]
fn oracles_report_exact_prices() {
    assert!(has_reported(&vec![quote("a", &["0.1"]), quote("b", &["0", "1"])]));
    assert!(has_reported(&vec![quote("a", &["1.0", "0"])]));
    assert!(has_reported(&vec![quote("a", &["-0", "1"])]));
    assert!(!has_reported(&vec![]));
    assert!(!has_reported(&vec![quote("a", &["0.1", "0.9"]), quote("b", &[]), quote("c", &["x"])]));
    assert!(!has_reported(&vec![quote("a", &["0.0000000000001"]), quote("b", &["-1"])]));
    assert!(!has_reported(&vec![quote("a", &["1.0000000000001"])]));
}

#[test]
fn winners_have_more_than_half() {
    let quotes = vec![
        quote("a", &["0.5"]),
        quote("b", &["0.50000000001"]),
        quote("c", &["1"]),
        quote("c", &["0.9"]),
        quote("d", &["0"]),
        quote("e", &["?"]),
    ];
    assert_eq!(winning_labels(&quotes), vec!["b".to_string(), "c".to_string()]);
    assert_eq!(payout_of(&quotes, &"a".to_string()), fixed(0.5));
    assert_eq!(payout_of(&quotes, &"c".to_string()), ONE);
    assert_eq!(payout_of(&quotes, &"d".to_string()), 0);
    assert_eq!(payout_of(&quotes, &"z".to_string()), 0);
}

#[test]
fn a_share_pays_one_at_most() {
    let quotes = vec![quote("a", &["2"]), quote("b", &["inf"]), quote("c", &["1.000000001"])];
    for label in ["a", "b", "c"] {
        assert_eq!(payout_of(&quotes, &label.to_string()), ONE);
    }
    assert_eq!(payout_of(&vec![quote("a", &["0.999999999"])], &"a".to_string()), ONE - 1);

    let mut e = engine(1000.0, 8);
    e.run_event(&event("s", &["a", "z"]), NOW, &vec![None, None]);
    let before = e.snapshot().bankroll_usdc;
    let s = e.settle_event(&"s".to_string(), &vec![quote("a", &["2"]), quote("z", &["0"])]);
    assert_eq!(s.unwrap().credit, fixed(62.0));
    assert_eq!(e.snapshot().bankroll_usdc, before + fixed(62.0));
}

#[test]
fn settlement_pays_each_event_once() {
    let mut e = engine(1000.0, 8);
    e.run_event(&event("a", &["x", "y", "z"]), NOW, &vec![None, None, None]);
    e.run_event(&event("b", &["x", "y"]), NOW, &vec![None, None]);
    let before = e.snapshot();
    assert_eq!(e.open_slugs(), vec!["a".to_string(), "b".to_string()]);

    let unreported = vec![quote("x", &["0.4"]), quote("y", &["0.6"])];
    assert!(e.settle_event(&"a".to_string(), &unreported).is_none());

    // A partial payout counts as what was reported.
    let quotes = vec![quote("x", &["0.25"]), quote("y", &["0.75"]), quote("z", &["0"])];
    let s = e.settle_event(&"a".to_string(), &quotes).unwrap();
    assert_eq!(s.credit, fixed(62.0));
    assert_eq!(s.positions_settled, 3);
    assert_eq!(s.record.event_slug, "a");
    assert_eq!(s.record.bankroll, NO_BANKROLL);
    match &s.record.entry {
        LogEvent::ResolutionSettled { winners, credit_usdc } => {
            assert_eq!(winners, &vec!["y".to_string()]);
            assert_eq!(*credit_usdc, fixed(62.0));
        }
        other => panic!("{other:?}"),
    }
    let after = e.snapshot();
    assert_eq!(after.bankroll_usdc, before.bankroll_usdc + fixed(62.0));
    assert_eq!(after.cum_realized_pnl, before.cum_realized_pnl + fixed(62.0));
    assert_eq!(after.open_event_slugs, vec!["b".to_string()]);
    assert_eq!(after.open_positions.len(), 2);
    assert!(after.open_positions.iter().all(|p| p.event_slug == "b"));
    assert_eq!(after.closed_positions.len(), 3);
    assert_eq!(e.open_slugs(), vec!["b".to_string()]);

    assert!(e.settle_event(&"a".to_string(), &quotes).is_none());
    assert_eq!(e.snapshot().bankroll_usdc, after.bankroll_usdc);
}

fn status(closed: Option<bool>, end: Option<&str>, prices: &[(&str, &str)]) -> Option<EventStatus> {
    let markets = prices
        .iter()
        .map(|(label, p)| MarketStatus {
            label: label.to_string(),
            outcome_prices: Some(p.to_string()),
        })
        .collect();
    Some(EventStatus { closed, end_date: end.map(|s| s.to_string()), markets: Some(markets) })
}

fn reply(slug: &str, status: Option<EventStatus>) -> Reply {
    Reply { event_slug: slug.into(), status, now_unix: NOW }
}

#[test]
fn replies_settle_what_is_over() {
    let won = [("x", "[\"1\", \"0\"]"), ("y", "[\"0\", \"1\"]")];
    let mut e = engine(1000.0, 8);
    for slug in ["a", "b", "c", "d", "e", "f"] {
        e.run_event(&event(slug, &["x", "y"]), NOW, &vec![None, None]);
    }
    let before = e.snapshot().bankroll_usdc;
    let report = e.resolve_settled_events(&vec![
        // Closed.
        reply("a", status(Some(true), None, &won)),
        // Not closed, but its end has come.
        reply("b", status(Some(false), Some("2026-04-12T13:20:00Z"), &won)),
        // Neither.
        reply("c", status(Some(false), Some("2026-04-12T13:20:01Z"), &won)),
        // Over, but not reported.
        reply("d", status(Some(true), None, &[("x", "[\"0.5\"]"), ("y", "oops")])),
        // No answer.
        reply("e", None),
        // Nothing known.
        reply("f", Some(EventStatus { closed: None, end_date: Some("?".into()), markets: None })),
    ]);
    assert_eq!(report.events_resolved, 2);
    assert_eq!(report.positions_settled, 4);
    assert_eq!(report.total_credit, fixed(124.0));
    assert_eq!(kinds(&report.records), vec!["resolution_settled", "resolution_settled"]);
    assert_eq!(e.snapshot().bankroll_usdc, before + fixed(124.0));
    let open: Vec<String> = ["c", "d", "e", "f"].iter().map(|s| s.to_string()).collect();
    assert_eq!(e.open_slugs(), open);
    assert_eq!(e.snapshot().open_event_slugs, open);
}

#[test]
fn answers_on_events_that_are_not_open_count_for_nothing() {
    let won = [("x", "[\"1\", \"0\"]"), ("y", "[\"0\", \"1\"]")];
    let mut e = engine(1000.0, 8);
    e.run_event(&event("a", &["x", "y"]), NOW, &vec![None, None]);
    let answers = vec![
        reply("other", status(Some(true), None, &won)),
        reply("a", status(Some(true), None, &won)),
        reply("a", status(Some(true), None, &won)),
    ];
    let first = e.resolve_settled_events(&answers);
    assert_eq!(first.events_resolved, 1);
    assert_eq!(first.total_credit, fixed(62.0));
    let after = format!("{:?}", e.snapshot());
    let mut later = answers;
    for answer in &mut later {
        answer.now_unix += 60;
    }
    later.push(reply("a", status(Some(true), None, &[("y", "[\"1\"]")])));
    let second = e.resolve_settled_events(&later);
    assert_eq!(second.events_resolved, 0);
    assert_eq!(second.positions_settled, 0);
    assert_eq!(second.total_credit, 0);
    assert!(second.records.is_empty());
    assert_eq!(format!("{:?}", e.snapshot()), after);
}

#[test]
fn the_books_are_kept_over_cycles_and_rounds() {
    let mut e = engine(400.0, 2);
    let mut credited = 0;
    let mut minted = 0;
    for k in 0..9 {
        let slug = format!("event-{k}");
        let before = e.snapshot();
        let books = vec![bids(&[("0.7", "33.3")]), bids(&[("0.51", "9")]), None];
        e.run_event(&event(&slug, &["x", "y", "z"]), NOW, &books);
        let prices = [("x", "[\"0\"]"), ("y", "[\"0.5\"]"), ("z", "[\"0.5\"]")];
        if k % 2 == 1 {
            credited += e
                .resolve_settled_events(&vec![reply(&slug, status(Some(true), None, &prices))])
                .total_credit;
        }
        let a = e.snapshot();
        assert!(a.bankroll_usdc >= 0);
        assert!(a.open_event_slugs.len() <= 2);
        assert!(a.cum_mint_count >= before.cum_mint_count);
        assert!(a.cum_dump_usdc >= before.cum_dump_usdc);
        assert!(a.open_positions.iter().all(|p| a.open_event_slugs.contains(&p.event_slug)));
        assert_eq!(
            a.bankroll_usdc,
            fixed(400.0) - a.cum_mint_usdc - a.cum_gas_paid + a.cum_dump_usdc + credited,
        );
        assert_eq!(a.cum_realized_pnl, a.realized_pnl());
        minted = a.cum_mint_count;
    }
    assert!(minted > 2 && credited > 0);
}

#[test]
fn one_reply_settles_one_event() {
    let mut e = engine(1000.0, 8);
    e.run_event(&event("a", &["x"]), NOW, &vec![None]);
    assert!(e.settle_reply(&reply("a", None)).is_none());
    let s = e.settle_reply(&reply("a", status(Some(true), None, &[("x", "[\"1\"]")]))).unwrap();
    assert_eq!(s.credit, fixed(62.0));
    assert!(e.snapshot().open_positions.is_empty());
}

#[test]
fn events_are_over_when_closed_or_past_their_end() {
    assert!(event_over(Some(true), i64::MAX, 0));
    assert!(event_over(None, 5, 5));
    assert!(!event_over(Some(false), 6, 5));
    assert!(!event_over(None, 6, 5));
}

#[test]
fn event_url_names_the_slug() {
    assert_eq!(event_url("https://gamma", "a-b"), "https://gamma/events/slug/a-b");
}
