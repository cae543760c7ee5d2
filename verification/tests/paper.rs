//! Selling into books, and the arithmetic of the account.

use weather_paper::account::PaperAccount;
use weather_paper::book::{
    book_midpoint, book_url, dynamic_fill_rate, simulate_maker_dump, walk_bids_for_sell, ClobBook,
    ClobLevel, DumpStrategy,
};

fn fixed(x: f64) -> i64 {
    (x * 1e9).round() as i64
}

fn float(x: i64) -> f64 {
    x as f64 / 1e9
}

fn level(price: &str, size: &str) -> ClobLevel {
    ClobLevel { price: price.into(), size: size.into() }
}

#[test]
fn walks_bid_book_simple() {
    let book = ClobBook {
        bids: vec![
            level("0.38", "28"),
            level("0.33", "12"),
            level("0.32", "5"),
            level("0.31", "100"),
        ],
        asks: vec![],
    };
    let w = walk_bids_for_sell(&book, fixed(62.0), fixed(0.0));
    // 28 + 12 + 5 = 45 from the top 3; 17 more from the $0.31 wall.
    assert_eq!(float(w.shares_filled), 62.0);
    assert_eq!(w.levels_consumed, 4);
    let expected_gross = 28.0 * 0.38 + 12.0 * 0.33 + 5.0 * 0.32 + 17.0 * 0.31;
    assert!((float(w.gross_proceeds_usdc) - expected_gross).abs() < 0.0001);
    assert!(!w.capped_by_depth);
}

#[test]
fn walks_bid_book_depth_capped() {
    let book = ClobBook { bids: vec![level("0.10", "5")], asks: vec![] };
    let w = walk_bids_for_sell(&book, fixed(62.0), fixed(0.0));
    assert_eq!(float(w.shares_filled), 5.0);
    assert!(w.capped_by_depth);
}

#[test]
fn walks_empty_book_returns_zero() {
    let book = ClobBook { bids: vec![], asks: vec![] };
    let w = walk_bids_for_sell(&book, fixed(62.0), fixed(0.0));
    assert_eq!(float(w.shares_filled), 0.0);
    assert!(w.capped_by_depth);
}

#[test]
fn price_floor_drops_thin_tail_from_walk() {
    // 5 good shares, then a long tail of cheap shares that would drag the
    // average below the floor if it were not dropped.
    let book = ClobBook {
        bids: vec![level("0.30", "5"), level("0.05", "100"), level("0.02", "500")],
        asks: vec![],
    };

    // With a floor of 0.091 only the $0.30 level qualifies.
    let w = walk_bids_for_sell(&book, fixed(62.0), fixed(0.091));
    assert_eq!(float(w.shares_filled), 5.0);
    assert!((float(w.avg_price) - 0.30).abs() < 0.0001);
    assert_eq!(w.levels_consumed, 1);
    assert!(w.capped_by_depth);

    // Without a floor all 62 shares go at a diluted average.
    let w_legacy = walk_bids_for_sell(&book, fixed(62.0), fixed(0.0));
    assert_eq!(float(w_legacy.shares_filled), 62.0);
    assert!(float(w_legacy.avg_price) < 0.091);
}

#[test]
fn price_floor_empty_book_returns_zero() {
    let book = ClobBook { bids: vec![level("0.05", "50")], asks: vec![] };
    // Every level is below the floor: nothing is filled.
    let w = walk_bids_for_sell(&book, fixed(62.0), fixed(0.091));
    assert_eq!(float(w.shares_filled), 0.0);
}

#[test]
fn maker_sim_inside_wide_spread_gets_max_fill_rate() {
    // Bid $0.20, ask $0.60, so the midpoint is $0.40 and the ask $0.44: well
    // inside the spread, so the fill rate is the full one.
    let book = ClobBook { bids: vec![level("0.20", "100")], asks: vec![level("0.60", "100")] };
    let w = simulate_maker_dump(&book, fixed(100.0), fixed(1.10), fixed(0.75), fixed(0.091));
    assert!((float(w.avg_price) - 0.44).abs() < 0.0001);
    assert!((float(w.shares_filled) - 75.0).abs() < 0.0001);
    assert!((float(w.gross_proceeds_usdc) - 33.0).abs() < 0.0001);
}

#[test]
fn maker_sim_behind_wall_has_decayed_fill_rate() {
    // Bid $0.38, ask $0.42, so the ask at $0.44 is 4.76% above the best one.
    let book = ClobBook { bids: vec![level("0.38", "100")], asks: vec![level("0.42", "100")] };
    let w = simulate_maker_dump(&book, fixed(100.0), fixed(1.10), fixed(0.75), fixed(0.091));
    assert!((float(w.avg_price) - 0.44).abs() < 0.0001);
    assert!(float(w.shares_filled) < 75.0 && float(w.shares_filled) > 55.0);
    assert!(float(w.gross_proceeds_usdc) < 33.0);
}

#[test]
fn maker_sim_far_behind_wall_floors_at_half_rate() {
    // The ask at $0.493 is 64% above the best one.
    let book = ClobBook { bids: vec![level("0.28", "50")], asks: vec![level("0.30", "50")] };
    let w = simulate_maker_dump(&book, fixed(100.0), fixed(1.70), fixed(0.75), fixed(0.091));
    assert!((float(w.shares_filled) - 37.5).abs() < 0.001);
}

#[test]
fn maker_sim_uses_mint_cost_floor_when_no_mid() {
    // An empty book: the fair value falls back to the mint cost.
    let book = ClobBook { bids: vec![], asks: vec![] };
    let w = simulate_maker_dump(&book, fixed(100.0), fixed(1.10), fixed(0.75), fixed(0.091));
    assert!((float(w.avg_price) - 0.1001).abs() < 0.0001);
    assert!((float(w.shares_filled) - 75.0).abs() < 0.0001);
}

#[test]
fn maker_sim_uses_floor_when_mid_below_mint_cost() {
    // The midpoint $0.05 is below the mint cost, which takes its place.
    let book = ClobBook { bids: vec![level("0.04", "50")], asks: vec![level("0.06", "50")] };
    let w = simulate_maker_dump(&book, fixed(100.0), fixed(1.10), fixed(0.75), fixed(0.091));
    assert!((float(w.avg_price) - 0.1001).abs() < 0.0001);
}

#[test]
fn dynamic_fill_rate_inside_spread() {
    let book = ClobBook { bids: vec![level("0.30", "50")], asks: vec![level("0.50", "50")] };
    // Below the best ask: the full rate.
    assert!((float(dynamic_fill_rate(&book, fixed(0.44), fixed(0.80))) - 0.80).abs() < 1e-9);
    // At the best ask: still the full rate.
    assert!((float(dynamic_fill_rate(&book, fixed(0.50), fixed(0.80))) - 0.80).abs() < 1e-9);
}

#[test]
fn dynamic_fill_rate_full_decay_at_10pct_above() {
    let book = ClobBook { bids: vec![], asks: vec![level("0.40", "50")] };
    // 10% above the best ask: half of the ceiling.
    let r = dynamic_fill_rate(&book, fixed(0.44), fixed(0.80));
    assert!((float(r) - 0.40).abs() < 1e-9);
    // 25% above: still half.
    let r_far = dynamic_fill_rate(&book, fixed(0.50), fixed(0.80));
    assert!((float(r_far) - 0.40).abs() < 1e-9);
}

#[test]
fn paper_account_roi_math() {
    let mut acct = PaperAccount::new(fixed(1000.0));
    acct.bankroll_usdc = fixed(1100.0);
    assert!((float(acct.net_pnl()) - 100.0).abs() < 0.001);
    assert!((float(acct.roi_pct()) - 10.0).abs() < 0.001);
}

#[test]
fn account_marks_open_value() {
    let mut acct = PaperAccount::new(fixed(1000.0));
    acct.bankroll_usdc = fixed(950.0);
    assert_eq!(acct.realized_pnl(), fixed(-50.0));
    assert_eq!(acct.net_pnl_at_mark(fixed(75.0)), fixed(25.0));
    assert_eq!(acct.roi_pct(), fixed(-5.0));
    assert_eq!(acct.roi_pct_at_mark(fixed(75.0)), fixed(2.5));
}

#[test]
fn account_without_bankroll_has_no_return() {
    let mut acct = PaperAccount::default();
    acct.bankroll_usdc = fixed(5.0);
    assert_eq!(acct.roi_pct(), 0);
    assert_eq!(acct.roi_pct_at_mark(fixed(1.0)), 0);
    assert_eq!(acct.net_pnl(), fixed(5.0));
}

#[test]
fn walk_takes_exact_values_in_price_order() {
    // Listed out of order; the better bids go first.
    let book = ClobBook {
        bids: vec![level("0.31", "100"), level("0.38", "28"), level("0.33", "12")],
        asks: vec![],
    };
    let w = walk_bids_for_sell(&book, fixed(50.0), 0);
    assert_eq!(w.shares_filled, fixed(50.0));
    assert_eq!(w.levels_consumed, 3);
    // 28 * 0.38 + 12 * 0.33 + 10 * 0.31
    assert_eq!(w.gross_proceeds_usdc, fixed(17.7));
    assert_eq!(w.avg_price, fixed(0.354));
}

#[test]
fn walk_skips_unreadable_and_empty_levels() {
    let book = ClobBook {
        bids: vec![
            level("n/a", "10"),
            level("0.90", "?"),
            level("0.80", "0"),
            level("0.70", "-3"),
            level("nan", "5"),
            level("0.50", "4"),
        ],
        asks: vec![],
    };
    let w = walk_bids_for_sell(&book, fixed(10.0), 0);
    assert_eq!(w.shares_filled, fixed(4.0));
    assert_eq!(w.levels_consumed, 1);
    assert_eq!(w.avg_price, fixed(0.5));
}

#[test]
fn walk_for_nothing_sells_nothing() {
    let book = ClobBook { bids: vec![level("0.50", "4")], asks: vec![] };
    for target in [0, fixed(-1.0)] {
        let w = walk_bids_for_sell(&book, target, 0);
        assert_eq!(w.shares_filled, 0);
        assert_eq!(w.levels_consumed, 0);
        assert_eq!(w.avg_price, 0);
        assert!(!w.capped_by_depth);
    }
}

#[test]
fn walk_ignores_the_order_of_bids() {
    let listed = ClobBook {
        bids: vec![level("0.3", "5"), level("0.4", "7"), level("0.3", "9")],
        asks: vec![],
    };
    let turned = ClobBook {
        bids: vec![level("0.3", "9"), level("0.3", "5"), level("0.4", "7")],
        asks: vec![],
    };
    let a = walk_bids_for_sell(&listed, fixed(13.0), fixed(0.1));
    let b = walk_bids_for_sell(&turned, fixed(13.0), fixed(0.1));
    assert_eq!(a.shares_filled, b.shares_filled);
    assert_eq!(a.gross_proceeds_usdc, b.gross_proceeds_usdc);
    assert_eq!(a.avg_price, b.avg_price);
    assert_eq!(a.gross_proceeds_usdc, fixed(4.6));
}

#[test]
fn walk_average_stays_above_the_floor() {
    let book = ClobBook {
        bids: vec![level("0.0910000001", "7"), level("0.333333333", "3"), level("0.09", "50")],
        asks: vec![],
    };
    let floor = fixed(0.091);
    let w = walk_bids_for_sell(&book, fixed(62.0), floor);
    assert_eq!(w.shares_filled, fixed(10.0));
    assert!(w.avg_price >= floor);
}

#[test]
fn higher_floor_never_sells_more() {
    let book = ClobBook {
        bids: vec![level("0.3", "5"), level("0.2", "7"), level("0.1", "9")],
        asks: vec![],
    };
    let mut last = fixed(100.0);
    for floor in [0.0, 0.1, 0.15, 0.2, 0.25, 0.3, 0.35] {
        let w = walk_bids_for_sell(&book, fixed(62.0), fixed(floor));
        assert!(w.shares_filled <= last);
        last = w.shares_filled;
    }
    assert_eq!(last, 0);
}

#[test]
fn fill_rate_falls_linearly() {
    let book = ClobBook { bids: vec![], asks: vec![level("0.40", "50"), level("0.45", "1")] };
    // 5% above the best ask: halfway between the ceiling and half of it.
    assert_eq!(dynamic_fill_rate(&book, fixed(0.42), fixed(0.80)), fixed(0.60));
    assert_eq!(dynamic_fill_rate(&book, fixed(0.41), fixed(0.80)), fixed(0.70));
    let empty = ClobBook { bids: vec![], asks: vec![] };
    assert_eq!(dynamic_fill_rate(&empty, fixed(5.0), fixed(0.80)), fixed(0.80));
    let free = ClobBook { bids: vec![], asks: vec![level("0", "50")] };
    assert_eq!(dynamic_fill_rate(&free, fixed(0.01), fixed(0.80)), fixed(0.40));
}

#[test]
fn fill_rate_stays_in_range_and_falls_with_price() {
    let book = ClobBook { bids: vec![], asks: vec![level("0.37", "50")] };
    let ceiling = fixed(0.77);
    let mut last = ceiling;
    let mut ask = fixed(0.30);
    while ask < fixed(0.60) {
        let r = dynamic_fill_rate(&book, ask, ceiling);
        assert!(r <= last);
        assert!(r >= ceiling / 2);
        last = r;
        ask += fixed(0.003);
    }
    assert_eq!(last, ceiling / 2);
}

#[test]
fn maker_gives_exact_values_behind_the_wall() {
    let book = ClobBook { bids: vec![level("0.38", "100")], asks: vec![level("0.42", "100")] };
    let w = simulate_maker_dump(&book, fixed(100.0), fixed(1.10), fixed(0.75), fixed(0.091));
    assert_eq!(w.avg_price, fixed(0.44));
    // 0.75 * (1 - 0.476190476 / 2), cut off
    assert_eq!(w.shares_filled, 57_142_857_100);
    assert_eq!(w.levels_consumed, 1);
    assert!(!w.capped_by_depth);
}

#[test]
fn maker_never_asks_below_cost() {
    let book = ClobBook { bids: vec![level("0.01", "1")], asks: vec![level("0.02", "1")] };
    for cost in [0.05, 0.091, 0.5] {
        let w = simulate_maker_dump(&book, fixed(10.0), fixed(1.0), fixed(0.75), fixed(cost));
        assert!(w.avg_price >= fixed(cost));
        assert!(w.shares_filled <= fixed(10.0));
    }
}

#[test]
fn midpoint_falls_back_to_the_side_that_is_there() {
    let both = ClobBook {
        bids: vec![level("0.20", "1"), level("0.30", "1"), level("x", "1")],
        asks: vec![level("0.60", "1"), level("0.50", "1")],
    };
    assert_eq!(book_midpoint(&both), Some(fixed(0.40)));
    let bids = ClobBook { bids: vec![level("0.20", "1")], asks: vec![] };
    assert_eq!(book_midpoint(&bids), Some(fixed(0.20)));
    let asks = ClobBook { bids: vec![], asks: vec![level("0.70", "1")] };
    assert_eq!(book_midpoint(&asks), Some(fixed(0.70)));
    let none = ClobBook { bids: vec![level("?", "1")], asks: vec![] };
    assert_eq!(book_midpoint(&none), None);
}

#[test]
fn quotes_past_the_range_are_quotes() {
    let high = ClobBook { bids: vec![], asks: vec![level("10000000000", "1")] };
    assert_eq!(book_midpoint(&high), Some(i64::MAX));
    assert_eq!(dynamic_fill_rate(&high, fixed(0.5), fixed(0.8)), fixed(0.8));
    let low = ClobBook { bids: vec![level("-10000000000", "1")], asks: vec![] };
    assert_eq!(book_midpoint(&low), Some(i64::MIN));
    // An infinite price on the far side is none.
    for (low, high) in [("-inf", "inf"), ("-1e400", "1e400")] {
        let never = ClobBook { bids: vec![level(low, "1")], asks: vec![level(high, "1")] };
        assert_eq!(book_midpoint(&never), None);
        assert_eq!(dynamic_fill_rate(&never, fixed(0.5), fixed(0.8)), fixed(0.8));
    }
    // On the near side it is a quote, above which a rate has decayed.
    for low in ["-inf", "-1e400"] {
        let sunk = ClobBook { bids: vec![level("0.2", "1")], asks: vec![level(low, "1")] };
        assert_eq!(dynamic_fill_rate(&sunk, fixed(0.5), fixed(0.8)), fixed(0.4));
        assert_eq!(book_midpoint(&sunk), Some(i64::MIN));
    }
    let high = ClobBook { bids: vec![level("inf", "1")], asks: vec![level("0.2", "1")] };
    assert_eq!(book_midpoint(&high), Some(i64::MAX));
    let crossed = ClobBook { bids: vec![level("inf", "1")], asks: vec![level("-inf", "1")] };
    assert_eq!(book_midpoint(&crossed), None);
}

#[test]
fn levels_of_distinct_prices_are_taken_alike() {
    let plain = ClobBook { bids: vec![level("0.4", "7"), level("0.3", "5")], asks: vec![] };
    let noisy = ClobBook {
        bids: vec![level("0.30", "5"), level("0.05", "99"), level("x", "1"), level("4e-1", "7.0")],
        asks: vec![level("0.5", "1")],
    };
    assert_eq!(
        walk_bids_for_sell(&plain, fixed(9.0), fixed(0.1)),
        walk_bids_for_sell(&noisy, fixed(9.0), fixed(0.1)),
    );
}

#[test]
fn strategy_defaults_to_taker() {
    assert_eq!(DumpStrategy::default(), DumpStrategy::Taker);
}

#[test]
fn book_url_names_the_token() {
    assert_eq!(book_url("https://clob", "123"), "https://clob/book?token_id=123");
}
