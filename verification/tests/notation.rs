//! Amounts in decimal notation, dates, identifiers and log rows.

use std::path::PathBuf;
use weather_paper::amount::{minus, plus, times, ONE};
use weather_paper::dates::{known_second, parse_end_date, parse_resolution_date, rfc3339_or};
use weather_paper::decimal::{read_amount, read_decimal, Reading};
use weather_paper::event::BucketInfo;
use weather_paper::log::{LogEvent, PaperLog, SkipReason};
use weather_paper::replay::{parse_b256, ReplayError};
use weather_paper::settle::string_list;

#[test]
fn arithmetic_cuts_off_and_saturates() {
    assert_eq!(times(1, ONE / 2), 0);
    assert_eq!(times(-3, ONE / 2), -1);
    assert_eq!(plus(i64::MAX, 1), i64::MAX);
    assert_eq!(minus(i64::MIN, 1), i64::MIN);
    assert_eq!(times(i64::MAX, i64::MAX), i64::MAX);
    assert_eq!(times(i64::MIN, i64::MAX), i64::MIN);
}

#[test]
fn reads_the_decimal_notation() {
    assert_eq!(read_amount("0.38"), Some(380_000_000));
    assert_eq!(read_amount("28"), Some(28 * ONE));
    assert_eq!(read_amount("+1.5"), Some(1_500_000_000));
    assert_eq!(read_amount("-1.5"), Some(-1_500_000_000));
    assert_eq!(read_amount("5."), Some(5 * ONE));
    assert_eq!(read_amount(".5"), Some(500_000_000));
    assert_eq!(read_amount("1e3"), Some(1000 * ONE));
    assert_eq!(read_amount("125E-2"), Some(1_250_000_000));
    assert_eq!(read_amount("0.00000000019e9"), Some(190_000_000));
    assert_eq!(read_amount("2.5e+1"), Some(25 * ONE));
    assert_eq!(read_amount("1e99999999999999999999999999999999999999999"), Some(i64::MAX));
    assert_eq!(read_amount("-1e99999999999999999999999999999999999999999"), Some(i64::MIN));
    assert_eq!(read_amount("0e99999999999999999999999999999999999999999"), Some(0));
    assert_eq!(read_amount("1e-99999999999999999999999999999999999999999"), Some(0));
    assert_eq!(read_amount("99999999999999999999999999"), Some(i64::MAX));
    assert_eq!(read_amount("inf"), Some(i64::MAX));
    assert!(read_decimal("inf").unwrap().infinite);
    assert!(!read_decimal("1e30").unwrap().infinite);
    assert_eq!(read_amount("-Infinity"), Some(i64::MIN));
}

#[test]
fn refuses_what_is_no_number() {
    for s in ["", ".", "+", "-", "e5", "1e", "1e+", "1.2.3", "abc", "0x10", " 1", "1 ", "nan", "--1", "1e1.5", "infinite"] {
        assert_eq!(read_amount(s), None, "{s:?}");
    }
}

#[test]
fn tells_what_was_cut_off() {
    assert_eq!(
        read_decimal("0.0000000004"),
        Some(Reading { negative: false, amount: 0, exact: false, infinite: false }),
    );
    assert_eq!(
        read_decimal("1.000000000000"),
        Some(Reading { negative: false, amount: ONE, exact: true, infinite: false }),
    );
    assert_eq!(
        read_decimal("-0.0000000001"),
        Some(Reading { negative: true, amount: 0, exact: false, infinite: false }),
    );
    assert_eq!(
        read_decimal("12345678901234567890e-20"),
        Some(Reading { negative: false, amount: 123_456_789, exact: false, infinite: false }),
    );
}

#[test]
fn agrees_with_float_parsing() {
    for s in ["0.38", "28", "1e-3", "-4.25", "+7", "000.125", "6.", ".75", "3E2", "", "x", "1e"] {
        let ours = read_amount(s).map(|a| a as f64 / 1e9);
        assert_eq!(ours, s.parse::<f64>().ok(), "{s:?}");
    }
}

#[test]
fn numbers_are_infinite_where_floats_are() {
    // (2^54 - 1) * 2^970, the least number that rounds to infinity, but for its last digit, 2.
    let end = [
        "17976931348623158079372897140530341507993413271003782693617377898044496829276",
        "47509466490179775872070963302864166928879109465555478519404026306574886715058",
        "20681908902000708383676273854845817711531764475730270069855571366959622842914",
        "81986083493647529271907416844436551070434271155969950809304288017790417449779",
    ]
    .concat();
    for s in [
        format!("{end}2"),
        format!("{end}1"),
        format!("{end}1.999"),
        format!("{end}2.001"),
        format!("{end}3"),
        format!("000{end}.2e1"),
        format!("0.{end}2e309"),
        format!("0.{end}1e309"),
        format!("0.{end}1999e309"),
        "1.7976931348623157e308".to_string(),
        "1.7976931348623158e308".to_string(),
        "1.7976931348623159e308".to_string(),
        "1e308".to_string(),
        "1e309".to_string(),
        "0.00001e314".to_string(),
        "0.00001e313".to_string(),
        "-1e400".to_string(),
        "0e400".to_string(),
        "1e99999999999999999999999999999999999".to_string(),
        "1e-99999999999999999999999999999999999".to_string(),
        "12345678901234567890".to_string(),
    ] {
        let r = read_decimal(&s).unwrap();
        let f: f64 = s.parse().unwrap();
        assert_eq!(r.infinite, f.is_infinite(), "{s}");
        assert_eq!(r.negative, f.is_sign_negative(), "{s}");
    }
    assert!(read_decimal(&format!("{end}2")).unwrap().infinite);
    assert!(!read_decimal(&format!("{end}1")).unwrap().infinite);
}

#[test]
fn resolution_is_noon_utc() {
    assert_eq!(parse_resolution_date("2026-04-15", 0), 1_776_254_400);
    assert_eq!(parse_resolution_date("2024-02-29", 0), 1_709_208_000);
    assert_eq!(parse_resolution_date("2000-03-01", 0), 951_912_000);
    assert_eq!(parse_resolution_date("1969-12-31", 0), -43_200);
    assert_eq!(parse_resolution_date("0001-01-01", 0), -62_135_553_600);
    assert_eq!(parse_resolution_date("2026-04-15", 0) % 86_400, 43_200);
}

#[test]
fn events_resolve_days_apart() {
    let days = ["2023-12-30", "2023-12-31", "2024-01-01"];
    let leap = ["2024-02-28", "2024-02-29", "2024-03-01"];
    for run in [days, leap] {
        for pair in run.windows(2) {
            let first = parse_resolution_date(pair[0], 7);
            assert_eq!(parse_resolution_date(pair[1], 9), first + 86_400);
            assert_eq!(parse_end_date(&format!("{}T12:00:00Z", pair[0])), first);
        }
    }
    // A date of the calendar does not need the time.
    assert_eq!(parse_resolution_date("2026-04-15", i64::MAX), 1_776_254_400);
    assert_eq!(parse_end_date("2023-02-29T12:00:00Z"), 0);
}

#[test]
fn bad_dates_resolve_a_day_from_now() {
    for s in ["", "2026-4-15", "2026-04-150", "20260415ab", "2026-02-30", "2026-13-01", "2026-04-00", "2026/04/15", "2026-04--1", "999999-1-1"] {
        assert_eq!(parse_resolution_date(s, 1000), 87_400, "{s:?}");
    }
}

#[test]
fn unreadable_parts_of_a_date_have_defaults() {
    assert_eq!(parse_resolution_date("abcd-04-15", 0), 1_776_254_400);
    // January and the first of the month.
    assert_eq!(parse_resolution_date("2026-xx-15", 0), parse_resolution_date("2026-01-15", 0));
    assert_eq!(parse_resolution_date("2026-04-yy", 0), parse_resolution_date("2026-04-01", 0));
    assert_eq!(parse_resolution_date("+2026-4-15", 0), 1_776_254_400);
}

#[test]
fn end_dates_are_rfc3339() {
    assert_eq!(parse_end_date("2026-04-15T12:00:00Z"), 1_776_254_400);
    assert_eq!(parse_end_date("2026-04-15T14:00:00+02:00"), 1_776_254_400);
    assert_eq!(parse_end_date("2026-04-15"), 0);
    assert_eq!(rfc3339_or("soon", i64::MAX), i64::MAX);
    assert_eq!(known_second(Some(5), 7), 5);
    assert_eq!(known_second(None, 7), 7);
}

fn bucket(id: [u8; 32]) -> BucketInfo {
    BucketInfo {
        condition_id: [0; 32],
        question_id: [0; 32],
        outcome_index: 0,
        bucket_label: "40°C".into(),
        token_id_yes: id,
        token_id_no: [0; 32],
    }
}

#[test]
fn token_ids_are_decimal() {
    assert_eq!(bucket([0; 32]).yes_token_id(), "0");
    let mut id = [0; 32];
    id[30] = 1;
    id[31] = 2;
    assert_eq!(bucket(id).yes_token_id(), "258");
    assert_eq!(
        bucket([255; 32]).yes_token_id(),
        "115792089237316195423570985008687907853269984665640564039457584007913129639935",
    );
}

#[test]
fn identifiers_are_32_bytes_of_hex() {
    let mut want = [0; 32];
    want[0] = 0xab;
    want[31] = 0x0f;
    let text = format!("0xAb{}0f", "00".repeat(30));
    assert_eq!(parse_b256(&text).unwrap(), want);
    assert_eq!(parse_b256(&text[2..]).unwrap(), want);
    assert_eq!(parse_b256(&format!("0x{text}")).unwrap(), want);
    assert!(matches!(parse_b256("0xabcd"), Err(ReplayError::WrongLength { got: 2 })));
    assert!(matches!(parse_b256(""), Err(ReplayError::WrongLength { got: 0 })));
    assert!(matches!(parse_b256("0xabc"), Err(ReplayError::BadHex)));
    assert!(matches!(parse_b256("zz"), Err(ReplayError::BadHex)));
    assert!(matches!(parse_b256("é"), Err(ReplayError::BadHex)));
}

#[test]
fn lists_of_strings_are_json() {
    assert_eq!(string_list("[\"0\", \"1\"]"), vec!["0".to_string(), "1".to_string()]);
    assert_eq!(string_list("[]"), Vec::<String>::new());
    assert_eq!(string_list("[0, 1]"), Vec::<String>::new());
    assert_eq!(string_list("oops"), Vec::<String>::new());
}

#[test]
fn log_rows_have_their_columns() {
    let mut log = PaperLog::new(PathBuf::from("/tmp/paper.log"));
    assert_eq!(log.path, PathBuf::from("/tmp/paper.log"));
    assert_eq!(log.counter, 0);
    let entry = LogEvent::SkipConcurrentCap { open: 8 };
    let row = log.append(1_776_254_400, "a-slug", entry.kind(), "{\"open\":8}", 911_320_000_000);
    assert_eq!(row, "1776254400|a-slug|skip_concurrent_cap|{\"open\":8}|911.3200\n");
    assert_eq!(log.counter, 1);
    let row = log.append(-5, "", "dump", "{}", -ONE);
    assert_eq!(row, "-5||dump|{}|-1.0000\n");
    assert_eq!(log.counter, 2);
}

#[test]
fn log_rows_round_to_four_places() {
    let mut log = PaperLog::new("rows.log");
    let mut shown = |x: i64| {
        let row = log.append(0, "s", "k", "d", x);
        row.trim_end().rsplit('|').next().unwrap().to_string()
    };
    assert_eq!(shown(0), "0.0000");
    assert_eq!(shown(12_345_678_901), "12.3457");
    assert_eq!(shown(999_999_999), "1.0000");
    // Halves go to the even place.
    assert_eq!(shown(50_000), "0.0000");
    assert_eq!(shown(150_000), "0.0002");
    assert_eq!(shown(-10), "-0.0000");
    assert_eq!(shown(i64::MIN), "-9223372036.8548");
}

#[test]
fn log_names_reasons_and_kinds() {
    assert_eq!(SkipReason::EmptyBook.name(), "empty_book");
    assert_eq!(SkipReason::AllBidsBelowFloor.name(), "all_bids_below_floor");
    assert_eq!(LogEvent::SkipBankroll { bankroll: 0, need: 1 }.kind(), "skip_bankroll");
    assert_eq!(
        LogEvent::Mint { mint_total_usdc: 0, gas_usdc: 0, bucket_count: 0 }.kind(),
        "mint",
    );
    assert_eq!(
        LogEvent::ResolutionSettled { winners: vec![], credit_usdc: 0 }.kind(),
        "resolution_settled",
    );
}
