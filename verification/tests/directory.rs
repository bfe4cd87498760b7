//! Tests for the ticker directory: feed parsing and both lookups.

use sec_ticker_parser::{cik, parse_feed, ticker, to_lower, TickerDirectory};

const SAMPLE_FEED: &str = "aapl\t320193\nvz\t732712";

#[test]
fn test_list() {
    let map = parse_feed(SAMPLE_FEED);
    assert!(map.len() != 0);
    assert_eq!(cik(&map, "vz"), 732712);
}

#[test]
fn test_cik() {
    let map = parse_feed(SAMPLE_FEED);
    let my_cik = cik(&map, "vz");
    assert_eq!(my_cik, 732712);
    let invalid_cik = cik(&map, "invalid");
    assert_eq!(invalid_cik, 0);
}

#[test]
fn test_ticker() {
    let map = parse_feed(SAMPLE_FEED);
    let my_ticker = ticker(&map, &732712);
    assert_eq!(my_ticker, "vz");
    let invalid_ticker = ticker(&map, &0);
    assert_eq!(invalid_ticker, "none")
}

#[test]
fn test_lookup_ignores_case() {
    let map = parse_feed(SAMPLE_FEED);
    assert_eq!(cik(&map, "VZ"), 732712);
    assert_eq!(cik(&map, "Vz"), 732712);
    assert_eq!(cik(&map, "vz"), 732712);
    assert_eq!(cik(&map, "AAPL"), 320193);
}

#[test]
fn test_round_trip() {
    let map = parse_feed(SAMPLE_FEED);
    for id in [320193u64, 732712u64] {
        let symbol = ticker(&map, &id);
        assert_eq!(cik(&map, &symbol), id);
    }
}

#[test]
fn test_unknown_ticker() {
    let map = parse_feed(SAMPLE_FEED);
    assert_eq!(cik(&map, "not-a-real-ticker"), 0);
}

#[test]
fn test_unknown_identifier() {
    let map = parse_feed(SAMPLE_FEED);
    assert_eq!(ticker(&map, &0), "none");
    assert_eq!(ticker(&map, &999), "none");
}

#[test]
fn test_non_numeric_identifier_yields_zero() {
    let map = parse_feed("aapl\tnot-a-number\nvz\t732712");
    assert_eq!(cik(&map, "aapl"), 0);
    // parsing went on past the malformed record
    assert_eq!(cik(&map, "vz"), 732712);
    assert_eq!(map.len(), 2);
}

#[test]
fn test_two_records() {
    let map = parse_feed("aapl\t320193\nvz\t732712");
    assert_eq!(map.len(), 2);
    assert_eq!(cik(&map, "aapl"), 320193);
    assert_eq!(ticker(&map, &732712), "vz");
}

#[test]
fn test_parse_is_deterministic() {
    let first = parse_feed(SAMPLE_FEED);
    let second = parse_feed(SAMPLE_FEED);
    assert_eq!(first.len(), second.len());
    for symbol in ["aapl", "vz"] {
        assert_eq!(cik(&first, symbol), cik(&second, symbol));
    }
}

#[test]
fn test_malformed_lines_are_skipped() {
    let map = parse_feed("aapl\t320193\nno-tab-here\nx\ty\tz\nvz\t732712\n");
    assert_eq!(map.len(), 2);
    assert_eq!(cik(&map, "aapl"), 320193);
    assert_eq!(cik(&map, "vz"), 732712);
    assert_eq!(cik(&map, "no-tab-here"), 0);
    assert_eq!(cik(&map, "x"), 0);
}

#[test]
fn test_last_record_wins() {
    let map = parse_feed("vz\t1\nvz\t2");
    assert_eq!(map.len(), 1);
    assert_eq!(cik(&map, "vz"), 2);
}

#[test]
fn test_identifier_range() {
    let map = parse_feed("max\t18446744073709551615\nbig\t18446744073709551616\nplus\t+42");
    assert_eq!(cik(&map, "max"), u64::MAX);
    // one past the 64-bit range is not a valid identifier
    assert_eq!(cik(&map, "big"), 0);
    // a leading plus sign is accepted, as integer parsing in the
    // standard library accepts it
    assert_eq!(cik(&map, "plus"), 42);
}

#[test]
fn test_empty_feed() {
    let map = parse_feed("");
    assert_eq!(map.len(), 0);
    assert_eq!(cik(&map, "vz"), 0);
    assert_eq!(ticker(&map, &732712), "none");
}

#[test]
fn test_tab_only_line() {
    // a lone tab is a record with an empty symbol and an empty
    // identifier field, which parses to 0
    let map = parse_feed("\t");
    assert_eq!(map.len(), 1);
    assert_eq!(cik(&map, ""), 0);
}

#[test]
fn test_insert_overwrites() {
    let mut map = TickerDirectory::new();
    assert_eq!(map.len(), 0);
    map.insert(String::from("vz"), 1);
    map.insert(String::from("vz"), 732712);
    map.insert(String::from("aapl"), 320193);
    assert_eq!(map.len(), 2);
    assert_eq!(cik(&map, "vz"), 732712);
}

#[test]
fn test_to_lower() {
    assert_eq!(to_lower("VZ"), "vz");
    assert_eq!(to_lower("aApL1-2"), "aapl1-2");
    assert_eq!(to_lower(""), "");
    // only ASCII letters are lowered
    assert_eq!(to_lower("A{Z[@`"), "a{z[@`");
}
