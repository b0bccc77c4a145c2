//! Amount parsing and formatting, market-symbol splitting, and the
//! subscription bookkeeping.

use matching_engine::engine::split_market;
use matching_engine::gateway::AuthService;
use matching_engine::numeric::{
    format_amount, format_amount_u128, format_scaled, parse_amount, parse_scaled, str_eq,
    AMOUNT_DECIMALS, PRICE_DECIMALS,
};
use matching_engine::subscriptions::SubscriptionManager;

#[test]
fn parse_amount_accepts_exactly_digit_strings() {
    assert_eq!(parse_amount("0"), Some(0));
    assert_eq!(parse_amount("123"), Some(123));
    assert_eq!(parse_amount("007"), Some(7));
    assert_eq!(parse_amount("18446744073709551615"), Some(u64::MAX));
    assert_eq!(parse_amount(""), None);
    assert_eq!(parse_amount("12a"), None);
    assert_eq!(parse_amount("-5"), None);
    assert_eq!(parse_amount("1.5"), None);
    // one past the tick range
    assert_eq!(parse_amount("18446744073709551616"), None);
    assert_eq!(parse_amount("99999999999999999999999"), None);
}

#[test]
fn format_amount_renders_canonical_decimal() {
    assert_eq!(format_amount(0), "0");
    assert_eq!(format_amount(7), "7");
    assert_eq!(format_amount(12345), "12345");
    assert_eq!(format_amount(u64::MAX), "18446744073709551615");
    assert_eq!(format_amount_u128(340282366920938463463374607431768211455), "340282366920938463463374607431768211455");
}

#[test]
fn parse_format_round_trip() {
    for n in [0u64, 1, 9, 10, 99, 100, 4096, 1_000_000_007, u64::MAX] {
        assert_eq!(parse_amount(&format_amount(n)), Some(n));
    }
}

#[test]
fn parse_scaled_reads_fixed_point_at_the_tick_scale() {
    assert_eq!(parse_scaled("100", PRICE_DECIMALS), Some(10000));
    assert_eq!(parse_scaled("100.5", PRICE_DECIMALS), Some(10050));
    assert_eq!(parse_scaled("100.50", PRICE_DECIMALS), Some(10050));
    assert_eq!(parse_scaled("0.01", PRICE_DECIMALS), Some(1));
    assert_eq!(parse_scaled("0.5", AMOUNT_DECIMALS), Some(5000));
    // finer than the tick, malformed, or out of range
    assert_eq!(parse_scaled("1.555", PRICE_DECIMALS), None);
    assert_eq!(parse_scaled(".5", PRICE_DECIMALS), None);
    assert_eq!(parse_scaled("1.", PRICE_DECIMALS), None);
    assert_eq!(parse_scaled("1.2.3", PRICE_DECIMALS), None);
    assert_eq!(parse_scaled("", PRICE_DECIMALS), None);
    assert_eq!(parse_scaled("-1", PRICE_DECIMALS), None);
    assert_eq!(parse_scaled("999999999999999999", PRICE_DECIMALS), None);
}

#[test]
fn format_scaled_renders_canonical_fixed_point() {
    assert_eq!(format_scaled(10000, PRICE_DECIMALS), "100");
    assert_eq!(format_scaled(10050, PRICE_DECIMALS), "100.5");
    assert_eq!(format_scaled(10055, PRICE_DECIMALS), "100.55");
    assert_eq!(format_scaled(1, PRICE_DECIMALS), "0.01");
    assert_eq!(format_scaled(0, PRICE_DECIMALS), "0");
    assert_eq!(format_scaled(12345, AMOUNT_DECIMALS), "1.2345");
    for s in ["100", "100.5", "0.01", "7.77"] {
        let n = parse_scaled(s, PRICE_DECIMALS).unwrap();
        assert_eq!(format_scaled(n, PRICE_DECIMALS), s);
    }
}

#[test]
fn str_eq_compares_by_characters() {
    assert!(str_eq("", ""));
    assert!(str_eq("abc", "abc"));
    assert!(!str_eq("abc", "abd"));
    assert!(!str_eq("abc", "abcd"));
}

#[test]
fn split_market_takes_base_and_quote() {
    let (base, quote) = split_market("SOL_USDC");
    assert_eq!(base, "SOL");
    assert_eq!(quote, "USDC");
    // no underscore: the whole symbol is the base, the engine's base
    // currency is the quote
    let (base, quote) = split_market("TATA");
    assert_eq!(base, "TATA");
    assert_eq!(quote, "INR");
    // only the segment up to the second underscore is the quote
    let (base, quote) = split_market("A_B_C");
    assert_eq!(base, "A");
    assert_eq!(quote, "B");
}

#[test]
fn subscriptions_track_first_and_last_follower() {
    let mut m = SubscriptionManager::new();
    // first follower of a channel
    assert!(m.subscribe("u1", "depth@SOL_USDC".to_string()));
    // second follower of the same channel
    assert!(!m.subscribe("u2", "depth@SOL_USDC".to_string()));
    // an already-followed channel changes nothing
    assert!(!m.subscribe("u1", "depth@SOL_USDC".to_string()));
    assert_eq!(m.get_subscriptions("u1"), vec!["depth@SOL_USDC".to_string()]);

    assert!(m.subscribe("u1", "trade@SOL_USDC".to_string()));
    assert_eq!(
        m.get_subscriptions("u1"),
        vec!["depth@SOL_USDC".to_string(), "trade@SOL_USDC".to_string()]
    );

    // not the last follower yet
    assert!(!m.unsubscribe("u1", "depth@SOL_USDC"));
    assert_eq!(m.get_subscriptions("u1"), vec!["trade@SOL_USDC".to_string()]);
    // the last follower leaves
    assert!(m.unsubscribe("u2", "depth@SOL_USDC"));
    // unknown channel is a no-op
    assert!(!m.unsubscribe("u1", "nope"));
}

#[test]
fn auth_service_builds() {
    let s = AuthService::new();
    let s2 = s.clone();
    assert_eq!(format!("{:?}", s2), "AuthService");
    let m = SubscriptionManager::new();
    assert_eq!(m.subscriptions.len(), 0);
    assert_eq!(m.reverse_subscriptions.len(), 0);
}
