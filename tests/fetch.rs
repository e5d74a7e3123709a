use super_eodhd::eodhd::{
    keep_parsed, on_response, plan_windows, FetchError, RequestCounter, ResponseAction, Window,
    WINDOW_SECONDS,
};
use super_eodhd::models::{normalize_codes, symbol_key, ExchangeSymbol};

#[test]
fn rate_limit_backs_off_linearly_then_gives_up() {
    for attempt in 1..=10usize {
        assert_eq!(
            on_response(attempt, 429),
            ResponseAction::Retry { sleep_secs: 2 * attempt as u64 }
        );
    }
    assert_eq!(on_response(11, 429), ResponseAction::Fail(FetchError::RateLimitExhausted));
}

#[test]
fn statuses_are_classified() {
    assert_eq!(on_response(1, 200), ResponseAction::Body);
    assert_eq!(on_response(3, 204), ResponseAction::Body);
    assert_eq!(on_response(1, 404), ResponseAction::Empty);
    assert_eq!(on_response(1, 500), ResponseAction::Fail(FetchError::Status(500)));
    assert_eq!(on_response(1, 301), ResponseAction::Fail(FetchError::Status(301)));
    assert_eq!(on_response(2, 403), ResponseAction::Fail(FetchError::Status(403)));
}

#[test]
fn default_walk_is_one_window() {
    let to = 1_700_000_000i64;
    let ws = plan_windows(to, None).unwrap();
    assert_eq!(ws, vec![Window { from: to - WINDOW_SECONDS, to }]);
}

#[test]
fn walk_goes_back_in_window_steps() {
    let to = 1_700_000_000i64;
    let from = to - 2 * WINDOW_SECONDS - 100;
    let ws = plan_windows(to, Some(from)).unwrap();
    assert_eq!(
        ws,
        vec![
            Window { from: to - WINDOW_SECONDS, to },
            Window { from: to - 2 * WINDOW_SECONDS, to: to - WINDOW_SECONDS },
            Window { from, to: to - 2 * WINDOW_SECONDS },
        ]
    );
}

#[test]
fn walk_of_empty_span_has_no_window() {
    assert_eq!(plan_windows(500, Some(500)).unwrap(), Vec::<Window>::new());
}

#[test]
fn walk_refuses_reversed_bounds() {
    assert_eq!(plan_windows(500, Some(501)), Err(FetchError::InvalidRange));
}

#[test]
fn walk_near_the_smallest_time_saturates() {
    let ws = plan_windows(i64::MIN + 10, None).unwrap();
    assert_eq!(ws, vec![Window { from: i64::MIN, to: i64::MIN + 10 }]);
}

#[test]
fn request_counter_adds_weights() {
    let mut c = RequestCounter::new();
    c.charge(Some(5));
    c.charge(None);
    c.charge(Some(10));
    assert_eq!(c.total, 15);
    c.charge(Some(usize::MAX));
    assert_eq!(c.total, usize::MAX);
}

#[test]
fn malformed_records_are_dropped_in_order() {
    let page = vec![Some(1), None, Some(3), None, None, Some(6)];
    assert_eq!(keep_parsed(page), vec![1, 3, 6]);
    assert_eq!(keep_parsed::<u8>(vec![None, None]), Vec::<u8>::new());
    assert_eq!(keep_parsed::<u8>(Vec::new()), Vec::<u8>::new());
}

#[test]
fn symbol_identity_is_code_dot_exchange() {
    assert_eq!(symbol_key("AAPL", "US"), "AAPL.US");
    assert_eq!(symbol_key("", "LSE"), ".LSE");
    let s = ExchangeSymbol {
        code: "BRK-B".to_string(),
        name: "Berkshire".to_string(),
        country: "USA".to_string(),
        exchange: "NYSE".to_string(),
        currency: "USD".to_string(),
        symbol_type: "Common Stock".to_string(),
        isin: Some("US0846707026".to_string()),
    };
    assert_eq!(s.key(), "BRK-B.NYSE");
}

#[test]
fn codes_are_upper_cased() {
    let codes = vec!["aapl".to_string(), "Msft".to_string(), "IBM".to_string()];
    assert_eq!(normalize_codes(&codes), vec!["AAPL", "MSFT", "IBM"]);
}
