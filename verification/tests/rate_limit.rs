use std::collections::HashMap;
use std::sync::Arc;

use rust_lambda_middleware_example::numeric_text::{decimal_string, parse_u32};
use rust_lambda_middleware_example::rate_limit::{
    append_rate_limit_headers, counter_from_attribute, counter_key, counter_window, current_epoch_secs,
    epoch_secs_or_zero, try_append_rate_limit_headers, CounterRequest,
    CounterWindow, Decision, HeaderField, RateLimitConfig, RateLimitService, Step,
};

fn test_config(max: u32) -> RateLimitConfig {
    RateLimitConfig {
        table_name: "test-table".to_string(),
        max_requests: max,
        window_secs: 60,
    }
}

/// An in-memory counter store, as the store's update does it.
struct MemoryStore {
    counters: HashMap<String, u32>,
    fail: bool,
}

impl MemoryStore {
    fn new() -> Self {
        MemoryStore { counters: HashMap::new(), fail: false }
    }
    fn increment_and_get(&mut self, key: &str) -> Option<u32> {
        if self.fail {
            return None;
        }
        let c = self.counters.entry(key.to_string()).or_insert(0);
        *c += 1;
        Some(*c)
    }
}

/// One request through the limiter; `None` for a request that is passed
/// through uncounted.
fn run(config: &RateLimitConfig, store: &mut MemoryStore, ip: Option<&str>, now: u64) -> Option<Decision> {
    match config.plan_request(ip, now) {
        Step::PassThrough => None,
        Step::Count(req) => {
            let count = store.increment_and_get(&req.key);
            Some(req.decide(count))
        }
    }
}

fn header_value(d: &Decision, field: HeaderField) -> Option<String> {
    d.headers().into_iter().find(|h| h.field == field).map(|h| h.value)
}

#[test]
fn under_limit_calls_inner_service() {
    let config = test_config(10);
    let mut store = MemoryStore::new();
    let d = run(&config, &mut store, Some("203.0.113.1"), 1_000).unwrap();
    assert!(matches!(d, Decision::Allow { .. }));
    assert_eq!(d.status(), None);
    assert_eq!(header_value(&d, HeaderField::RateLimitLimit).unwrap(), "10");
    assert_eq!(header_value(&d, HeaderField::RateLimitRemaining).unwrap(), "9");
    assert!(header_value(&d, HeaderField::RateLimitReset).is_some());
}

#[test]
fn over_limit_returns_429() {
    let config = test_config(1);
    let mut store = MemoryStore::new();
    let first = run(&config, &mut store, Some("203.0.113.2"), 1_000).unwrap();
    assert!(matches!(first, Decision::Allow { .. }));
    let second = run(&config, &mut store, Some("203.0.113.2"), 1_001).unwrap();
    assert_eq!(second.status(), Some(429));
    assert!(header_value(&second, HeaderField::RetryAfter).is_some());
    assert_eq!(header_value(&second, HeaderField::RateLimitRemaining).unwrap(), "0");
}

#[test]
fn different_ips_have_separate_counters() {
    let config = test_config(1);
    let mut store = MemoryStore::new();
    let first = run(&config, &mut store, Some("203.0.113.10"), 1_000).unwrap();
    assert!(matches!(first, Decision::Allow { .. }));
    let second = run(&config, &mut store, Some("203.0.113.20"), 1_000).unwrap();
    assert!(matches!(second, Decision::Allow { .. }));
}

#[test]
fn dynamodb_error_returns_500() {
    let config = test_config(10);
    let mut store = MemoryStore { counters: HashMap::new(), fail: true };
    let d = run(&config, &mut store, Some("203.0.113.30"), 1_000).unwrap();
    assert_eq!(d, Decision::Unavailable);
    assert_eq!(d.status(), Some(500));
}

#[test]
fn missing_ip_falls_through_to_inner() {
    let config = test_config(1);
    let mut store = MemoryStore::new();
    assert!(run(&config, &mut store, None, 1_000).is_none());
    assert!(store.counters.is_empty());
}

#[test]
fn first_max_requests_served_then_refused() {
    let config = test_config(10);
    let mut store = MemoryStore::new();
    for n in 1..=10u32 {
        let d = run(&config, &mut store, Some("198.51.100.1"), 5_000).unwrap();
        assert_eq!(d, Decision::Allow { limit: 10, remaining: 10 - n, reset_at: 5_040 });
    }
    let d = run(&config, &mut store, Some("198.51.100.1"), 5_039).unwrap();
    assert_eq!(d, Decision::Reject { limit: 10, reset_at: 5_040, retry_after: 1 });
    // The next window starts a new counter.
    let d = run(&config, &mut store, Some("198.51.100.1"), 5_040).unwrap();
    assert_eq!(d, Decision::Allow { limit: 10, remaining: 9, reset_at: 5_100 });
}

#[test]
fn window_arithmetic() {
    assert_eq!(
        counter_window(1_000, 60),
        CounterWindow { bucket: 16, reset_at: 1_020, seconds_until_reset: 20, ttl: 1_080 }
    );
    assert_eq!(
        counter_window(1_020, 60),
        CounterWindow { bucket: 17, reset_at: 1_080, seconds_until_reset: 60, ttl: 1_140 }
    );
    // A zero-length window is taken as one second.
    assert_eq!(
        counter_window(7, 0),
        CounterWindow { bucket: 7, reset_at: 8, seconds_until_reset: 1, ttl: 9 }
    );
    // Sums and products are held at u64::MAX.
    assert_eq!(
        counter_window(u64::MAX, 10),
        CounterWindow { bucket: u64::MAX / 10, reset_at: u64::MAX, seconds_until_reset: 0, ttl: u64::MAX }
    );
}

#[test]
fn counter_key_format() {
    assert_eq!(counter_key("203.0.113.1", 16), "203.0.113.1#16");
    assert_eq!(counter_key("2001:db8::1", 0), "2001:db8::1#0");
}

#[test]
fn plan_request_counts_known_clients() {
    let config = test_config(3);
    match config.plan_request(Some("10.1.2.3"), 125) {
        Step::Count(CounterRequest { table_name, key, ttl, limit, window }) => {
            assert_eq!(table_name, "test-table");
            assert_eq!(key, "10.1.2.3#2");
            assert_eq!(ttl, 240);
            assert_eq!(limit, 3);
            assert_eq!(window.reset_at, 180);
            assert_eq!(window.seconds_until_reset, 55);
        }
        Step::PassThrough => panic!("expected a counter"),
    }
    assert!(matches!(config.plan_request(None, 125), Step::PassThrough));
}

#[test]
fn decision_headers_in_order() {
    let d = Decision::Reject { limit: 5, reset_at: 120, retry_after: 7 };
    let hs: Vec<(&str, String)> = d.headers().into_iter().map(|h| (h.field.name(), h.value)).collect();
    assert_eq!(
        hs,
        vec![
            ("content-type", "application/json".to_string()),
            ("cache-control", "no-store".to_string()),
            ("retry-after", "7".to_string()),
            ("RateLimit-Limit", "5".to_string()),
            ("RateLimit-Remaining", "0".to_string()),
            ("RateLimit-Reset", "120".to_string()),
        ]
    );
    let d = Decision::Allow { limit: 10, remaining: 4, reset_at: 900 };
    let hs: Vec<(&str, String)> = d.headers().into_iter().map(|h| (h.field.name(), h.value)).collect();
    assert_eq!(
        hs,
        vec![
            ("RateLimit-Limit", "10".to_string()),
            ("RateLimit-Remaining", "4".to_string()),
            ("RateLimit-Reset", "900".to_string()),
        ]
    );
    let hs: Vec<(&str, String)> =
        Decision::Unavailable.headers().into_iter().map(|h| (h.field.name(), h.value)).collect();
    assert_eq!(
        hs,
        vec![
            ("content-type", "application/json".to_string()),
            ("cache-control", "no-store".to_string()),
        ]
    );
}

#[test]
fn decimal_text() {
    assert_eq!(decimal_string(0), "0");
    assert_eq!(decimal_string(9), "9");
    assert_eq!(decimal_string(10), "10");
    assert_eq!(decimal_string(1_234_567_890), "1234567890");
    assert_eq!(decimal_string(u64::MAX), u64::MAX.to_string());
}

#[test]
fn parse_counter_text() {
    assert_eq!(parse_u32("42"), Some(42));
    assert_eq!(parse_u32("+7"), Some(7));
    assert_eq!(parse_u32("007"), Some(7));
    assert_eq!(parse_u32("4294967295"), Some(u32::MAX));
    assert_eq!(parse_u32("4294967296"), None);
    assert_eq!(parse_u32("99999999999999999999"), None);
    assert_eq!(parse_u32(""), None);
    assert_eq!(parse_u32("+"), None);
    assert_eq!(parse_u32("-1"), None);
    assert_eq!(parse_u32(" 1"), None);
    assert_eq!(parse_u32("1a"), None);
    assert_eq!(parse_u32("é"), None);
    for s in ["", "+", "-0", "12", "+12", "00", "4294967295", "4294967296", "x", "١"] {
        assert_eq!(parse_u32(s), s.parse::<u32>().ok(), "{s}");
    }
}

#[test]
fn counter_from_store_answer() {
    assert_eq!(counter_from_attribute(Some("5")), 5);
    assert_eq!(counter_from_attribute(Some("not a number")), 1);
    assert_eq!(counter_from_attribute(None), 1);
    assert_eq!(counter_from_attribute(Some(&decimal_string(77))), 77);
}

#[test]
fn service_holds_its_parts() {
    let config = Arc::new(test_config(2));
    let mut service = RateLimitService::with_store(5u8, "store", Arc::clone(&config));
    assert_eq!(*service.store(), "store");
    assert_eq!(service.config().max_requests, 2);
    *service.inner_mut() += 1;
    assert_eq!(*service.inner_mut(), 6);
    match service.plan_request(Some("192.0.2.1"), 61) {
        Step::Count(req) => assert_eq!(req.key, "192.0.2.1#1"),
        Step::PassThrough => panic!("expected a counter"),
    }
}

#[test]
fn clock_reads_after_2020() {
    assert!(current_epoch_secs() > 1_577_836_800);
}

#[test]
fn failed_count_has_fixed_json_body() {
    assert_eq!(Decision::Unavailable.fixed_body(), Some(r#"{"error":"internal server error"}"#));
    assert_eq!(Decision::Reject { limit: 1, reset_at: 60, retry_after: 3 }.fixed_body(), None);
    assert_eq!(Decision::Allow { limit: 1, remaining: 0, reset_at: 60 }.fixed_body(), None);
}

#[test]
fn served_response_headers_replace_earlier_values() {
    let mut h = http::HeaderMap::new();
    h.insert("content-type", "application/json".parse().unwrap());
    h.append("ratelimit-limit", "old".parse().unwrap());
    h.append("ratelimit-limit", "older".parse().unwrap());
    let d = Decision::Allow { limit: 10, remaining: 9, reset_at: 1_020 };
    append_rate_limit_headers(&mut h, &d.headers());
    assert_eq!(h.get("content-type").unwrap(), "application/json");
    let limits: Vec<_> = h.get_all("RateLimit-Limit").iter().collect();
    assert_eq!(limits, vec!["10"]);
    assert_eq!(h.get("RateLimit-Remaining").unwrap(), "9");
    assert_eq!(h.get("RateLimit-Reset").unwrap(), "1020");
    assert_eq!(h.keys_len(), 4);
}

#[test]
fn epoch_seconds_before_the_epoch_are_zero() {
    assert_eq!(epoch_secs_or_zero(Some(1_700_000_000)), 1_700_000_000);
    assert_eq!(epoch_secs_or_zero(None), 0);
}

#[test]
fn try_append_sets_headers_when_the_map_is_small() {
    let mut h = http::HeaderMap::new();
    h.insert("x-other", "kept".parse().unwrap());
    let d = Decision::Allow { limit: 3, remaining: 1, reset_at: 60 };
    assert!(try_append_rate_limit_headers(&mut h, &d.headers()));
    assert_eq!(h.get("x-other").unwrap(), "kept");
    assert_eq!(h.get("RateLimit-Limit").unwrap(), "3");
    assert_eq!(h.get("RateLimit-Remaining").unwrap(), "1");
    assert_eq!(h.get("RateLimit-Reset").unwrap(), "60");
}

#[test]
fn last_served_headers_win() {
    let mut once = http::HeaderMap::new();
    let mut twice = http::HeaderMap::new();
    let first = Decision::Allow { limit: 5, remaining: 4, reset_at: 60 };
    let second = Decision::Allow { limit: 5, remaining: 3, reset_at: 60 };
    append_rate_limit_headers(&mut twice, &first.headers());
    append_rate_limit_headers(&mut twice, &second.headers());
    append_rate_limit_headers(&mut once, &second.headers());
    assert_eq!(once, twice);
}
