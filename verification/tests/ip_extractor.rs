use http::{HeaderMap, HeaderValue};
use rust_lambda_middleware_example::ip_extractor::{client_ip_candidates, first_accepted};

/// A test stand-in for an IP parser: a dotted quad of numbers up to 255, or
/// colon-separated hexadecimal groups.
fn parse_address(s: &str) -> Option<String> {
    let parts: Vec<&str> = s.split('.').collect();
    if parts.len() == 4
        && parts.iter().all(|p| {
            !p.is_empty() && p.len() <= 3 && p.chars().all(|c| c.is_ascii_digit())
                && p.parse::<u32>().unwrap() <= 255
        })
    {
        return Some(s.to_string());
    }
    if s.contains(':') && s.chars().all(|c| c == ':' || c.is_ascii_hexdigit()) {
        return Some(s.to_string());
    }
    None
}

fn extract(headers: &HeaderMap) -> Option<String> {
    let candidates = client_ip_candidates(headers);
    first_accepted(&candidates, |c: &str| parse_address(c))
}

fn headers(pairs: &[(&'static str, &str)]) -> HeaderMap {
    let mut h = HeaderMap::new();
    for (name, value) in pairs {
        h.insert(*name, value.parse().unwrap());
    }
    h
}

#[test]
fn x_forwarded_for_single_ip() {
    let h = headers(&[("x-forwarded-for", "192.168.1.1")]);
    assert_eq!(extract(&h), Some("192.168.1.1".to_string()));
}

#[test]
fn x_forwarded_for_picks_first_valid() {
    let h = headers(&[("x-forwarded-for", "invalid, 203.0.113.1, 10.0.0.1")]);
    assert_eq!(extract(&h), Some("203.0.113.1".to_string()));
}

#[test]
fn fallback_to_x_real_ip() {
    let h = headers(&[("x-real-ip", "203.0.113.5")]);
    assert_eq!(extract(&h), Some("203.0.113.5".to_string()));
}

#[test]
fn fallback_to_cf_connecting_ip() {
    let h = headers(&[("cf-connecting-ip", "198.51.100.7")]);
    assert_eq!(extract(&h), Some("198.51.100.7".to_string()));
}

#[test]
fn priority_forwarded_for_wins() {
    let h = headers(&[
        ("cf-connecting-ip", "198.51.100.7"),
        ("x-real-ip", "203.0.113.5"),
        ("x-forwarded-for", "192.168.1.1"),
    ]);
    assert_eq!(extract(&h), Some("192.168.1.1".to_string()));
}

#[test]
fn ipv6_is_supported() {
    let h = headers(&[("x-forwarded-for", "2001:db8::1")]);
    assert_eq!(extract(&h), Some("2001:db8::1".to_string()));
}

#[test]
fn none_when_no_headers() {
    assert_eq!(extract(&HeaderMap::new()), None);
}

#[test]
fn candidates_follow_priority_and_are_trimmed() {
    let h = headers(&[
        ("cf-connecting-ip", "  198.51.100.7\t"),
        ("x-real-ip", " 203.0.113.5 "),
        ("x-forwarded-for", " a ,b,, \tc\t"),
    ]);
    let c = client_ip_candidates(&h);
    assert_eq!(c, vec!["a", "b", "", "c", "203.0.113.5", "198.51.100.7"]);
}

#[test]
fn empty_forwarded_for_is_one_empty_candidate() {
    let h = headers(&[("x-forwarded-for", "")]);
    assert_eq!(client_ip_candidates(&h), vec![""]);
    assert_eq!(extract(&h), None);
}

#[test]
fn invalid_forwarded_for_falls_back_to_real_ip() {
    let h = headers(&[("x-forwarded-for", "unknown, nope"), ("x-real-ip", "203.0.113.9")]);
    assert_eq!(extract(&h), Some("203.0.113.9".to_string()));
}

#[test]
fn non_text_header_value_is_skipped() {
    let mut h = HeaderMap::new();
    h.insert("x-forwarded-for", HeaderValue::from_bytes(b"10.0.0.1\xff").unwrap());
    h.insert("x-real-ip", "203.0.113.7".parse().unwrap());
    assert_eq!(client_ip_candidates(&h), vec!["203.0.113.7"]);
}

#[test]
fn only_the_first_value_of_a_header_counts() {
    let mut h = HeaderMap::new();
    h.append("x-real-ip", "not-an-ip".parse().unwrap());
    h.append("x-real-ip", "203.0.113.8".parse().unwrap());
    assert_eq!(client_ip_candidates(&h), vec!["not-an-ip"]);
    assert_eq!(extract(&h), None);
}

#[test]
fn header_names_are_case_insensitive() {
    let mut h = HeaderMap::new();
    h.insert("X-Forwarded-For", "192.0.2.4".parse().unwrap());
    assert_eq!(extract(&h), Some("192.0.2.4".to_string()));
}

#[test]
fn first_accepted_stops_at_first_match() {
    let candidates = vec!["x", "1", "2"];
    let got = first_accepted(&candidates, |c: &str| c.parse::<u32>().ok());
    assert_eq!(got, Some(1));
    let none: Vec<&str> = vec!["x", "y"];
    assert_eq!(first_accepted(&none, |c: &str| c.parse::<u32>().ok()), None);
}
