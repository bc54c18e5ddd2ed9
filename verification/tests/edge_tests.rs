use edge_steer::edge::{cache_key, is_cacheable_request, ConcurrencyGate};
use std::collections::BTreeMap;

#[test]
fn query_parameters_are_sorted() {
    assert_eq!(cache_key("/x", "b=2&a=1", None), "/x?a=1&b=2|enc=identity");
    assert_eq!(cache_key("/x", "a=1&b=2", None), cache_key("/x", "b=2&a=1", None));
}

#[test]
fn tracking_parameters_are_dropped() {
    assert_eq!(
        cache_key("/x", "utm_source=mail&a=1&fbclid=9&gclid=3&utm_=z", None),
        "/x?a=1|enc=identity"
    );
}

#[test]
fn tracking_prefix_is_exact() {
    // `utmx` is not a tracking parameter; `fbclid2` is not `fbclid`.
    assert_eq!(cache_key("/x", "utmx=1&fbclid2=2", None), "/x?fbclid2=2&utmx=1|enc=identity");
}

#[test]
fn repeated_key_keeps_last_value() {
    assert_eq!(cache_key("/x", "a=1&a=2", None), "/x?a=2|enc=identity");
}

#[test]
fn parameter_without_value_gets_empty_value() {
    assert_eq!(cache_key("/x", "flag", None), "/x?flag=|enc=identity");
}

#[test]
fn value_may_contain_equals() {
    assert_eq!(cache_key("/x", "a=b=c", None), "/x?a=b=c|enc=identity");
}

#[test]
fn empty_pieces_are_skipped() {
    assert_eq!(cache_key("/x", "&&a=1&", None), "/x?a=1|enc=identity");
    assert_eq!(cache_key("/x", "", None), "/x?|enc=identity");
}

#[test]
fn keys_sort_by_code_point() {
    assert_eq!(cache_key("/", "b=1&B=2&ab=3&a=4", None), "/?B=2&a=4&ab=3&b=1|enc=identity");
    assert_eq!(cache_key("/", "é=1&z=2", None), "/?z=2&é=1|enc=identity");
}

#[test]
fn encoding_is_part_of_the_key() {
    assert_eq!(cache_key("/x", "", Some("gzip, deflate, br")), "/x?|enc=br");
    assert_eq!(cache_key("/x", "", Some("gzip, deflate")), "/x?|enc=gzip");
    assert_eq!(cache_key("/x", "", Some("deflate")), "/x?|enc=identity");
    assert_ne!(cache_key("/x", "", Some("gzip")), cache_key("/x", "", None));
}

#[test]
fn only_get_and_head_are_cacheable() {
    let h = BTreeMap::new();
    assert!(is_cacheable_request("GET", &h));
    assert!(is_cacheable_request("HEAD", &h));
    assert!(!is_cacheable_request("POST", &h));
    assert!(!is_cacheable_request("get", &h));
    assert!(!is_cacheable_request("GETS", &h));
}

#[test]
fn credentials_make_a_request_uncacheable() {
    let mut h = BTreeMap::new();
    h.insert("accept".to_string(), "*/*".to_string());
    assert!(is_cacheable_request("GET", &h));
    let mut a = h.clone();
    a.insert("authorization".to_string(), "Bearer x".to_string());
    assert!(!is_cacheable_request("GET", &a));
    let mut c = h.clone();
    c.insert("cookie".to_string(), "id=1".to_string());
    assert!(!is_cacheable_request("HEAD", &c));
}

#[test]
fn gate_admits_up_to_its_limit() {
    let mut g = ConcurrencyGate::new(2);
    assert!(g.try_enter());
    assert!(g.try_enter());
    assert!(!g.try_enter());
    assert_eq!(g.in_flight(), 2);
    g.leave();
    assert_eq!(g.in_flight(), 1);
    assert!(g.try_enter());
    assert_eq!(g.limit(), 2);
}

#[test]
fn gate_with_zero_limit_admits_nothing() {
    let mut g = ConcurrencyGate::new(0);
    assert!(!g.try_enter());
    assert_eq!(g.in_flight(), 0);
}

#[test]
fn leave_without_enter_wraps_like_an_atomic() {
    let mut g = ConcurrencyGate::new(5);
    g.leave();
    assert_eq!(g.in_flight(), u64::MAX);
    assert!(!g.try_enter());
}
