use edge_steer::cache::Entry;
use edge_steer::origin::{full_response, not_modified_response, parse_max_age, DEFAULT_MAX_AGE_SECS};

#[test]
fn missing_header_gives_default() {
    assert_eq!(parse_max_age(None, 60), 60);
    assert_eq!(parse_max_age(Some(""), 42), 42);
    assert_eq!(parse_max_age(Some("private"), 42), 42);
}

#[test]
fn max_age_is_read() {
    assert_eq!(parse_max_age(Some("max-age=300"), 60), 300);
    assert_eq!(parse_max_age(Some("public, max-age=120"), 60), 120);
    assert_eq!(parse_max_age(Some("  max-age=9  "), 60), 9);
    assert_eq!(parse_max_age(Some("max-age=+15"), 60), 15);
    assert_eq!(parse_max_age(Some("max-age=0"), 60), 0);
}

#[test]
fn no_store_and_no_cache_give_zero() {
    assert_eq!(parse_max_age(Some("no-store"), 60), 0);
    assert_eq!(parse_max_age(Some("no-cache, max-age=5"), 60), 0);
    assert_eq!(parse_max_age(Some("public,no-store"), 60), 0);
}

#[test]
fn first_deciding_directive_wins() {
    assert_eq!(parse_max_age(Some("max-age=5, no-cache"), 60), 5);
    assert_eq!(parse_max_age(Some("max-age=5, max-age=7"), 60), 5);
}

#[test]
fn malformed_max_age_is_skipped() {
    assert_eq!(parse_max_age(Some("max-age=abc, max-age=7"), 60), 7);
    assert_eq!(parse_max_age(Some("max-age="), 60), 60);
    assert_eq!(parse_max_age(Some("max-age=-3"), 60), 60);
    assert_eq!(parse_max_age(Some("max-age = 3"), 60), 60);
    assert_eq!(parse_max_age(Some("max-age=18446744073709551616"), 60), 60);
    assert_eq!(parse_max_age(Some("max-age=18446744073709551615"), 60), u64::MAX);
}

#[test]
fn not_modified_keeps_body_and_refreshes_expiry() {
    let stale = Entry { body: b"payload".to_vec(), etag: "\"v7\"".to_string(), expires_at: 10 };
    let r = not_modified_response(&stale, Some("max-age=30"), 1000);
    assert_eq!(r.entry.body, b"payload".to_vec());
    assert_eq!(r.entry.etag, "\"v7\"");
    assert_eq!(r.entry.expires_at, 1030);
    assert_eq!(r.bytes_from_origin, 0);
    let d = not_modified_response(&stale, None, 1000);
    assert_eq!(d.entry.expires_at, 1000 + DEFAULT_MAX_AGE_SECS);
}

#[test]
fn full_response_counts_body_bytes() {
    let r = full_response(b"abcdef".to_vec(), Some("\"e1\""), Some("max-age=5"), 100);
    assert_eq!(r.entry.body, b"abcdef".to_vec());
    assert_eq!(r.entry.etag, "\"e1\"");
    assert_eq!(r.entry.expires_at, 105);
    assert_eq!(r.bytes_from_origin, 6);
    let n = full_response(Vec::new(), None, Some("no-store"), 100);
    assert_eq!(n.entry.etag, "");
    assert_eq!(n.entry.expires_at, 100);
    assert_eq!(n.bytes_from_origin, 0);
}
