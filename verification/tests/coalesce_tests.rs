use edge_steer::cache::Entry;
use edge_steer::coalesce::{should_serve_stale_while_revalidating, FlightRole, InFlight};

fn expiring(at: u64) -> Entry {
    Entry { body: Vec::new(), etag: String::new(), expires_at: at }
}

#[test]
fn stale_while_revalidate_window() {
    let e = expiring(100);
    assert!(!should_serve_stale_while_revalidating(&e, 50, 10));
    assert!(!should_serve_stale_while_revalidating(&e, 100, 10));
    assert!(should_serve_stale_while_revalidating(&e, 101, 10));
    assert!(should_serve_stale_while_revalidating(&e, 110, 10));
    assert!(!should_serve_stale_while_revalidating(&e, 111, 10));
    assert!(!should_serve_stale_while_revalidating(&e, 101, 0));
}

#[test]
fn one_leader_until_the_fetch_completes() {
    let mut f = InFlight::new();
    assert_eq!(f.begin("/a"), FlightRole::Leader);
    assert_eq!(f.begin("/a"), FlightRole::Follower);
    assert_eq!(f.begin("/a"), FlightRole::Follower);
    assert!(f.contains("/a"));
    f.finish("/a");
    assert!(!f.contains("/a"));
    assert_eq!(f.begin("/a"), FlightRole::Leader);
}

#[test]
fn keys_are_coalesced_independently() {
    let mut f = InFlight::new();
    assert_eq!(f.begin("/a"), FlightRole::Leader);
    assert_eq!(f.begin("/b"), FlightRole::Leader);
    f.finish("/a");
    assert_eq!(f.begin("/b"), FlightRole::Follower);
    assert_eq!(f.begin("/a"), FlightRole::Leader);
    f.finish("/missing");
    assert!(f.contains("/a") && f.contains("/b"));
}
