use edge_steer::loadgen::{asset_key, interval_nanos, pacing_step};

#[test]
fn interval_from_rate() {
    assert_eq!(interval_nanos(2000), 500_000);
    assert_eq!(interval_nanos(1), 1_000_000_000);
    assert_eq!(interval_nanos(0), 1_000_000_000);
    assert_eq!(interval_nanos(3), 333_333_333);
}

#[test]
fn ahead_of_schedule_waits() {
    assert_eq!(pacing_step(1_000, 500, 1_200), (1_500, 300));
}

#[test]
fn behind_schedule_does_not_wait_or_catch_up() {
    assert_eq!(pacing_step(1_000, 500, 9_000), (1_500, 0));
    assert_eq!(pacing_step(1_000, 500, 1_500), (1_500, 0));
}

#[test]
fn asset_keys_are_clamped() {
    assert_eq!(asset_key(42, 10_000), "/asset/42");
    assert_eq!(asset_key(10_000, 10_000), "/asset/9999");
    assert_eq!(asset_key(0, 1), "/asset/0");
}
