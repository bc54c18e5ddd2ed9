use edge_steer::steering::{choose_within_budget, first_min_index};

// The nodes of the price experiment: a (20 ms, 8c), b (25 ms, 3c),
// c (90 ms, 2c). Ranks order the latencies and the costs.
fn latency_rank() -> Vec<u64> {
    vec![20, 25, 90]
}

#[test]
fn cheapest_within_budget_wins() {
    let qualifies = vec![true, true, false]; // budget 60 ms excludes c
    let cost = vec![8, 3, 2];
    let healthy = vec![true, true, true];
    assert_eq!(choose_within_budget(&qualifies, &cost, &healthy, &latency_rank()), Some(1));
}

#[test]
fn raising_a_price_moves_traffic() {
    let qualifies = vec![true, true, false];
    let cost = vec![8, 12, 2];
    let healthy = vec![true, true, true];
    assert_eq!(choose_within_budget(&qualifies, &cost, &healthy, &latency_rank()), Some(0));
}

#[test]
fn relaxing_the_budget_admits_the_cheapest() {
    let qualifies = vec![true, true, true]; // budget 120 ms
    let cost = vec![8, 3, 2];
    let healthy = vec![true, true, true];
    assert_eq!(choose_within_budget(&qualifies, &cost, &healthy, &latency_rank()), Some(2));
}

#[test]
fn fastest_healthy_when_none_qualifies() {
    let qualifies = vec![false, false, false];
    let cost = vec![8, 3, 2];
    let healthy = vec![false, true, true];
    assert_eq!(choose_within_budget(&qualifies, &cost, &healthy, &latency_rank()), Some(1));
    let none = vec![false, false, false];
    assert_eq!(choose_within_budget(&qualifies, &cost, &none, &latency_rank()), None);
}

#[test]
fn first_of_equal_minima() {
    assert_eq!(first_min_index(&vec![true, true, true], &vec![5, 3, 3]), Some(1));
    assert_eq!(first_min_index(&vec![false, true, true], &vec![1, 3, 3]), Some(1));
    assert_eq!(first_min_index(&vec![], &vec![]), None);
}
