use edge_steer::cache::Stats;
use edge_steer::metrics::{render_exposition, u64_decimal};

#[test]
fn decimal_spelling() {
    assert_eq!(u64_decimal(0), "0");
    assert_eq!(u64_decimal(7), "7");
    assert_eq!(u64_decimal(10), "10");
    assert_eq!(u64_decimal(1234567890), "1234567890");
    assert_eq!(u64_decimal(u64::MAX), u64::MAX.to_string());
}

#[test]
fn exposition_text_is_exact() {
    let stats = Stats { hits: 12, misses: 3, evictions: 1, revalidations: 2, bytes_stored: 99 };
    let text = render_exposition("a", "us-east", &stats, 4096, "20.50", "0.2500", "8.0000");
    let l = "node=\"a\",region=\"us-east\"";
    let expected = format!(
        "# TYPE cache_hits_total counter\ncache_hits_total{{{l}}} 12\n\
# TYPE cache_misses_total counter\ncache_misses_total{{{l}}} 3\n\
# TYPE cache_revalidations_total counter\ncache_revalidations_total{{{l}}} 2\n\
# TYPE cache_evictions_total counter\ncache_evictions_total{{{l}}} 1\n\
# TYPE origin_bytes_total counter\norigin_bytes_total{{{l}}} 4096\n\
# TYPE node_latency_ewma_ms gauge\nnode_latency_ewma_ms{{{l}}} 20.50\n\
# TYPE node_load_ratio gauge\nnode_load_ratio{{{l}}} 0.2500\n\
# TYPE node_cost_per_gb_cents gauge\nnode_cost_per_gb_cents{{{l}}} 8.0000\n"
    );
    assert_eq!(text, expected);
}

#[test]
fn labels_never_hold_the_cache_key() {
    let text = render_exposition("n1", "eu", &Stats::default(), 0, "0.00", "0.0000", "0.0000");
    assert!(!text.contains("/asset"));
    assert_eq!(text.lines().count(), 16);
}
