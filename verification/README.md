# edge_steer

A verified library for an edge cache node and the layer that steers traffic
between nodes.

- `src/cache.rs` — a byte-bounded LRU cache (`LruCache`, `Entry`, `Stats`):
  contents modelled as key/entry pairs in recency order, with exact
  contracts for lookups, stores, evictions and counters.
- `src/edge.rs` — the cache key (sorted, tracking-free query parameters and
  the accepted encoding), cacheability of a request, and a concurrency gate.
- `src/origin.rs` — `Cache-Control` freshness and the entries built from
  full and `304 Not Modified` origin responses.
- `src/coalesce.rs` — stale-while-revalidate and the decisions of request
  coalescing (one leader per key).
- `src/steering.rs` — node selection under a latency budget.
- `src/metrics.rs` — the Prometheus exposition text.
- `src/text.rs` — character-level helpers the parsers share.

`app/` holds what stays outside verification: the async coalescer, the HTTP
fetch, the load generator, and the floating-point measurements (EWMA latency,
scores, costs, ratios) that feed the selection rules.
