//! Edge caching and traffic steering: a byte-bounded LRU cache with honest
//! hit accounting, the cache key and cacheability rules, HTTP freshness,
//! request coalescing, node selection and the exported metrics.
pub mod cache;
pub mod coalesce;
pub mod edge;
pub mod loadgen;
pub mod metrics;
pub mod origin;
pub mod steering;
pub mod text;
