//! Prometheus text exposition for one node.
//!
//! These metrics have two audiences. A human reads them during an incident,
//! and the steering layer reads them to make routing decisions. The second
//! audience is why hit ratio inputs are exported rather than kept internal.
use vstd::prelude::*;
use vstd::string::*;
use crate::cache::Stats;

verus! {

pub open spec fn digit_char(d: nat) -> char {
    (48 + d) as char
}

/// The decimal spelling of `n`, without leading zeros.
pub open spec fn decimal(n: nat) -> Seq<char>
    decreases n,
{
    if n < 10 {
        seq![digit_char(n)]
    } else {
        decimal(n / 10).push(digit_char(n % 10))
    }
}

fn digit_str(d: u64) -> (r: &'static str)
    requires
        d < 10,
    ensures
        r@ == seq![digit_char(d as nat)],
{
    proof {
        reveal_strlit("0");
        reveal_strlit("1");
        reveal_strlit("2");
        reveal_strlit("3");
        reveal_strlit("4");
        reveal_strlit("5");
        reveal_strlit("6");
        reveal_strlit("7");
        reveal_strlit("8");
        reveal_strlit("9");
    }
    let r = if d == 0 {
        "0"
    } else if d == 1 {
        "1"
    } else if d == 2 {
        "2"
    } else if d == 3 {
        "3"
    } else if d == 4 {
        "4"
    } else if d == 5 {
        "5"
    } else if d == 6 {
        "6"
    } else if d == 7 {
        "7"
    } else if d == 8 {
        "8"
    } else {
        "9"
    };
    assert(r@ =~= seq![digit_char(d as nat)]);
    r
}

/// Appends the decimal spelling of `n`.
fn append_decimal(out: &mut String, n: u64)
    ensures
        final(out)@ == old(out)@ + decimal(n as nat),
    decreases n,
{
    if n >= 10 {
        append_decimal(out, n / 10);
    }
    out.append(digit_str(n % 10));
    proof {
        if n >= 10 {
            assert(decimal(n as nat) == decimal((n / 10) as nat).push(digit_char((n % 10) as nat)));
        }
    }
}

/// The decimal spelling of `n`.
pub fn u64_decimal(n: u64) -> (r: String)
    ensures
        r@ == decimal(n as nat),
{
    let mut out = String::new();
    append_decimal(&mut out, n);
    assert(out@ =~= decimal(n as nat));
    out
}

/// `node="…",region="…"`.
pub open spec fn labels(node_id: Seq<char>, region: Seq<char>) -> Seq<char> {
    seq!['n', 'o', 'd', 'e', '=', '"'] + node_id + seq!['"', ',', 'r', 'e', 'g', 'i', 'o', 'n', '=', '"']
        + region + seq!['"']
}

/// One metric: its `# TYPE` line, then `name{labels} value`.
pub open spec fn metric_block(
    name: Seq<char>,
    kind: Seq<char>,
    labels: Seq<char>,
    value: Seq<char>,
) -> Seq<char> {
    seq!['#', ' ', 'T', 'Y', 'P', 'E', ' '] + name + seq![' '] + kind + seq!['\n'] + name + seq!['{']
        + labels + seq!['}', ' '] + value + seq!['\n']
}

fn append_block(out: &mut String, name: &str, kind: &str, labels: &str, value: &str)
    ensures
        final(out)@ == old(out)@ + metric_block(name@, kind@, labels@, value@),
{
    proof {
        reveal_strlit("# TYPE ");
        reveal_strlit(" ");
        reveal_strlit("\n");
        reveal_strlit("{");
        reveal_strlit("} ");
    }
    let ghost start = out@;
    out.append("# TYPE ");
    out.append(name);
    out.append(" ");
    out.append(kind);
    out.append("\n");
    out.append(name);
    out.append("{");
    out.append(labels);
    out.append("} ");
    out.append(value);
    out.append("\n");
    assert("# TYPE "@ =~= seq!['#', ' ', 'T', 'Y', 'P', 'E', ' ']);
    assert(" "@ =~= seq![' ']);
    assert("\n"@ =~= seq!['\n']);
    assert("{"@ =~= seq!['{']);
    assert("} "@ =~= seq!['}', ' ']);
    assert(out@ =~= start + metric_block(name@, kind@, labels@, value@));
}

/// The exposition text of one node. Counters come from `stats` and
/// `origin_bytes_total`; the gauges arrive already formatted (latency to two
/// decimals, load and cost to four).
///
/// Labels are node id and region only. Never the cache key: an unbounded
/// label set creates one time series per URL and takes down the metrics
/// backend faster than any traffic spike.
pub open spec fn exposition(
    node_id: Seq<char>,
    region: Seq<char>,
    stats: Stats,
    origin_bytes_total: u64,
    latency: Seq<char>,
    load: Seq<char>,
    cost: Seq<char>,
) -> Seq<char> {
    let l = labels(node_id, region);
    metric_block("cache_hits_total"@, "counter"@, l, decimal(stats.hits as nat)) + metric_block(
        "cache_misses_total"@,
        "counter"@,
        l,
        decimal(stats.misses as nat),
    ) + metric_block("cache_revalidations_total"@, "counter"@, l, decimal(stats.revalidations as nat))
        + metric_block("cache_evictions_total"@, "counter"@, l, decimal(stats.evictions as nat))
        + metric_block("origin_bytes_total"@, "counter"@, l, decimal(origin_bytes_total as nat))
        + metric_block("node_latency_ewma_ms"@, "gauge"@, l, latency) + metric_block(
        "node_load_ratio"@,
        "gauge"@,
        l,
        load,
    ) + metric_block("node_cost_per_gb_cents"@, "gauge"@, l, cost)
}

/// Render the exposition text for one node.
pub fn render_exposition(
    node_id: &str,
    region: &str,
    stats: &Stats,
    origin_bytes_total: u64,
    latency: &str,
    load: &str,
    cost: &str,
) -> (r: String)
    ensures
        r@ == exposition(node_id@, region@, *stats, origin_bytes_total, latency@, load@, cost@),
{
    proof {
        reveal_strlit("node=\"");
        reveal_strlit("\",region=\"");
        reveal_strlit("\"");
    }
    let mut l = String::new();
    l.append("node=\"");
    l.append(node_id);
    l.append("\",region=\"");
    l.append(region);
    l.append("\"");
    assert("node=\""@ =~= seq!['n', 'o', 'd', 'e', '=', '"']);
    assert("\",region=\""@ =~= seq!['"', ',', 'r', 'e', 'g', 'i', 'o', 'n', '=', '"']);
    assert("\""@ =~= seq!['"']);
    assert(l@ =~= labels(node_id@, region@));
    let ls = l.as_str();
    let mut out = String::new();
    let hits = u64_decimal(stats.hits);
    append_block(&mut out, "cache_hits_total", "counter", ls, hits.as_str());
    let misses = u64_decimal(stats.misses);
    append_block(&mut out, "cache_misses_total", "counter", ls, misses.as_str());
    let revalidations = u64_decimal(stats.revalidations);
    append_block(&mut out, "cache_revalidations_total", "counter", ls, revalidations.as_str());
    let evictions = u64_decimal(stats.evictions);
    append_block(&mut out, "cache_evictions_total", "counter", ls, evictions.as_str());
    // Origin bytes is the number that becomes the bandwidth bill.
    let origin = u64_decimal(origin_bytes_total);
    append_block(&mut out, "origin_bytes_total", "counter", ls, origin.as_str());
    // Gauges: a point-in-time reading, not an accumulation.
    append_block(&mut out, "node_latency_ewma_ms", "gauge", ls, latency);
    append_block(&mut out, "node_load_ratio", "gauge", ls, load);
    append_block(&mut out, "node_cost_per_gb_cents", "gauge", ls, cost);
    assert(out@ =~= exposition(node_id@, region@, *stats, origin_bytes_total, latency@, load@, cost@));
    out
}

} // verus!
