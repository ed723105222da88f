//! Service metrics: the Prometheus text exposition of a counter snapshot,
//! and the bounded latency sample buckets.

use vstd::prelude::*;
use crate::text::{decimal, push_decimal};

verus! {

/// The counters and recent latency percentiles of the service, read at one
/// moment.
#[derive(Debug)]
pub struct MetricsSnapshot {
    pub http_requests_total: u64,
    pub http_errors_total: u64,
    pub search_total: u64,
    pub upsert_total: u64,
    pub replicate_total: u64,
    pub snapshot_total: u64,
    pub shard_fanout_total: u64,
    pub shard_fanout_errors: u64,
    /// Sum of request latencies in microseconds.
    pub http_latency_micros_sum: u64,
    /// Last observed number of write-ahead-log records pending a snapshot.
    pub wal_lag_last: u64,
    /// Approximate 99th percentile latency of the `search` route.
    pub search_p99_micros: u64,
    /// Approximate 99th percentile latency of the `http` route.
    pub http_p99_micros: u64,
}

/// One metric in the text exposition format: its help line, its type line
/// and its sample line.
pub open spec fn metric_block(kind: Seq<char>, name: Seq<char>, help: Seq<char>, value: u64) -> Seq<char> {
    "# HELP "@ + name + " "@ + help + "\n"@ + "# TYPE "@ + name + " "@ + kind + "\n"@ + name + " "@
        + decimal(value as nat) + "\n"@
}

pub open spec fn counter(name: Seq<char>, help: Seq<char>, value: u64) -> Seq<char> {
    metric_block("counter"@, name, help, value)
}

pub open spec fn gauge(name: Seq<char>, help: Seq<char>, value: u64) -> Seq<char> {
    metric_block("gauge"@, name, help, value)
}

/// The average request latency: the latency sum over the request count
/// (at least 1).
pub open spec fn average_latency(s: MetricsSnapshot) -> u64 {
    let reqs = if s.http_requests_total == 0 {
        1
    } else {
        s.http_requests_total
    };
    (s.http_latency_micros_sum / reqs) as u64
}

/// The whole exposition: eight counters, then the p99, WAL-lag and average
/// latency gauges.
pub open spec fn prometheus_text(s: MetricsSnapshot) -> Seq<char> {
    counter("topolsea_http_requests_total"@, "Total HTTP requests"@, s.http_requests_total)
        + counter("topolsea_http_errors_total"@, "Total HTTP 4xx/5xx responses"@, s.http_errors_total)
        + counter("topolsea_search_total"@, "Search / hybrid / sparse queries"@, s.search_total)
        + counter("topolsea_upsert_total"@, "Upsert operations"@, s.upsert_total)
        + counter("topolsea_replicate_total"@, "Replication apply operations"@, s.replicate_total)
        + counter("topolsea_snapshot_total"@, "Snapshot create operations"@, s.snapshot_total)
        + counter("topolsea_shard_fanout_total"@, "Remote shard fan-out calls"@, s.shard_fanout_total)
        + counter(
        "topolsea_shard_fanout_errors_total"@,
        "Remote shard fan-out failures"@,
        s.shard_fanout_errors,
    ) + gauge(
        "topolsea_http_latency_p99_micros"@,
        "Approx p99 latency across recent samples (search route if present)"@,
        if s.search_p99_micros >= s.http_p99_micros {
            s.search_p99_micros
        } else {
            s.http_p99_micros
        },
    ) + gauge("topolsea_wal_lag_last"@, "Last observed WAL records pending snapshot"@, s.wal_lag_last)
        + gauge(
        "topolsea_http_latency_avg_micros"@,
        "Average HTTP latency microseconds"@,
        average_latency(s),
    )
}

proof fn lemma_regroup(a: Seq<char>, g: Seq<char>, p: Seq<char>, h: Seq<char>, n: Seq<char>, d: Seq<char>, e: Seq<char>)
    requires
        g == h + n + d + e,
    ensures
        a + g + p == (a + h) + n + d + e + p,
{
    assert(a + g + p =~= (a + h) + n + d + e + p);
}

/// The exposition reports the p99 latency as the larger of the search and
/// the http p99: the text holds the sample line of
/// `topolsea_http_latency_p99_micros` with a value at least each of the
/// two and equal to one of them.
pub proof fn law_p99_is_larger(s: MetricsSnapshot) -> (r: (Seq<char>, u64, Seq<char>))
    ensures
        prometheus_text(s) == r.0 + "topolsea_http_latency_p99_micros "@ + decimal(r.1 as nat) + "\n"@
            + r.2,
        r.1 >= s.search_p99_micros,
        r.1 >= s.http_p99_micros,
        r.1 == s.search_p99_micros || r.1 == s.http_p99_micros,
{
    let v = if s.search_p99_micros >= s.http_p99_micros {
        s.search_p99_micros
    } else {
        s.http_p99_micros
    };
    let name = "topolsea_http_latency_p99_micros"@;
    let help = "Approx p99 latency across recent samples (search route if present)"@;
    let a = counter("topolsea_http_requests_total"@, "Total HTTP requests"@, s.http_requests_total)
        + counter("topolsea_http_errors_total"@, "Total HTTP 4xx/5xx responses"@, s.http_errors_total)
        + counter("topolsea_search_total"@, "Search / hybrid / sparse queries"@, s.search_total)
        + counter("topolsea_upsert_total"@, "Upsert operations"@, s.upsert_total)
        + counter("topolsea_replicate_total"@, "Replication apply operations"@, s.replicate_total)
        + counter("topolsea_snapshot_total"@, "Snapshot create operations"@, s.snapshot_total)
        + counter("topolsea_shard_fanout_total"@, "Remote shard fan-out calls"@, s.shard_fanout_total)
        + counter(
        "topolsea_shard_fanout_errors_total"@,
        "Remote shard fan-out failures"@,
        s.shard_fanout_errors,
    );
    let g = gauge(name, help, v);
    let p = gauge("topolsea_wal_lag_last"@, "Last observed WAL records pending snapshot"@, s.wal_lag_last)
        + gauge("topolsea_http_latency_avg_micros"@, "Average HTTP latency microseconds"@, average_latency(s));
    assert(prometheus_text(s) =~= a + g + p);
    let h = "# HELP "@ + name + " "@ + help + "\n"@ + "# TYPE "@ + name + " "@ + "gauge"@ + "\n"@;
    let n = "topolsea_http_latency_p99_micros "@;
    reveal_strlit("topolsea_http_latency_p99_micros");
    reveal_strlit(" ");
    reveal_strlit("topolsea_http_latency_p99_micros ");
    assert(name + " "@ =~= n);
    assert(g =~= h + n + decimal(v as nat) + "\n"@);
    lemma_regroup(a, g, p, h, n, decimal(v as nat), "\n"@);
    (a + h, v, p)
}

fn push_block(out: &mut String, kind: &str, name: &str, help: &str, value: u64)
    ensures
        final(out)@ == old(out)@ + metric_block(kind@, name@, help@, value),
{
    out.append("# HELP ");
    out.append(name);
    out.append(" ");
    out.append(help);
    out.append("\n");
    out.append("# TYPE ");
    out.append(name);
    out.append(" ");
    out.append(kind);
    out.append("\n");
    out.append(name);
    out.append(" ");
    push_decimal(out, value);
    out.append("\n");
    assert(out@ =~= old(out)@ + metric_block(kind@, name@, help@, value));
}

/// Prometheus text exposition of a snapshot.
pub fn render_prometheus(s: &MetricsSnapshot) -> (r: String)
    ensures
        r@ == prometheus_text(*s),
{
    let mut out = String::new();
    push_block(&mut out, "counter", "topolsea_http_requests_total", "Total HTTP requests", s.http_requests_total);
    push_block(
        &mut out,
        "counter",
        "topolsea_http_errors_total",
        "Total HTTP 4xx/5xx responses",
        s.http_errors_total,
    );
    push_block(&mut out, "counter", "topolsea_search_total", "Search / hybrid / sparse queries", s.search_total);
    push_block(&mut out, "counter", "topolsea_upsert_total", "Upsert operations", s.upsert_total);
    push_block(&mut out, "counter", "topolsea_replicate_total", "Replication apply operations", s.replicate_total);
    push_block(&mut out, "counter", "topolsea_snapshot_total", "Snapshot create operations", s.snapshot_total);
    push_block(&mut out, "counter", "topolsea_shard_fanout_total", "Remote shard fan-out calls", s.shard_fanout_total);
    push_block(
        &mut out,
        "counter",
        "topolsea_shard_fanout_errors_total",
        "Remote shard fan-out failures",
        s.shard_fanout_errors,
    );
    let p99 = if s.search_p99_micros >= s.http_p99_micros {
        s.search_p99_micros
    } else {
        s.http_p99_micros
    };
    push_block(
        &mut out,
        "gauge",
        "topolsea_http_latency_p99_micros",
        "Approx p99 latency across recent samples (search route if present)",
        p99,
    );
    push_block(&mut out, "gauge", "topolsea_wal_lag_last", "Last observed WAL records pending snapshot", s.wal_lag_last);
    let reqs = if s.http_requests_total == 0 {
        1
    } else {
        s.http_requests_total
    };
    let avg = s.http_latency_micros_sum / reqs;
    push_block(&mut out, "gauge", "topolsea_http_latency_avg_micros", "Average HTTP latency microseconds", avg);
    assert(out@ =~= prometheus_text(*s));
    out
}

/// Adds a latency sample to a route's bucket; a bucket past 2048 samples
/// drops its oldest 1024.
pub fn record_sample(bucket: &mut Vec<u64>, micros: u64)
    ensures
        final(bucket)@ == recorded(old(bucket)@, micros),
{
    bucket.push(micros);
    if bucket.len() > 2048 {
        let ghost full = bucket@;
        let mut kept: Vec<u64> = Vec::new();
        let mut i: usize = 1024;
        while i < bucket.len()
            invariant
                1024 <= i <= bucket@.len(),
                bucket@ == full,
                kept@ == full.subrange(1024, i as int),
            decreases bucket@.len() - i,
        {
            kept.push(bucket[i]);
            proof {
                assert(full.subrange(1024, i + 1) =~= full.subrange(1024, i as int).push(full[i as int]));
            }
            i = i + 1;
        }
        *bucket = kept;
    }
}

/// The bucket a sample leaves: the samples with the new one on the end,
/// less the oldest 1024 once past 2048.
pub open spec fn recorded(bucket: Seq<u64>, micros: u64) -> Seq<u64> {
    let full = bucket.push(micros);
    if full.len() > 2048 {
        full.subrange(1024, full.len() as int)
    } else {
        full
    }
}

/// Samples stay bounded: a bucket of at most 2048 samples still holds at
/// most 2048 after a sample is recorded, and the newest sample is kept.
pub proof fn law_bucket_bounded(bucket: Seq<u64>, micros: u64)
    requires
        bucket.len() <= 2048,
    ensures
        recorded(bucket, micros).len() <= 2048,
        recorded(bucket, micros).last() == micros,
{
}

} // verus!
