use topolsea::observe::{record_sample, render_prometheus, MetricsSnapshot};
use topolsea::types::VectorId;
use topolsea::text::decimal_string;

fn snapshot() -> MetricsSnapshot {
    MetricsSnapshot {
        http_requests_total: 4,
        http_errors_total: 1,
        search_total: 2,
        upsert_total: 3,
        replicate_total: 0,
        snapshot_total: 5,
        shard_fanout_total: 6,
        shard_fanout_errors: 7,
        http_latency_micros_sum: 10,
        wal_lag_last: 9,
        search_p99_micros: 120,
        http_p99_micros: 300,
    }
}

#[test]
fn prometheus_text_is_exact() {
    let text = render_prometheus(&snapshot());
    let lines: Vec<&str> = text.lines().collect();
    assert_eq!(lines.len(), 33);
    assert_eq!(lines[0], "# HELP topolsea_http_requests_total Total HTTP requests");
    assert_eq!(lines[1], "# TYPE topolsea_http_requests_total counter");
    assert_eq!(lines[2], "topolsea_http_requests_total 4");
    assert_eq!(lines[23], "topolsea_shard_fanout_errors_total 7");
    assert_eq!(lines[25], "# TYPE topolsea_http_latency_p99_micros gauge");
    assert_eq!(lines[26], "topolsea_http_latency_p99_micros 300");
    assert_eq!(lines[29], "topolsea_wal_lag_last 9");
    // 10 / 4, rounded down
    assert_eq!(lines[32], "topolsea_http_latency_avg_micros 2");
    assert!(text.ends_with('\n'));
}

#[test]
fn average_latency_with_no_requests() {
    let mut s = snapshot();
    s.http_requests_total = 0;
    s.http_latency_micros_sum = 77;
    let text = render_prometheus(&s);
    assert!(text.contains("topolsea_http_latency_avg_micros 77\n"));
    assert!(text.contains("topolsea_http_requests_total 0\n"));
}

#[test]
fn samples_stay_bounded() {
    let mut bucket: Vec<u64> = Vec::new();
    for i in 0..2048u64 {
        record_sample(&mut bucket, i);
    }
    assert_eq!(bucket.len(), 2048);
    record_sample(&mut bucket, 9999);
    assert_eq!(bucket.len(), 1025);
    assert_eq!(bucket[0], 1024);
    assert_eq!(*bucket.last().unwrap(), 9999);
}

#[test]
fn decimal_rendering() {
    assert_eq!(decimal_string(0), "0");
    assert_eq!(decimal_string(18446744073709551615), "18446744073709551615");
    assert_eq!(VectorId(42).to_string(), "42");
    assert_eq!(VectorId(42).raw(), 42);
}
