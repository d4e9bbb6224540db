use kafka_proxy::metrics::{page_kb_from, rss_from_statm, Derived, Histogram, Metrics};

const MICRO: u64 = 1_000;
const MILLI: u64 = 1_000_000;
const SECOND: u64 = 1_000_000_000;

fn derived() -> Derived {
    Derived {
        acquire_sum: "0".to_string(),
        request_sum: "0".to_string(),
        handshake_sum: "0".to_string(),
        hit_rate: "0".to_string(),
        resident_bytes: 4096,
    }
}

#[test]
fn histogram_observe_and_cumulative() {
    let mut h = Histogram::new();
    h.observe(50 * MICRO);
    h.observe(2 * MILLI);
    h.observe(10 * SECOND);
    assert_eq!(h.count, 3);
    assert_eq!(h.counts[0], 1);
    let idx_005 = h.bounds.iter().position(|&b| b == 5 * MILLI).unwrap();
    assert_eq!(h.counts[idx_005], 2);
    assert_eq!(h.counts[h.bounds.len()], 3);
    assert_eq!(h.sum_micros, 50 + 2_000 + 10_000_000);
}

#[test]
fn histogram_bounds_are_inclusive() {
    let mut h = Histogram::with_buckets(vec![10, 20]);
    h.observe(10);
    h.observe(11);
    h.observe(21);
    assert_eq!(h.counts, vec![1, 2, 3]);
    assert_eq!(h.sum_micros, 0);
}

#[test]
fn histogram_holds_any_series() {
    let series = [7u64, 10, 0, 500, 11, 10, 99, 100, 101, u64::MAX];
    let mut h = Histogram::with_buckets(vec![0, 10, 100]);
    for (seen, x) in series.iter().enumerate() {
        h.observe(*x);
        for (i, bound) in h.bounds.iter().enumerate() {
            let expected = series[..=seen].iter().filter(|y| *y <= bound).count() as u64;
            assert_eq!(h.counts[i], expected);
        }
        assert_eq!(h.counts[3], seen as u64 + 1);
        assert_eq!(h.count, seen as u64 + 1);
    }
}

#[test]
fn metrics_render_contains_key_lines() {
    let mut m = Metrics::new(true);
    m.inc_frames_downstream();
    m.inc_downstream_connections();
    let text = m.render_prometheus(&derived());
    assert!(text.contains("kafka_proxy_frames_total{dir=\"downstream\"}"));
    assert!(text.contains("kafka_proxy_downstream_connections"));
    assert!(text.contains("kafka_proxy_process_resident_memory_bytes"));
}

#[test]
fn metrics_disabled_skips_collection() {
    let mut m = Metrics::new(false);
    m.inc_frames_downstream();
    m.inc_pool_hits();
    m.inc_cid_map_entries();
    m.inc_downstream_connections();
    let text = m.render_prometheus(&derived());
    assert!(text.contains("kafka_proxy_frames_total{dir=\"downstream\"} 0"));
    assert!(text.contains("kafka_proxy_cid_map_entries 0"));
    assert!(text.contains("kafka_proxy_pool_hits_total 0"));
    assert!(text.contains("kafka_proxy_downstream_connections 1"));
}

#[test]
fn disabled_histograms_stay_empty() {
    let mut m = Metrics::new(false);
    m.observe_acquire(SECOND);
    m.observe_request(SECOND);
    m.observe_handshake(SECOND);
    assert_eq!(m.acquire_hist.count, 0);
    assert_eq!(m.request_hist.count, 0);
    assert_eq!(m.handshake_hist.count, 0);
    m.inc_upstream_connections();
    assert_eq!(m.upstream_connections, 1);
}

#[test]
fn every_figure_is_counted() {
    let mut m = Metrics::new(true);
    m.inc_frames_upstream();
    m.add_bytes_downstream(7);
    m.add_bytes_upstream(9);
    m.inc_requests_in_flight();
    m.inc_requests_in_flight();
    m.dec_requests_in_flight();
    m.inc_auth_failures();
    m.inc_pool_misses();
    m.inc_pool_evictions();
    m.inc_pool_waiters();
    m.dec_pool_waiters();
    m.inc_cid_map_entries();
    m.sub_cid_map_entries(3);
    m.inc_downstream_connections();
    m.dec_downstream_connections();
    m.inc_upstream_connections();
    m.dec_upstream_connections();
    m.dec_upstream_connections();
    m.observe_request(3 * MILLI);
    assert_eq!(m.frames_upstream, 1);
    assert_eq!(m.bytes_downstream, 7);
    assert_eq!(m.bytes_upstream, 9);
    assert_eq!(m.requests_in_flight, 1);
    assert_eq!(m.auth_failures, 1);
    assert_eq!(m.pool_misses, 1);
    assert_eq!(m.pool_evictions, 1);
    assert_eq!(m.pool_waiters, 0);
    assert_eq!(m.cid_map_entries, -2);
    assert_eq!(m.downstream_connection_count(), 0);
    assert_eq!(m.upstream_connections, -1);
    assert_eq!(m.request_hist.count, 1);
}

#[test]
fn whole_text() {
    let mut m = Metrics::new(true);
    m.inc_frames_downstream();
    m.add_bytes_upstream(1234567);
    m.dec_upstream_connections();
    m.inc_pool_hits();
    m.observe_acquire(600 * MILLI);
    let d = Derived {
        acquire_sum: "0.6".to_string(),
        request_sum: "0".to_string(),
        handshake_sum: "0".to_string(),
        hit_rate: "1".to_string(),
        resident_bytes: 10485760,
    };
    let text = m.render_prometheus(&d);
    let head = "# HELP kafka_proxy_frames_total Frames forwarded by direction.\n\
        # TYPE kafka_proxy_frames_total counter\n\
        kafka_proxy_frames_total{dir=\"downstream\"} 1\n\
        kafka_proxy_frames_total{dir=\"upstream\"} 0\n\
        # HELP kafka_proxy_bytes_total Bytes forwarded by direction.\n\
        # TYPE kafka_proxy_bytes_total counter\n\
        kafka_proxy_bytes_total{dir=\"downstream\"} 0\n\
        kafka_proxy_bytes_total{dir=\"upstream\"} 1234567\n\
        # HELP kafka_proxy_requests_in_flight In-flight requests.\n\
        # TYPE kafka_proxy_requests_in_flight gauge\n\
        kafka_proxy_requests_in_flight 0\n\
        # HELP kafka_proxy_downstream_connections Active downstream connections.\n\
        # TYPE kafka_proxy_downstream_connections gauge\n\
        kafka_proxy_downstream_connections 0\n\
        # HELP kafka_proxy_upstream_connections Active upstream pooled connections.\n\
        # TYPE kafka_proxy_upstream_connections gauge\n\
        kafka_proxy_upstream_connections -1\n\
        # HELP kafka_proxy_pool_hits_total Pool acquire hits.\n\
        # TYPE kafka_proxy_pool_hits_total counter\n\
        kafka_proxy_pool_hits_total 1\n";
    assert!(text.starts_with(head), "{text}");
    let acquire = "# HELP kafka_proxy_acquire_duration_seconds Time waiting to acquire an upstream connection.\n\
        # TYPE kafka_proxy_acquire_duration_seconds histogram\n\
        kafka_proxy_acquire_duration_seconds_bucket{le=\"0.0001\"} 0\n\
        kafka_proxy_acquire_duration_seconds_bucket{le=\"0.0005\"} 0\n\
        kafka_proxy_acquire_duration_seconds_bucket{le=\"0.001\"} 0\n\
        kafka_proxy_acquire_duration_seconds_bucket{le=\"0.005\"} 0\n\
        kafka_proxy_acquire_duration_seconds_bucket{le=\"0.01\"} 0\n\
        kafka_proxy_acquire_duration_seconds_bucket{le=\"0.05\"} 0\n\
        kafka_proxy_acquire_duration_seconds_bucket{le=\"0.1\"} 0\n\
        kafka_proxy_acquire_duration_seconds_bucket{le=\"0.5\"} 0\n\
        kafka_proxy_acquire_duration_seconds_bucket{le=\"1.0\"} 1\n\
        kafka_proxy_acquire_duration_seconds_bucket{le=\"5.0\"} 1\n\
        kafka_proxy_acquire_duration_seconds_bucket{le=\"+Inf\"} 1\n\
        kafka_proxy_acquire_duration_seconds_sum 0.6\n\
        kafka_proxy_acquire_duration_seconds_count 1\n";
    assert!(text.contains(acquire), "{text}");
    assert!(text.contains("kafka_proxy_pool_hit_rate 1\n"));
    let tail = "# HELP kafka_proxy_process_resident_memory_bytes Process RSS bytes.\n\
        # TYPE kafka_proxy_process_resident_memory_bytes gauge\n\
        kafka_proxy_process_resident_memory_bytes 10485760\n\
        # HELP kafka_proxy_cid_map_entries correlation_id remap table entries.\n\
        # TYPE kafka_proxy_cid_map_entries gauge\n\
        kafka_proxy_cid_map_entries 0\n";
    assert!(text.ends_with(tail), "{text}");
}

#[test]
fn resident_memory() {
    assert_eq!(rss_from_statm("1000 25 3 4 5 6 7\n", 4), Some(25 * 4096));
    assert_eq!(rss_from_statm("1000", 4), Some(0));
    assert_eq!(rss_from_statm("1000 x", 4), Some(0));
    assert_eq!(rss_from_statm("", 4), Some(0));
    assert_eq!(rss_from_statm("1 18446744073709551615", 4), None);
}

#[test]
fn page_size() {
    assert_eq!(page_kb_from(Some(b"4096\n")), 4);
    assert_eq!(page_kb_from(Some(b" 65536 ")), 64);
    assert_eq!(page_kb_from(Some(b"many")), 4);
    assert_eq!(page_kb_from(Some(&[0xff])), 4);
    assert_eq!(page_kb_from(None), 4);
}
