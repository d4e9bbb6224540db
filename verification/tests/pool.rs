use std::collections::HashMap;

use bytes::{BufMut, Bytes, BytesMut};
use kafka_client::protocol::{Message, MetadataResponse, MetadataResponseBroker, Response};
use kafka_proxy::config::Duration;
use kafka_proxy::metrics::Metrics;
use kafka_proxy::net::SocketAddr;
use kafka_proxy::pool::{
    on_response, route_response, with_cid, AcquireStep, BrokerPool, CidRemap, Link, LinkAction,
    LinkEvent, PoolLimits, ResponseStep, RouteEntry,
};
use kafka_proxy::rewrite::{parse_request_header, RewriteMap};

fn entry(cid_d: i32, conn_id: u64) -> RouteEntry {
    RouteEntry {
        downstream: 7,
        cid_d,
        api_key: 3,
        api_version: 9,
        started: 0,
        conn_id,
    }
}

#[test]
fn cid_remap_insert_take() {
    let mut remap = CidRemap::new();
    let mut metrics = Metrics::new(true);
    let conn_id = remap.alloc_conn_id();
    let cid_u = remap
        .insert(entry(100, conn_id), &mut metrics)
        .expect("an id");
    assert_eq!(cid_u, 2);
    assert_eq!(remap.in_flight(), 1);
    assert_eq!(metrics.cid_map_entries, 1);

    let taken = remap.take(cid_u, &mut metrics).expect("the entry");
    assert_eq!(taken.cid_d, 100);
    assert_eq!(taken.api_key, 3);
    assert_eq!(taken.conn_id, conn_id);
    assert_eq!(remap.in_flight(), 0);
    assert_eq!(metrics.cid_map_entries, 0);
    assert!(remap.take(cid_u, &mut metrics).is_none());
    assert_eq!(metrics.cid_map_entries, 0);
}

#[test]
fn cid_remap_backpressure() {
    let mut remap = CidRemap::with_max_in_flight(2);
    let mut metrics = Metrics::new(true);
    let conn_id = remap.alloc_conn_id();
    assert!(remap.insert(entry(1, conn_id), &mut metrics).is_some());
    assert!(remap.insert(entry(2, conn_id), &mut metrics).is_some());
    assert!(remap.insert(entry(3, conn_id), &mut metrics).is_none());
    assert_eq!(remap.in_flight(), 2);
}

#[test]
fn cid_remap_fail_conn_isolates() {
    let mut remap = CidRemap::new();
    let mut metrics = Metrics::new(true);
    let conn1 = 1u64;
    let conn2 = 2u64;
    let _c1 = remap.insert(entry(100, conn1), &mut metrics);
    let c2 = remap.insert(entry(200, conn2), &mut metrics).unwrap();
    assert_eq!(remap.in_flight(), 2);

    let removed = remap.fail_conn(conn1, &mut metrics);
    assert_eq!(removed, 1);
    assert_eq!(remap.in_flight(), 1);
    assert_eq!(metrics.cid_map_entries, 1);
    assert_eq!(remap.take(c2, &mut metrics).unwrap().cid_d, 200);
}

#[test]
fn ids_start_at_two_and_differ() {
    let mut remap = CidRemap::new();
    for expected in 2..1000 {
        assert_eq!(remap.alloc_cid_u(), expected);
    }
}

#[test]
fn each_request_is_counted() {
    let mut remap = CidRemap::with_max_in_flight(500);
    let mut m = Metrics::new(true);
    let mut ids = Vec::new();
    for n in 0..500 {
        let cid = remap.insert(entry(n, 1), &mut m).unwrap();
        assert!(cid > 0 && !ids.contains(&cid));
        ids.push(cid);
        assert_eq!(remap.in_flight(), n as usize + 1);
    }
    assert!(remap.insert(entry(1, 1), &mut m).is_none());
    assert_eq!(remap.in_flight(), 500);
}

#[test]
fn request_stays_while_others_come_and_go() {
    let mut remap = CidRemap::new();
    let mut m = Metrics::new(true);
    let kept = remap.insert(entry(42, 1), &mut m).unwrap();
    for n in 0..50 {
        let other = remap.insert(entry(n, 2), &mut m).unwrap();
        assert_ne!(other, kept);
        if n % 2 == 0 {
            assert_eq!(remap.take(other, &mut m).unwrap().cid_d, n);
        }
    }
    assert_eq!(remap.fail_conn(2, &mut m), 25);
    let taken = remap.take(kept, &mut m).unwrap();
    assert_eq!((taken.cid_d, taken.conn_id), (42, 1));
    assert_eq!(remap.in_flight(), 0);
}

#[test]
fn connection_ids_go_up() {
    let mut remap = CidRemap::new();
    assert_eq!(remap.alloc_conn_id(), 1);
    assert_eq!(remap.alloc_conn_id(), 2);
}

fn metadata_frame(cid: i32) -> Bytes {
    let mut buf = BytesMut::new();
    buf.put_i32(cid);
    buf.put_u8(0);
    let resp = MetadataResponse {
        throttle_time_ms: 0,
        brokers: vec![MetadataResponseBroker {
            node_id: 1,
            host: "real".to_string(),
            port: 9092,
            rack: None,
        }],
        cluster_id: Some("c".to_string()),
        controller_id: 1,
        topics: vec![],
        cluster_authorized_operations: -2147483648,
        error_code: 0,
    };
    resp.flexible_encode(&mut buf, 9).unwrap();
    buf.freeze()
}

fn one_node() -> RewriteMap {
    let mut ports = HashMap::new();
    ports.insert(1, ("127.0.0.1".to_string(), 19092));
    RewriteMap::new(ports)
}

#[test]
fn route_response_rewrites_cid_and_metadata() {
    let data = metadata_frame(555);
    let rewrite_map = one_node();
    let entry = RouteEntry {
        downstream: 0,
        cid_d: 42,
        api_key: 3,
        api_version: 9,
        started: 0,
        conn_id: 1,
    };
    let out = Bytes::from(route_response(&data, &entry, &rewrite_map));

    assert_eq!((bytes::Buf::get_i32(&mut &out[..4])), 42);
    let (_h, resp2): (_, MetadataResponse) =
        MetadataResponse::decode_frame(out.clone(), 9).unwrap();
    assert_eq!(resp2.brokers[0].host, "127.0.0.1");
    assert_eq!(resp2.brokers[0].port, 19092);
}

#[test]
fn other_responses_change_their_cid_only() {
    let entry = RouteEntry {
        api_key: 1,
        ..entry(-2, 1)
    };
    let out = route_response(&[0, 0, 0, 9, 1, 2, 3], &entry, &one_node());
    assert_eq!(out, vec![0xff, 0xff, 0xff, 0xfe, 1, 2, 3]);
}

#[test]
fn request_goes_out_under_another_cid() {
    let request = [0, 3, 0, 9, 0, 0, 0, 42, 5, 6, 7];
    let out = with_cid(&request, 0x01020304);
    assert_eq!(out, vec![0, 3, 0, 9, 1, 2, 3, 4, 5, 6, 7]);
    assert_eq!(parse_request_header(&out), Some((3, 9, 0x01020304)));
    assert_eq!(with_cid(&out, 42), request.to_vec());
}

#[test]
fn response_finds_its_way_back() {
    let mut remap = CidRemap::new();
    let mut metrics = Metrics::new(true);
    let map = one_node();
    let cid_u = remap.insert(entry(42, 1), &mut metrics).unwrap();
    metrics.inc_requests_in_flight();
    let data = metadata_frame(cid_u);
    match on_response(&data, &mut remap, &map, 3_000_000, &mut metrics) {
        ResponseStep::Deliver { downstream, frame } => {
            assert_eq!(downstream, 7);
            assert_eq!(&frame[..4], &[0, 0, 0, 42]);
        }
        _ => unreachable!(),
    }
    assert_eq!(remap.in_flight(), 0);
    assert_eq!(metrics.requests_in_flight, 0);
    assert_eq!(metrics.request_hist.count, 1);
    assert_eq!(metrics.request_hist.sum_micros, 3000);
    // Nobody waits for it any more.
    assert!(matches!(
        on_response(&data, &mut remap, &map, 0, &mut metrics),
        ResponseStep::Dropped
    ));
    assert!(matches!(
        on_response(&[1, 2, 3], &mut remap, &map, 0, &mut metrics),
        ResponseStep::Dropped
    ));
}

#[test]
fn undecodable_response_is_passed_on() {
    let mut remap = CidRemap::new();
    let mut metrics = Metrics::new(true);
    let cid_u = remap.insert(entry(42, 1), &mut metrics).unwrap();
    let data = metadata_frame(cid_u);
    let part = &data[..data.len() - 1];
    match on_response(part, &mut remap, &one_node(), 0, &mut metrics) {
        ResponseStep::Deliver { downstream, frame } => {
            assert_eq!(downstream, 7);
            assert_eq!(&frame[..4], &[0, 0, 0, 42]);
            assert_eq!(&frame[4..], &part[4..]);
        }
        ResponseStep::Dropped => unreachable!(),
    }
    assert_eq!(remap.in_flight(), 0);
    let route = entry(-1, 1);
    let out = route_response(&[0, 0, 0, 9, 0], &route, &one_node());
    assert_eq!(out, vec![0xff, 0xff, 0xff, 0xff, 0]);
}

#[test]
fn gauges_show_what_is_in_flight() {
    let p = pool(1, 0);
    let mut conns = pool(2, 0);
    let mut remap = CidRemap::new();
    let mut m = Metrics::new(true);
    let mut ids = Vec::new();
    for n in 0..6 {
        ids.push(p.register_request(&mut remap, entry(n, 1 + (n % 2) as u64), &mut m).unwrap());
        m.inc_requests_in_flight();
    }
    let shown = |m: &Metrics, remap: &CidRemap| {
        let size = remap.in_flight() as i64;
        (m.cid_map_entries, m.requests_in_flight) == (size, size)
    };
    assert!(shown(&m, &remap));
    p.cancel_request(&mut remap, ids[0], &mut m);
    assert!(shown(&m, &remap));
    on_response(&metadata_frame(ids[1]), &mut remap, &one_node(), 0, &mut m);
    assert!(shown(&m, &remap));
    conns.lost(1, &mut remap, &mut m);
    assert!(shown(&m, &remap));
    assert_eq!(remap.in_flight(), 2);
}

fn pool(max_per_broker: usize, min_idle: usize) -> BrokerPool {
    BrokerPool::new(
        5,
        SocketAddr::V4 {
            ip: 0x7f000001,
            port: 9092,
        },
        "broker".to_string(),
        PoolLimits {
            max_per_broker,
            min_idle,
            idle_timeout: Duration::from_secs(1),
            acquire_timeout: Duration::from_secs(5),
            health_check: Duration::from_secs(3),
            max_in_flight: 10,
        },
    )
}

const SECOND: u64 = 1_000_000_000;

fn lend_new(p: &mut BrokerPool, conn: u64, m: &mut Metrics) {
    assert_eq!(p.acquire(0, m), AcquireStep::Create);
    assert_eq!(p.opening_count(), 1);
    p.created(Some(conn), m);
    assert_eq!(p.opening_count(), 0);
}

#[test]
fn pool_reuses_before_it_creates() {
    let mut p = pool(2, 0);
    let mut m = Metrics::new(true);
    lend_new(&mut p, 1, &mut m);
    assert!(p.release(1, true, 100, &mut m));
    assert_eq!(p.idle_count(), 1);
    assert_eq!(p.acquire(10, &mut m), AcquireStep::Reuse(1));
    lend_new(&mut p, 2, &mut m);
    assert_eq!(p.acquire(10, &mut m), AcquireStep::Wait);
    assert_eq!(m.pool_waiters, 1);
    assert!(p.waited(true, 20, &mut m));
    assert_eq!(m.pool_waiters, 0);
    assert_eq!(p.connection_count(), 2);
    assert_eq!((m.pool_hits, m.pool_misses), (1, 2));
    assert_eq!(m.upstream_connections, 2);
    assert_eq!(m.acquire_hist.count, 4);
}

#[test]
fn pool_gives_up_after_the_wait() {
    let mut p = pool(0, 0);
    let mut m = Metrics::new(true);
    assert_eq!(p.acquire(0, &mut m), AcquireStep::Wait);
    assert!(!p.waited(false, 5, &mut m));
    assert_eq!(m.pool_waiters, 0);
    assert_eq!(m.acquire_hist.count, 0);
}

#[test]
fn time_limit_holds_for_all_waits_together() {
    let p = pool(0, 0);
    let mut m = Metrics::new(true);
    assert!(p.waited(true, 5 * SECOND - 1, &mut m));
    assert!(!p.waited(true, 5 * SECOND, &mut m));
    assert!(!p.waited(true, 9 * SECOND, &mut m));
    assert_eq!(m.acquire_hist.count, 1);
    assert_eq!(p.wait_left(0), 5 * SECOND);
    assert_eq!(p.wait_left(5 * SECOND - 1), 1);
    assert_eq!(p.wait_left(5 * SECOND), 0);
    assert_eq!(p.wait_left(u64::MAX), 0);
}

#[test]
fn probes_find_dead_connections() {
    let mut p = pool(3, 0);
    let mut m = Metrics::new(true);
    assert!(!p.probe_due(3 * SECOND - 1));
    assert!(p.probe_due(3 * SECOND));
    for id in 1..4 {
        p.warmed(id, 0, &mut m);
    }
    assert_eq!(p.idle_ids(), vec![1, 2, 3]);
    p.probed(1, false);
    p.probed(2, true);
    p.probed(9, false);
    assert_eq!(p.idle_ids(), vec![1, 2, 3]);
    assert_eq!(p.reap(1, &mut m), vec![1]);
    assert_eq!(p.idle_ids(), vec![2, 3]);
    assert_eq!(p.acquire(0, &mut m), AcquireStep::Reuse(2));
    assert_eq!((m.upstream_connections, m.pool_evictions), (2, 1));
}

#[test]
fn connection_is_lent_once() {
    let mut p = pool(3, 0);
    let mut m = Metrics::new(true);
    p.warmed(1, 0, &mut m);
    p.warmed(2, 0, &mut m);
    assert!(p.holds(1) && !p.holds(3));
    assert_eq!(p.acquire(0, &mut m), AcquireStep::Reuse(1));
    assert!(p.holds(1));
    assert_eq!(p.acquire(0, &mut m), AcquireStep::Reuse(2));
    lend_new(&mut p, 3, &mut m);
    assert!(!p.has_room());
    assert_eq!(p.acquire(0, &mut m), AcquireStep::Wait);
    assert!(p.release(2, true, 0, &mut m));
    assert!(!p.release(2, true, 0, &mut m));
    assert_eq!(p.idle_ids(), vec![2]);
    assert!(!p.release(3, false, 0, &mut m));
    assert!(!p.holds(3) && p.has_room());
}

#[test]
fn failed_connection_does_not_count() {
    let mut p = pool(1, 0);
    let mut m = Metrics::new(true);
    assert_eq!(p.acquire(0, &mut m), AcquireStep::Create);
    assert_eq!(p.connection_count(), 1);
    assert_eq!(p.acquire(0, &mut m), AcquireStep::Wait);
    p.created(None, &mut m);
    assert_eq!(p.connection_count(), 0);
    assert_eq!(m.auth_failures, 1);
    assert_eq!(m.upstream_connections, 0);
    assert_eq!(p.acquire(0, &mut m), AcquireStep::Create);
}

#[test]
fn pool_warms_up_to_its_minimum() {
    let mut p = pool(4, 2);
    let mut m = Metrics::new(false);
    let mut ready = 0;
    while p.wants_warmup(false) {
        p.warmed(ready, 0, &mut m);
        ready += 1;
    }
    assert_eq!(ready, 2);
    assert_eq!(p.idle_count(), 2);
    assert_eq!(p.connection_count(), 2);
    assert_eq!(m.upstream_connections, 2);
    assert!(!pool(4, 2).wants_warmup(true));
    assert!(!pool(0, 5).wants_warmup(false));
    // What a scan takes away is made up for.
    assert_eq!(p.reap(2 * SECOND, &mut m), vec![0, 1]);
    assert!(p.wants_warmup(false));
    p.warmed(2, 2 * SECOND, &mut m);
    assert!(p.wants_warmup(false));
    p.warmed(3, 2 * SECOND, &mut m);
    assert!(!p.wants_warmup(false));
    assert_eq!(p.connection_count(), 2);
}

#[test]
fn dead_connection_is_not_kept() {
    let mut p = pool(1, 0);
    let mut m = Metrics::new(true);
    lend_new(&mut p, 1, &mut m);
    assert!(!p.release(1, false, 0, &mut m));
    assert_eq!(p.idle_count(), 0);
    assert_eq!(p.connection_count(), 0);
    assert_eq!((m.upstream_connections, m.pool_evictions), (0, 1));
    // Its place is free again.
    lend_new(&mut p, 2, &mut m);
    assert!(p.release(2, true, 0, &mut m));
    assert_eq!(p.idle_count(), 1);
    // What is not lent out cannot be given back.
    assert!(!p.release(2, true, 0, &mut m));
    assert!(!p.release(9, true, 0, &mut m));
    assert_eq!(p.idle_count(), 1);
    assert_eq!((m.upstream_connections, m.pool_evictions), (1, 1));
}

#[test]
fn reaped_connection_is_counted_once() {
    let mut p = pool(4, 1);
    let mut remap = CidRemap::new();
    let mut m = Metrics::new(true);
    p.warmed(1, 0, &mut m);
    assert_eq!(m.upstream_connections, 1);
    assert_eq!(p.reap(SECOND, &mut m), vec![1]);
    assert_eq!(p.lost(1, &mut remap, &mut m), 0);
    assert_eq!(p.idle_count(), 0);
    assert_eq!(m.upstream_connections, 0);
    assert_eq!(m.pool_evictions, 1);
}

#[test]
fn lost_connection_frees_its_place() {
    let mut p = pool(2, 0);
    let mut remap = CidRemap::new();
    let mut m = Metrics::new(true);
    lend_new(&mut p, 1, &mut m);
    lend_new(&mut p, 2, &mut m);
    assert!(p.release(2, true, 0, &mut m));
    assert_eq!(p.connection_count(), 2);
    // One that is lent out: giving it back afterwards changes nothing.
    p.lost(1, &mut remap, &mut m);
    assert_eq!(p.connection_count(), 1);
    assert!(!p.release(1, true, 0, &mut m));
    assert_eq!((m.upstream_connections, m.pool_evictions), (1, 1));
    // One that is idle.
    p.lost(2, &mut remap, &mut m);
    assert_eq!((p.idle_count(), p.connection_count()), (0, 0));
    p.lost(2, &mut remap, &mut m);
    assert_eq!((m.upstream_connections, m.pool_evictions), (0, 2));
    lend_new(&mut p, 3, &mut m);
    lend_new(&mut p, 4, &mut m);
    assert_eq!(p.acquire(0, &mut m), AcquireStep::Wait);
}

#[test]
fn reaper_drops_what_is_stale() {
    let mut p = pool(5, 0);
    let mut m = Metrics::new(true);
    for id in 1..4 {
        lend_new(&mut p, id, &mut m);
    }
    p.release(1, true, 0, &mut m);
    p.release(2, true, SECOND, &mut m);
    p.release(3, true, 2 * SECOND, &mut m);
    p.probed(3, false);
    assert_eq!(p.reap(SECOND + 1, &mut m), vec![1, 3]);
    assert_eq!(p.idle_count(), 1);
    assert_eq!(p.idle_ids(), vec![2]);
    assert_eq!(p.connection_count(), 1);
    assert_eq!(m.pool_evictions, 2);
    assert_eq!(m.upstream_connections, 1);
    assert_eq!(p.reap(SECOND + 1, &mut m), Vec::<u64>::new());
    // A dead connection at the front is dropped, and a new one is made.
    p.probed(2, false);
    assert_eq!(p.acquire(0, &mut m), AcquireStep::Create);
    assert_eq!(p.idle_count(), 0);
    assert_eq!(p.connection_count(), 1);
    assert_eq!((m.upstream_connections, m.pool_evictions), (0, 3));
}

#[test]
fn registration_and_cancellation() {
    let p = pool(1, 0);
    let mut remap = CidRemap::with_max_in_flight(1);
    let mut m = Metrics::new(true);
    let cid = p
        .register_request(&mut remap, entry(9, 3), &mut m)
        .unwrap();
    m.inc_requests_in_flight();
    assert!(p
        .register_request(&mut remap, entry(9, 3), &mut m)
        .is_none());
    p.cancel_request(&mut remap, cid, &mut m);
    assert_eq!(remap.in_flight(), 0);
    assert_eq!((m.cid_map_entries, m.requests_in_flight), (0, 0));
    p.cancel_request(&mut remap, cid, &mut m);
    assert_eq!((m.cid_map_entries, m.requests_in_flight), (0, 0));
}

#[test]
fn link_flushes_at_intervals() {
    let mut link = Link::new();
    let mut m = Metrics::new(true);
    assert_eq!(link.on_event(LinkEvent::Tick, &mut m), LinkAction::Nothing);
    assert!(link.after(LinkAction::Nothing, true));
    assert_eq!(link.on_event(LinkEvent::Request, &mut m), LinkAction::Send);
    assert!(link.after(LinkAction::Send, true));
    assert_eq!(link.on_event(LinkEvent::Tick, &mut m), LinkAction::Flush);
    assert!(link.after(LinkAction::Flush, true));
    assert_eq!(link.on_event(LinkEvent::Tick, &mut m), LinkAction::Nothing);
    assert_eq!(
        link.on_event(LinkEvent::Frame(11), &mut m),
        LinkAction::HandOn
    );
    assert_eq!((m.frames_upstream, m.bytes_upstream), (1, 11));
    assert!(!link.after(LinkAction::HandOn, false));
    assert!(!link.after(LinkAction::Send, false));
    assert!(!link.needs_flush);
    assert_eq!(
        link.on_event(LinkEvent::RequestsEnded, &mut m),
        LinkAction::Close
    );
    assert!(!link.after(LinkAction::Close, true));
    assert_eq!(
        link.on_event(LinkEvent::ReadEnded, &mut m),
        LinkAction::Stop
    );
    assert!(!link.after(LinkAction::Stop, true));
}

#[test]
fn end_of_a_link_gives_up_its_requests() {
    let mut p = pool(2, 0);
    let mut remap = CidRemap::new();
    let mut m = Metrics::new(true);
    lend_new(&mut p, 1, &mut m);
    for conn in [1, 2, 1] {
        remap.insert(entry(1, conn), &mut m);
        m.inc_requests_in_flight();
    }
    assert_eq!(p.lost(1, &mut remap, &mut m), 2);
    assert_eq!(remap.in_flight(), 1);
    assert_eq!(m.requests_in_flight, 1);
    assert_eq!(m.cid_map_entries, 1);
    assert_eq!(m.upstream_connections, 0);
    assert_eq!(m.pool_evictions, 1);
}
