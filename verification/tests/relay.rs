use std::collections::HashMap;

use bytes::{BufMut, Bytes, BytesMut};
use kafka_client::protocol::{FindCoordinatorResponse, Message, Response};
use kafka_proxy::config::Duration;
use kafka_proxy::metrics::Metrics;
use kafka_proxy::net::SocketAddr;
use kafka_proxy::pool::{BrokerPool, CidRemap, Link, LinkAction, PoolLimits};
use kafka_proxy::relay::{
    on_stream_event, ClientStep, IdleClock, OpenRequests, PendingRequests, PooledClient, SendStep,
    StreamEvent, LEASE_NANOS, MAX_PENDING,
};
use kafka_proxy::rewrite::RewriteMap;

fn request(api_key: i16, version: i16, cid: i32) -> Vec<u8> {
    let mut buf = BytesMut::new();
    buf.put_i16(api_key);
    buf.put_i16(version);
    buf.put_i32(cid);
    buf.put_i16(-1);
    buf.to_vec()
}

fn coordinator(cid: i32) -> Vec<u8> {
    let resp = FindCoordinatorResponse {
        node_id: 1,
        host: "real".to_string(),
        port: 9092,
        ..Default::default()
    };
    let mut buf = BytesMut::new();
    buf.put_i32(cid);
    buf.put_u8(0);
    resp.flexible_encode(&mut buf, 3).unwrap();
    buf.to_vec()
}

fn one_node() -> RewriteMap {
    let mut ports = HashMap::new();
    ports.insert(1, ("proxy".to_string(), 19092));
    RewriteMap::new(ports)
}

#[test]
fn remembered_requests_have_their_responses_rewritten() {
    let mut pending = PendingRequests::new();
    let mut m = Metrics::new(true);
    let map = one_node();
    assert!(!pending.on_request(&request(10, 3, 77), &mut m));
    assert_eq!((m.frames_downstream, m.bytes_downstream), (1, 10));
    let raw = coordinator(77);
    let out = pending.on_response(raw.clone(), &map, &mut m);
    assert_eq!((m.frames_upstream, m.bytes_upstream), (1, raw.len() as u64));
    let (header, resp): (_, FindCoordinatorResponse) =
        FindCoordinatorResponse::decode_frame(Bytes::from(out), 3).unwrap();
    assert_eq!(header.correlation_id(), 77);
    assert_eq!(resp.host, "proxy");
    assert_eq!(resp.port, 19092);
    // The request is remembered once.
    assert_eq!(pending.on_response(raw.clone(), &map, &mut m), raw);
}

#[test]
fn other_frames_pass_unchanged() {
    let mut pending = PendingRequests::new();
    let mut m = Metrics::new(false);
    assert!(!pending.on_request(&request(0, 3, 77), &mut m));
    assert!(!pending.on_request(&[1, 2], &mut m));
    let raw = coordinator(77);
    assert_eq!(pending.on_response(raw.clone(), &one_node(), &mut m), raw);
    assert_eq!(
        pending.on_response(vec![1, 2], &one_node(), &mut m),
        vec![1, 2]
    );
}

#[test]
fn undecodable_response_passes_unchanged() {
    let mut pending = PendingRequests::new();
    let mut m = Metrics::new(false);
    pending.on_request(&request(10, 3, 77), &mut m);
    let mut raw = coordinator(77);
    raw.pop();
    assert_eq!(pending.on_response(raw.clone(), &one_node(), &mut m), raw);
    // The request is no longer remembered.
    let whole = coordinator(77);
    assert_eq!(pending.on_response(whole.clone(), &one_node(), &mut m), whole);
    pending.on_request(&request(10, 0, 0), &mut m);
    let stub = vec![0, 0, 0, 0, 0];
    assert_eq!(pending.on_response(stub.clone(), &one_node(), &mut m), stub);
}

#[test]
fn client_is_let_go_when_all_is_answered() {
    let mut open = OpenRequests::new();
    assert!(open.drained(true));
    open.sent(&request(0, 1, 5));
    open.sent(&request(0, 1, 6));
    open.sent(&[1, 2, 3]);
    assert!(!open.drained(true));
    open.answered(&[0, 0, 0, 5]);
    open.answered(&[0, 0]);
    assert!(!open.drained(true));
    open.answered(&[0, 0, 0, 6]);
    assert!(open.drained(true));
    assert!(!open.drained(false));
    open.answered(&[0, 0, 0, 6]);
    assert_eq!(open.count, 0);
}

#[test]
fn pending_requests_are_limited() {
    let mut pending = PendingRequests::new();
    let mut m = Metrics::new(false);
    for cid in 0..MAX_PENDING as i32 {
        assert!(!pending.on_request(&request(3, 1, cid), &mut m));
    }
    assert!(pending.on_request(&request(3, 1, -1), &mut m));
    assert!(!pending.on_request(&request(0, 1, -1), &mut m));
}

#[test]
fn streams_flush_and_close() {
    let mut link = Link::new();
    assert_eq!(on_stream_event(&link, StreamEvent::Tick), LinkAction::Nothing);
    assert_eq!(on_stream_event(&link, StreamEvent::Frame), LinkAction::Send);
    assert!(link.after(LinkAction::Send, true));
    assert_eq!(on_stream_event(&link, StreamEvent::Tick), LinkAction::Flush);
    for event in [
        StreamEvent::Ended,
        StreamEvent::TimedOut,
        StreamEvent::Failed,
    ] {
        assert_eq!(on_stream_event(&link, event), LinkAction::Close);
    }
    assert_eq!(
        on_stream_event(&link, StreamEvent::ResponsesEnded),
        LinkAction::Finish
    );
    assert_eq!(
        on_stream_event(&link, StreamEvent::ShuttingDown),
        LinkAction::Finish
    );
    assert!(!link.after(LinkAction::Finish, true));
}

#[test]
fn silence_runs_out() {
    let mut clock = IdleClock::new(Some(10), 100);
    assert_eq!(clock.remaining(100), Some(10));
    assert_eq!(clock.remaining(90), Some(10));
    assert_eq!(clock.remaining(107), Some(3));
    assert!(!clock.expired(109));
    assert!(clock.expired(110));
    assert_eq!(clock.remaining(200), Some(0));
    // Only a frame starts the time anew.
    clock.on_frame(105);
    assert_eq!(clock.remaining(110), Some(5));
    assert!(!clock.expired(114));
    assert!(clock.expired(115));
    let patient = IdleClock::new(None, 0);
    assert_eq!(patient.remaining(u64::MAX), None);
    assert!(!patient.expired(u64::MAX));
}

fn pool() -> BrokerPool {
    BrokerPool::new(
        1,
        SocketAddr::V4 { ip: 1, port: 9092 },
        "b".to_string(),
        PoolLimits {
            max_per_broker: 1,
            min_idle: 0,
            idle_timeout: Duration::from_secs(1),
            acquire_timeout: Duration::from_secs(1),
            health_check: Duration::from_secs(1),
            max_in_flight: 1,
        },
    )
}

#[test]
fn client_borrows_for_a_while() {
    let mut c = PooledClient::new(5);
    let mut m = Metrics::new(true);
    let frame = request(1, 2, 3);
    assert_eq!(c.on_frame(&[1], 5, &mut m), ClientStep::Ignore);
    assert_eq!(
        c.on_frame(&frame, 5, &mut m),
        ClientStep::Renew { release: None }
    );
    c.leased(8, 100);
    assert_eq!(c.on_frame(&frame, 100, &mut m), ClientStep::Use(8));
    assert_eq!(
        c.on_frame(&frame, 99 + LEASE_NANOS, &mut m),
        ClientStep::Use(8)
    );
    assert_eq!(
        c.on_frame(&frame, 100 + LEASE_NANOS, &mut m),
        ClientStep::Renew { release: Some(8) }
    );
    assert_eq!(c.ended(), None);
    c.leased(9, u64::MAX);
    assert_eq!(c.deadline, u64::MAX);
    assert_eq!(c.ended(), Some(9));
    assert_eq!(m.frames_downstream, 5);
}

#[test]
fn request_is_prepared_or_refused() {
    let p = pool();
    let mut c = PooledClient::new(0);
    let mut remap = CidRemap::with_max_in_flight(1);
    let mut m = Metrics::new(true);
    c.leased(8, 0);
    let frame = request(10, 3, 77);
    let cid = match c.prepare(&frame, 8, 4, 50, &p, &mut remap, &mut m) {
        SendStep::Send { cid_u, frame } => {
            assert_eq!(cid_u, 2);
            assert_eq!(frame, request(10, 3, 2));
            cid_u
        }
        SendStep::Refuse { .. } => unreachable!(),
    };
    assert_eq!((m.requests_in_flight, m.cid_map_entries), (1, 1));
    match c.prepare(&frame, 8, 4, 60, &p, &mut remap, &mut m) {
        SendStep::Refuse { release } => assert_eq!(release, Some(8)),
        SendStep::Send { .. } => unreachable!(),
    }
    assert_eq!(c.lease, None);
    c.leased(8, 70);
    c.send_failed(cid, &p, &mut remap, &mut m);
    assert_eq!(c.lease, None);
    assert_eq!(remap.in_flight(), 0);
    assert_eq!((m.requests_in_flight, m.cid_map_entries), (0, 0));
}

#[test]
fn prepared_request_is_in_the_table() {
    let p = pool();
    let mut c = PooledClient::new(0);
    let mut remap = CidRemap::new();
    let mut m = Metrics::new(true);
    c.leased(8, 0);
    c.prepare(&request(10, 3, 77), 8, 4, 50, &p, &mut remap, &mut m);
    let e = remap.take(2, &mut m).unwrap();
    assert_eq!(e.downstream, 4);
    assert_eq!(e.cid_d, 77);
    assert_eq!((e.api_key, e.api_version), (10, 3));
    assert_eq!(e.started, 50);
    assert_eq!(e.conn_id, 8);
}
