use std::collections::HashMap;

use bytes::{BufMut, Bytes, BytesMut};
use kafka_client::protocol::api::describe_cluster_response::DescribeClusterBroker;
use kafka_client::protocol::api::find_coordinator_response::Coordinator;
use kafka_client::protocol::{
    DescribeClusterResponse, FindCoordinatorResponse, Message, MetadataResponse,
    MetadataResponseBroker, MetadataResponseTopic, Response,
};
use kafka_proxy::layout::{
    reach_in_describe_cluster, reach_in_find_coordinator, reach_in_metadata, Cursor,
};
use kafka_proxy::rewrite::{
    encode_unsigned_varint, frame_overruns, needs_rewrite, parse_request_header,
    parse_response_cid, rewrite_describe_cluster_response, rewrite_find_coordinator_response,
    rewrite_metadata_response, rewrite_response, RewriteMap, API_KEY_DESCRIBE_CLUSTER,
    API_KEY_FIND_COORDINATOR, API_KEY_METADATA,
};

/// A metadata request of version 1, without the length before it.
fn metadata_request_v1(cid: i32) -> Bytes {
    let mut buf = BytesMut::new();
    buf.put_i16(3);
    buf.put_i16(1);
    buf.put_i32(cid);
    buf.put_i16(-1);
    buf.put_i32(-1);
    buf.freeze()
}

#[test]
fn parse_req_header() {
    let f = metadata_request_v1(0x11223344);
    let (ak, v, cid) = parse_request_header(&f).unwrap();
    assert_eq!(ak, 3);
    assert_eq!(v, 1);
    assert_eq!(cid, 0x11223344);
}

#[test]
fn parse_resp_cid() {
    let mut buf = BytesMut::new();
    buf.put_i32(0x55667788);
    assert_eq!(parse_response_cid(&buf), Some(0x55667788));
}

#[test]
fn needs_rewrite_metadata() {
    assert!(needs_rewrite(API_KEY_METADATA));
    assert!(needs_rewrite(API_KEY_DESCRIBE_CLUSTER));
    assert!(!needs_rewrite(0));
    assert!(!needs_rewrite(1));
}

#[test]
fn short_frame_header_none() {
    assert!(parse_request_header(&[1, 2, 3]).is_none());
    assert!(parse_response_cid(&[1, 2, 3]).is_none());
}

/// Nodes 1, 2 and 3 on ports 19092, 19093 and 19094 of 127.0.0.1.
fn test_map() -> RewriteMap {
    let mut ports = HashMap::new();
    ports.insert(1, ("127.0.0.1".to_string(), 19092));
    ports.insert(2, ("127.0.0.1".to_string(), 19093));
    ports.insert(3, ("127.0.0.1".to_string(), 19094));
    RewriteMap::new(ports)
}

fn varint(value: u32) -> Vec<u8> {
    let mut buf = Vec::new();
    encode_unsigned_varint(&mut buf, value);
    buf
}

fn metadata_response() -> MetadataResponse {
    MetadataResponse {
        throttle_time_ms: 0,
        brokers: vec![
            MetadataResponseBroker {
                node_id: 1,
                host: "real-broker-1".to_string(),
                port: 9092,
                rack: None,
            },
            MetadataResponseBroker {
                node_id: 2,
                host: "real-broker-2".to_string(),
                port: 9092,
                rack: None,
            },
        ],
        cluster_id: Some("test-cluster".to_string()),
        controller_id: 1,
        topics: vec![],
        cluster_authorized_operations: -2147483648,
        error_code: 0,
    }
}

/// A metadata response frame of version 9, which is the first of the compact form.
fn encode_metadata_response_v9(cid: i32) -> Bytes {
    let resp = metadata_response();
    let mut buf = BytesMut::new();
    buf.put_i32(cid);
    buf.put_slice(&varint(0));
    resp.flexible_encode(&mut buf, 9).unwrap();
    buf.freeze()
}

#[test]
fn rewrite_metadata_roundtrip() {
    let raw = encode_metadata_response_v9(0x1234);
    let map = test_map();
    let rewritten = rewrite_metadata_response(9, &raw, &map).expect("a new frame");

    let (header, resp): (_, MetadataResponse) =
        MetadataResponse::decode_frame(Bytes::from(rewritten), 9).unwrap();
    assert_eq!(header.correlation_id(), 0x1234);
    assert_eq!(resp.brokers.len(), 2);
    for b in &resp.brokers {
        assert_eq!(b.host, "127.0.0.1");
        assert!(b.port == 19092 || b.port == 19093, "got {}", b.port);
    }
}

#[test]
fn rewrite_metadata_no_change_returns_none() {
    let raw = encode_metadata_response_v9(1);
    let map = RewriteMap::new(HashMap::new());
    assert!(rewrite_metadata_response(9, &raw, &map).is_none());
}

/// A cluster description frame of version 0, which has the compact form.
fn encode_describe_cluster_response_v0(cid: i32) -> Bytes {
    let resp = DescribeClusterResponse {
        throttle_time_ms: 0,
        error_code: 0,
        error_message: None,
        endpoint_type: 1,
        cluster_id: "test-cluster".to_string(),
        controller_id: 1,
        brokers: vec![
            DescribeClusterBroker {
                broker_id: 1,
                host: "real-broker-1".to_string(),
                port: 9092,
                rack: None,
                is_fenced: false,
            },
            DescribeClusterBroker {
                broker_id: 2,
                host: "real-broker-2".to_string(),
                port: 9092,
                rack: None,
                is_fenced: false,
            },
        ],
        cluster_authorized_operations: -2147483648,
    };
    let mut buf = BytesMut::new();
    buf.put_i32(cid);
    buf.put_slice(&varint(0));
    resp.flexible_encode(&mut buf, 0).unwrap();
    buf.freeze()
}

#[test]
fn rewrite_describe_cluster_roundtrip() {
    let raw = encode_describe_cluster_response_v0(0x5678);
    let map = test_map();
    let rewritten = rewrite_describe_cluster_response(0, &raw, &map).expect("a new frame");

    let (header, resp): (_, DescribeClusterResponse) =
        DescribeClusterResponse::decode_frame(Bytes::from(rewritten), 0).unwrap();
    assert_eq!(header.correlation_id(), 0x5678);
    assert_eq!(resp.brokers.len(), 2);
    for b in &resp.brokers {
        assert_eq!(b.host, "127.0.0.1");
        assert!(b.port == 19092 || b.port == 19093, "got {}", b.port);
    }
    assert_eq!(resp.cluster_id, "test-cluster");
}

#[test]
fn rewrite_describe_cluster_via_dispatch() {
    let raw = encode_describe_cluster_response_v0(42);
    let map = test_map();
    let rewritten = rewrite_response(API_KEY_DESCRIBE_CLUSTER, 0, &raw, &map);
    assert!(rewritten.is_some());
}

#[test]
fn rewrite_describe_cluster_no_change_returns_none() {
    let raw = encode_describe_cluster_response_v0(1);
    let map = RewriteMap::new(HashMap::new());
    assert!(rewrite_describe_cluster_response(0, &raw, &map).is_none());
}

/// A coordinator response frame of version 3, the first of the compact form.
fn encode_find_coordinator_response_v3(cid: i32) -> Bytes {
    let resp = FindCoordinatorResponse {
        throttle_time_ms: 0,
        error_code: 0,
        error_message: None,
        node_id: 3,
        host: "real-coordinator-3".to_string(),
        port: 9092,
        coordinators: vec![],
    };
    let mut buf = BytesMut::new();
    buf.put_i32(cid);
    buf.put_slice(&varint(0));
    resp.flexible_encode(&mut buf, 3).unwrap();
    buf.freeze()
}

#[test]
fn rewrite_find_coordinator_v3_roundtrip() {
    let raw = encode_find_coordinator_response_v3(0xABCD);
    let map = test_map();
    let rewritten = rewrite_find_coordinator_response(3, &raw, &map).expect("a new frame");

    let (header, resp): (_, FindCoordinatorResponse) =
        FindCoordinatorResponse::decode_frame(Bytes::from(rewritten), 3).unwrap();
    assert_eq!(header.correlation_id(), 0xABCD);
    assert_eq!(resp.host, "127.0.0.1");
    assert_eq!(resp.port, 19094);
    assert_eq!(resp.node_id, 3);
}

#[test]
fn rewrite_find_coordinator_v3_no_change_returns_none() {
    let raw = encode_find_coordinator_response_v3(1);
    let map = RewriteMap::new(HashMap::new());
    assert!(rewrite_find_coordinator_response(3, &raw, &map).is_none());
}

/// A coordinator response frame of version 4, with a list of coordinators.
fn encode_find_coordinator_response_v4(cid: i32) -> Bytes {
    let resp = FindCoordinatorResponse {
        throttle_time_ms: 0,
        error_code: 0,
        error_message: None,
        node_id: -1,
        host: String::new(),
        port: -1,
        coordinators: vec![
            Coordinator {
                key: "dayu_audit".to_string(),
                node_id: 2,
                host: "real-coordinator-2".to_string(),
                port: 9092,
                error_code: 0,
                error_message: None,
            },
            Coordinator {
                key: "txn_coord".to_string(),
                node_id: 3,
                host: "real-coordinator-3".to_string(),
                port: 9092,
                error_code: 0,
                error_message: None,
            },
        ],
    };
    let mut buf = BytesMut::new();
    buf.put_i32(cid);
    buf.put_slice(&varint(0));
    resp.flexible_encode(&mut buf, 4).unwrap();
    buf.freeze()
}

#[test]
fn rewrite_find_coordinator_v4_roundtrip() {
    let raw = encode_find_coordinator_response_v4(0xBEEF);
    let map = test_map();
    let rewritten = rewrite_find_coordinator_response(4, &raw, &map).expect("a new frame");

    let (header, resp): (_, FindCoordinatorResponse) =
        FindCoordinatorResponse::decode_frame(Bytes::from(rewritten), 4).unwrap();
    assert_eq!(header.correlation_id(), 0xBEEF);
    assert_eq!(resp.coordinators.len(), 2);
    assert_eq!(resp.coordinators[0].host, "127.0.0.1");
    assert_eq!(resp.coordinators[0].port, 19093);
    assert_eq!(resp.coordinators[0].key, "dayu_audit");
    assert_eq!(resp.coordinators[1].host, "127.0.0.1");
    assert_eq!(resp.coordinators[1].port, 19094);
}

#[test]
fn rewrite_find_coordinator_via_dispatch() {
    let raw = encode_find_coordinator_response_v3(99);
    let map = test_map();
    let rewritten = rewrite_response(API_KEY_FIND_COORDINATOR, 3, &raw, &map);
    assert!(rewritten.is_some());
}

#[test]
fn needs_rewrite_find_coordinator() {
    assert!(needs_rewrite(API_KEY_FIND_COORDINATOR));
}

#[test]
fn other_responses_are_not_rewritten() {
    let raw = encode_metadata_response_v9(7);
    assert!(rewrite_response(0, 9, &raw, &test_map()).is_none());
    assert!(!frame_overruns(0, 9, &[]));
}

#[test]
fn rewritten_metadata_keeps_everything_else() {
    let mut resp = metadata_response();
    resp.brokers[0].rack = Some("r1".to_string());
    resp.brokers.push(MetadataResponseBroker {
        node_id: 77,
        host: "elsewhere".to_string(),
        port: 1,
        rack: Some(String::new()),
    });
    resp.topics = vec![MetadataResponseTopic {
        name: Some("orders".to_string()),
        is_internal: true,
        ..Default::default()
    }];
    let mut buf = BytesMut::new();
    buf.put_i32(5);
    buf.put_slice(&varint(0));
    resp.flexible_encode(&mut buf, 9).unwrap();
    let rewritten = rewrite_response(API_KEY_METADATA, 9, &buf, &test_map()).unwrap();
    let (_, got): (_, MetadataResponse) =
        MetadataResponse::decode_frame(Bytes::from(rewritten.clone()), 9).unwrap();
    let mut want = resp.clone();
    want.brokers[0].host = "127.0.0.1".to_string();
    want.brokers[0].port = 19092;
    want.brokers[1].host = "127.0.0.1".to_string();
    want.brokers[1].port = 19093;
    assert_eq!(got, want);
    // A second rewriting changes nothing more.
    let again = rewrite_response(API_KEY_METADATA, 9, &rewritten, &test_map()).unwrap();
    assert_eq!(again, rewritten);
}

#[test]
fn older_metadata_is_rewritten_too() {
    let mut resp = metadata_response();
    for b in &mut resp.brokers {
        b.rack = Some("r".to_string());
    }
    resp.topics = vec![MetadataResponseTopic {
        name: Some("orders".to_string()),
        ..Default::default()
    }];
    for version in 1..9 {
        let mut buf = BytesMut::new();
        buf.put_i32(11);
        resp.encode(&mut buf, version).unwrap();
        let rewritten = rewrite_metadata_response(version, &buf, &test_map()).unwrap();
        let (header, got): (_, MetadataResponse) =
            MetadataResponse::decode_frame(Bytes::from(rewritten), version).unwrap();
        assert_eq!(header.correlation_id(), 11);
        assert_eq!(got.brokers[0].host, "127.0.0.1");
        assert_eq!(got.brokers[1].port, 19093);
        assert_eq!(got.brokers[1].rack.as_deref(), Some("r"));
        assert_eq!(got.topics[0].name.as_deref(), Some("orders"));
    }
}

#[test]
fn older_coordinator_response_is_rewritten() {
    let resp = FindCoordinatorResponse {
        throttle_time_ms: 1,
        error_code: 0,
        error_message: Some("NONE".to_string()),
        node_id: 2,
        host: "real".to_string(),
        port: 9092,
        coordinators: vec![],
    };
    for version in 0..3 {
        let mut buf = BytesMut::new();
        buf.put_i32(-5);
        resp.encode(&mut buf, version).unwrap();
        let rewritten = rewrite_find_coordinator_response(version, &buf, &test_map()).unwrap();
        let (header, got): (_, FindCoordinatorResponse) =
            FindCoordinatorResponse::decode_frame(Bytes::from(rewritten), version).unwrap();
        assert_eq!(header.correlation_id(), -5);
        assert_eq!(got.host, "127.0.0.1");
        assert_eq!(got.port, 19093);
    }
}

/// What the decoder makes of each prefix of a frame agrees with what the walk says of it.
fn prefixes_agree(api_key: i16, version: i16, raw: &[u8], decodes: fn(Bytes, i16) -> bool) {
    assert!(!frame_overruns(api_key, version, raw));
    assert!(decodes(Bytes::copy_from_slice(raw), version));
    for end in 0..raw.len() {
        let part = Bytes::copy_from_slice(&raw[..end]);
        if !frame_overruns(api_key, version, &part) {
            assert!(!decodes(part, version), "version {version}, {end} bytes");
        }
    }
}

fn metadata_decodes(data: Bytes, version: i16) -> bool {
    MetadataResponse::decode_frame(data, version).is_ok()
}

fn describe_cluster_decodes(data: Bytes, version: i16) -> bool {
    DescribeClusterResponse::decode_frame(data, version).is_ok()
}

fn find_coordinator_decodes(data: Bytes, version: i16) -> bool {
    FindCoordinatorResponse::decode_frame(data, version).is_ok()
}

#[test]
fn walk_agrees_with_the_decoders() {
    let raw = encode_metadata_response_v9(3);
    prefixes_agree(API_KEY_METADATA, 9, &raw, metadata_decodes);
    let mut resp = metadata_response();
    for b in &mut resp.brokers {
        b.rack = Some("r".to_string());
    }
    resp.topics = vec![MetadataResponseTopic {
        name: Some("orders".to_string()),
        partitions: vec![kafka_client::protocol::MetadataResponsePartition {
            replica_nodes: vec![1, 2],
            isr_nodes: vec![1],
            ..Default::default()
        }],
        ..Default::default()
    }];
    for version in 0..14 {
        let mut buf = BytesMut::new();
        buf.put_i32(3);
        if version >= 9 {
            buf.put_slice(&varint(0));
            resp.flexible_encode(&mut buf, version).unwrap();
        } else {
            resp.encode(&mut buf, version).unwrap();
        }
        prefixes_agree(API_KEY_METADATA, version, &buf, metadata_decodes);
    }
    let raw = encode_describe_cluster_response_v0(3);
    prefixes_agree(API_KEY_DESCRIBE_CLUSTER, 0, &raw, describe_cluster_decodes);
    let raw = encode_find_coordinator_response_v3(3);
    prefixes_agree(API_KEY_FIND_COORDINATOR, 3, &raw, find_coordinator_decodes);
    let raw = encode_find_coordinator_response_v4(3);
    prefixes_agree(API_KEY_FIND_COORDINATOR, 4, &raw, find_coordinator_decodes);
}

/// Numbers without a pattern, the same on every run.
struct Dice(u64);

impl Dice {
    fn roll(&mut self, sides: usize) -> usize {
        self.0 = self
            .0
            .wrapping_mul(6364136223846793005)
            .wrapping_add(1442695040888963407);
        (self.0 >> 33) as usize % sides
    }
}

/// Where the walk through a damaged frame does not run over its end, the decoder comes to the same
/// conclusion as the walk.
fn damage_agrees(
    version: i16,
    raw: &[u8],
    seed: u64,
    walk: fn(&[u8], i16) -> Cursor,
    decodes: fn(Bytes, i16) -> bool,
) {
    let mut dice = Dice(seed);
    for _ in 0..3000 {
        let mut frame = raw.to_vec();
        for _ in 0..1 + dice.roll(3) {
            let at = dice.roll(frame.len());
            let edges = [0, 1, 2, 0x7f, 0x80, 0xff];
            frame[at] = match dice.roll(2) {
                0 => edges[dice.roll(edges.len())],
                _ => dice.roll(256) as u8,
            };
        }
        let keep = frame.len() - dice.roll(4).min(frame.len());
        frame.truncate(keep);
        match walk(&frame, version) {
            Cursor::At(_) => assert!(decodes(Bytes::from(frame), version)),
            Cursor::Refused => assert!(!decodes(Bytes::from(frame), version)),
            Cursor::Overrun => {}
        }
    }
}

#[test]
fn walk_agrees_on_damaged_frames() {
    let mut resp = metadata_response();
    resp.brokers[0].rack = Some("rack".to_string());
    resp.topics = vec![MetadataResponseTopic {
        name: Some("orders".to_string()),
        partitions: vec![kafka_client::protocol::MetadataResponsePartition {
            replica_nodes: vec![1, 2],
            isr_nodes: vec![1],
            offline_replicas: vec![2],
            ..Default::default()
        }],
        ..Default::default()
    }];
    for version in 0..14 {
        let mut buf = BytesMut::new();
        buf.put_i32(3);
        if version >= 9 {
            buf.put_slice(&varint(1));
            buf.put_slice(&[5, 2, 0, 0]);
            resp.flexible_encode(&mut buf, version).unwrap();
        } else {
            resp.encode(&mut buf, version).unwrap();
        }
        damage_agrees(version, &buf, version as u64, reach_in_metadata, metadata_decodes);
    }
    let raw = encode_describe_cluster_response_v0(3);
    for version in 0..3 {
        damage_agrees(
            version,
            &raw,
            20 + version as u64,
            reach_in_describe_cluster,
            describe_cluster_decodes,
        );
    }
    let raw = encode_find_coordinator_response_v3(3);
    for version in 0..4 {
        damage_agrees(
            version,
            &raw,
            30 + version as u64,
            reach_in_find_coordinator,
            find_coordinator_decodes,
        );
    }
    let raw = encode_find_coordinator_response_v4(3);
    for version in 4..7 {
        damage_agrees(
            version,
            &raw,
            40 + version as u64,
            reach_in_find_coordinator,
            find_coordinator_decodes,
        );
    }
}

#[test]
fn truncated_frames_are_recognised() {
    let raw = encode_metadata_response_v9(3);
    assert!(frame_overruns(API_KEY_METADATA, 9, &raw[..raw.len() - 1]));
    assert!(frame_overruns(API_KEY_METADATA, 9, &raw[..6]));
    // Without a whole correlation id the decoder refuses the frame.
    assert!(!frame_overruns(API_KEY_METADATA, 9, &raw[..3]));
    assert!(rewrite_response(API_KEY_METADATA, 9, &raw[..3], &test_map()).is_none());
}

#[test]
fn truncated_frames_are_not_rewritten() {
    let map = test_map();
    for (api_key, version, raw) in [
        (API_KEY_METADATA, 9, encode_metadata_response_v9(7)),
        (API_KEY_DESCRIBE_CLUSTER, 0, encode_describe_cluster_response_v0(8)),
        (API_KEY_FIND_COORDINATOR, 3, encode_find_coordinator_response_v3(9)),
        (API_KEY_FIND_COORDINATOR, 4, encode_find_coordinator_response_v4(10)),
    ] {
        assert!(rewrite_response(api_key, version, &raw, &map).is_some());
        for end in 0..raw.len() {
            assert_eq!(rewrite_response(api_key, version, &raw[..end], &map), None);
        }
    }
    let part = encode_metadata_response_v9(7);
    assert!(rewrite_metadata_response(9, &part[..part.len() - 1], &map).is_none());
    assert!(rewrite_describe_cluster_response(0, &[0; 6], &map).is_none());
    assert!(rewrite_find_coordinator_response(0, &[0; 5], &map).is_none());
}

#[test]
fn varint_forms() {
    assert_eq!(varint(0), vec![0]);
    assert_eq!(varint(127), vec![127]);
    assert_eq!(varint(128), vec![0x80, 1]);
    assert_eq!(varint(300), vec![0xac, 2]);
    assert_eq!(varint(u32::MAX), vec![0xff, 0xff, 0xff, 0xff, 0x0f]);
}

#[test]
fn rewriting_twice_changes_nothing_more() {
    let map = test_map();
    for (api_key, version, raw) in [
        (API_KEY_METADATA, 9, encode_metadata_response_v9(7)),
        (API_KEY_DESCRIBE_CLUSTER, 0, encode_describe_cluster_response_v0(8)),
        (API_KEY_FIND_COORDINATOR, 3, encode_find_coordinator_response_v3(9)),
        (API_KEY_FIND_COORDINATOR, 4, encode_find_coordinator_response_v4(10)),
    ] {
        let once = rewrite_response(api_key, version, &raw, &map).unwrap();
        assert_ne!(once, raw.to_vec());
        assert!(!frame_overruns(api_key, version, &once));
        assert_eq!(rewrite_response(api_key, version, &once, &map), Some(once.clone()));
    }
}
