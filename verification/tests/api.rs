use kafka_proxy::api::{
    all_partitions, all_partitions_done, bytes_to_text, connection_rows, consumer_group_ids,
    consumers_on_topic, creation_outcome, lags_fit, log_ends, message_count, poll_limit,
    select_recent, show_record, topic_settings, windows, Collector, ConnectionRow, CreationError,
    GroupDescription, GroupListing, GroupMember, GroupOffset, ListedOffset, LogEnd, PartitionLag,
    Record, Window,
};

#[test]
fn bytes_to_text_utf8_and_binary() {
    let v = bytes_to_text(b"hello");
    assert_eq!(v, "hello".to_string());

    let s = bytes_to_text(&[0xff, 0xfe]);
    assert!(s.starts_with("0x"));
    assert_eq!(s, "0xfffe");
    assert_eq!(bytes_to_text(&[0x80, 0x0a, 0x19]), "0x800a19");
    assert_eq!(bytes_to_text("消息".as_bytes()), "消息");
    assert_eq!(bytes_to_text(&[]), "");
}

fn listing(id: &str, kind: &str) -> GroupListing {
    GroupListing {
        group_id: id.to_string(),
        protocol_type: kind.to_string(),
    }
}

#[test]
fn only_consumer_groups_are_listed() {
    let groups = vec![
        listing("a", "consumer"),
        listing("b", "connect"),
        listing("c", ""),
    ];
    assert_eq!(consumer_group_ids(&groups), vec!["a", "c"]);
}

fn offset(topic: &str, partition: i32, lag: i64) -> GroupOffset {
    GroupOffset {
        topic: topic.to_string(),
        partition,
        committed_offset: 1,
        log_end_offset: 2,
        lag,
    }
}

fn description(id: &str, state: &str) -> GroupDescription {
    GroupDescription {
        group_id: id.to_string(),
        state: state.to_string(),
        members: vec![GroupMember {
            member_id: "m".to_string(),
            client_id: "c".to_string(),
            client_host: "h".to_string(),
        }],
    }
}

#[test]
fn groups_of_a_topic() {
    let descriptions = vec![
        description("a", "Empty"),
        description("b", "Stable"),
        description("a", "Stable"),
    ];
    let fetched = vec![
        (
            "a".to_string(),
            vec![offset("t", 0, 5), offset("u", 0, 100), offset("t", 1, -1)],
        ),
        ("b".to_string(), vec![offset("u", 0, 1)]),
        ("c".to_string(), vec![offset("t", 2, 7)]),
    ];
    assert!(lags_fit("t", &fetched));
    let groups = consumers_on_topic("t", &descriptions, &fetched);
    assert_eq!(groups.len(), 2);
    assert_eq!(groups[0].group, "a");
    assert_eq!(groups[0].state, "Stable");
    assert_eq!(groups[0].described_by, Some(2));
    assert_eq!(groups[0].total_lag, 5);
    assert_eq!(
        groups[0].partitions[1],
        PartitionLag {
            partition: 1,
            committed_offset: 1,
            log_end_offset: 2,
            lag: -1
        }
    );
    assert_eq!(groups[1].group, "c");
    assert_eq!(groups[1].state, "Unknown");
    assert_eq!(groups[1].described_by, None);
    assert_eq!(groups[1].total_lag, 7);
    let too_much = vec![(
        "a".to_string(),
        vec![offset("t", 0, i64::MAX), offset("t", 1, 1)],
    )];
    assert!(!lags_fit("t", &too_much));
    assert!(lags_fit("u", &too_much));
}

fn listed(partition: i32, error_code: i16, offset: i64) -> ListedOffset {
    ListedOffset {
        partition,
        error_code,
        offset,
    }
}

fn end(partition: i32, end: i64) -> LogEnd {
    LogEnd { partition, end }
}

#[test]
fn ends_by_partition() {
    let answer = vec![
        ("t".to_string(), vec![listed(2, 0, 20), listed(1, 3, 10)]),
        ("u".to_string(), vec![listed(0, 0, 99)]),
        ("t".to_string(), vec![listed(0, 0, 5), listed(2, 0, 21)]),
    ];
    assert_eq!(
        log_ends("t", &answer),
        vec![end(0, 5), end(2, 20), end(2, 21)]
    );
    assert_eq!(log_ends("v", &answer), vec![]);
}

#[test]
fn partitions_of_all_topics() {
    assert_eq!(
        all_partitions(&vec![vec![1, 2], vec![], vec![0]]),
        vec![1, 2, 0]
    );
}

#[test]
fn windows_at_the_end() {
    let ends = vec![end(0, 3), end(1, 0), end(2, 10), end(3, -1)];
    assert_eq!(
        windows(&ends, 5),
        vec![
            Window {
                partition: 0,
                start: 0,
                end: 3
            },
            Window {
                partition: 2,
                start: 5,
                end: 10
            }
        ]
    );
}

#[test]
fn message_counts() {
    assert_eq!(message_count(None, 5), 5);
    assert_eq!(message_count(Some(0), 5), 1);
    assert_eq!(message_count(Some(7), 5), 7);
    assert_eq!(message_count(Some(5000), 5), 1000);
    assert_eq!(poll_limit(5, 3), Some(31));
    assert_eq!(poll_limit(usize::MAX, 2), None);
}

fn record(partition: i32, offset: i64, value: &str) -> Record {
    Record {
        partition,
        offset,
        timestamp: 9,
        key: None,
        value: value.as_bytes().to_vec(),
        headers: vec![],
    }
}

fn places(records: &[Record]) -> Vec<(i32, i64)> {
    records.iter().map(|r| (r.partition, r.offset)).collect()
}

#[test]
fn collector_keeps_what_is_wanted() {
    let ends = vec![end(0, 3), end(1, 10)];
    let mut c = Collector::new(&ends, 2, 100);
    assert_eq!(c.wanted, 4);
    assert!(c.wants_more(99));
    assert!(!c.wants_more(100));
    assert!(!c.on_batch(vec![]));
    assert!(!c.on_batch(vec![
        record(0, 0, "too early"),
        record(0, 1, ""),
        record(2, 1, "elsewhere"),
        record(1, 9, ""),
        record(1, 10, "too late"),
    ]));
    assert_eq!(places(&c.collected), vec![(0, 1), (1, 9)]);
    assert!(c.on_batch(vec![record(1, 8, ""), record(0, 2, "")]));
    assert!(!c.wants_more(0));
    assert!(all_partitions_done(&c.collected, &c.windows));
}

fn at(time: i64, r: Record) -> Record {
    Record {
        timestamp: time,
        ..r
    }
}

#[test]
fn latest_messages_of_a_topic() {
    let all = || {
        vec![
            at(30, record(1, 5, "a")),
            at(40, record(0, 7, "b")),
            at(50, record(1, 3, "c")),
            at(20, record(1, 4, "d")),
            at(40, record(0, 7, "e")),
            at(10, record(0, 6, "f")),
        ]
    };
    // No more than were asked for, whatever the number of partitions: of the last of each
    // partition, the newest.
    let recent = select_recent(all(), 3);
    assert_eq!(places(&recent), vec![(0, 7), (0, 7), (1, 3)]);
    assert_eq!(recent[0].value, b"b");
    assert_eq!(recent[1].value, b"e");
    // The message of the latest time is not among the last two of its partition.
    let recent = select_recent(all(), 2);
    assert_eq!(places(&recent), vec![(0, 7), (0, 7)]);
    assert_eq!(places(&select_recent(all(), 1)), vec![(0, 7)]);
    assert_eq!(select_recent(all(), 1)[0].value, b"e");
    assert_eq!(select_recent(all(), 0).len(), 0);
    assert_eq!(
        places(&select_recent(all(), 100)),
        vec![(0, 6), (0, 7), (0, 7), (1, 3), (1, 4), (1, 5)]
    );
}

#[test]
fn answer_is_no_longer_than_asked_for() {
    for partitions in 1..5 {
        for count in 0..7 {
            let mut all = Vec::new();
            for partition in 0..partitions {
                for offset in 0..4 {
                    all.push(at(i64::from(partition) + offset, record(partition, offset, "")));
                }
            }
            let total = all.len();
            assert_eq!(select_recent(all, count).len(), count.min(total));
        }
    }
}

#[test]
fn shown_records() {
    let r = Record {
        partition: 1,
        offset: 2,
        timestamp: 3,
        key: Some(b"k".to_vec()),
        value: vec![0xff],
        headers: vec![("h".to_string(), b"v".to_vec())],
    };
    let s = show_record(&r);
    assert_eq!((s.partition, s.offset, s.timestamp), (1, 2, 3));
    assert_eq!(s.key.as_deref(), Some("k"));
    assert_eq!(s.value, "0xff");
    assert_eq!(s.headers, vec![("h".to_string(), "v".to_string())]);
    assert!(show_record(&record(0, 0, "")).key.is_none());
}

#[test]
fn settings_of_a_new_topic() {
    assert_eq!(topic_settings(None, None), (-1, -1));
    assert_eq!(topic_settings(Some(6), Some(3)), (6, 3));
    assert_eq!(topic_settings(Some(-7), Some(-2)), (-1, -1));
    assert_eq!(topic_settings(Some(0), Some(0)), (0, 0));
}

#[test]
fn outcome_of_a_creation() {
    assert!(creation_outcome("t", false, true, None, "").is_ok());
    match creation_outcome("t", true, true, None, "") {
        Err(CreationError::Conflict(e)) => assert_eq!(e, "topic 't' already exists"),
        _ => unreachable!(),
    }
    match creation_outcome("t", false, false, None, "X") {
        Err(CreationError::Failed(e)) => assert_eq!(e, "error code: X"),
        _ => unreachable!(),
    }
    match creation_outcome("t", false, false, Some("bad".to_string()), "X") {
        Err(CreationError::Failed(e)) => assert_eq!(e, "bad"),
        _ => unreachable!(),
    }
}

#[test]
fn connections_by_peer() {
    let row = |peer: &str, node_id| ConnectionRow {
        peer: peer.to_string(),
        node_id,
        nanos: 0,
    };
    let rows = connection_rows(vec![
        row("10.0.0.2:1", 1),
        row("10.0.0.10:1", 2),
        row("10.0.0.2", 3),
        row("10.0.0.2:1", 4),
    ]);
    let order: Vec<i32> = rows.iter().map(|r| r.node_id).collect();
    assert_eq!(order, vec![2, 3, 1, 4]);
}
