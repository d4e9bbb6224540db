use kafka_proxy::config::{
    ApiConfig, AuthConfig, AuthMechanism, ClusterConfig, ConfigError, DownstreamSection, HaConfig,
    PoolConfig, ProxyConfig, ProxySection, UpstreamSection,
};
use kafka_proxy::metrics::Metrics;
use kafka_proxy::net::SocketAddr;
use kafka_proxy::proxy::{
    addresses_to_resolve, bootstrap_hostname, bootstrap_plan, bootstrap_targets, broker_address, build_rewrite_map,
    decide_admission, first_address, listen_address, memory_limit, parse_mapping_entry,
    pool_limits, Admission, BrokerName, BrokerTarget, ProxyError,
};
use kafka_proxy::upstream::{SecurityProtocol, UpstreamAuth, UpstreamError};

fn v4(ip: u32, port: u16) -> SocketAddr {
    SocketAddr::V4 { ip, port }
}

fn message<T>(r: Result<T, ProxyError>) -> String {
    match r {
        Ok(_) => String::new(),
        Err(e) => e.message(),
    }
}

#[test]
fn mapping_entries() {
    assert_eq!(
        parse_mapping_entry("proxy.svc:19092", "fb").unwrap(),
        (":19092".to_string(), "proxy.svc".to_string(), 19092)
    );
    assert_eq!(
        parse_mapping_entry(":19092", "fb").unwrap(),
        (":19092".to_string(), "fb".to_string(), 19092)
    );
    assert_eq!(
        parse_mapping_entry(" 0.0.0.0:1 , adv:2 ", "fb").unwrap(),
        ("0.0.0.0:1".to_string(), "adv".to_string(), 2)
    );
    assert_eq!(
        parse_mapping_entry("b:9092,:19193,10.57.92.174:19193", "").unwrap(),
        (":19193".to_string(), "10.57.92.174".to_string(), 19193)
    );
    assert_eq!(
        parse_mapping_entry("::1:80", "").unwrap(),
        (":80".to_string(), "::1".to_string(), 80)
    );
}

#[test]
fn faulty_mapping_entries() {
    let label = "配置错误: bootstrap_server_mapping 项 ";
    assert_eq!(
        message(parse_mapping_entry("a,b,c,d:1", "")),
        format!("{label}\"a,b,c,d:1\" 格式非法：支持 1/2/3 段(逗号分隔)")
    );
    assert_eq!(
        message(parse_mapping_entry("noport", "")),
        format!("{label}\"noport\" 的广告地址缺少 :port")
    );
    assert_eq!(
        message(parse_mapping_entry("h:70000", "")),
        format!("{label}\"h:70000\" 广告端口非法")
    );
    assert_eq!(
        message(parse_mapping_entry("b,h:7", "")),
        format!("{label}\"b,h:7\" 的绑定地址缺少 :port")
    );
    assert_eq!(
        message(parse_mapping_entry("b:x,h:7", "")),
        format!("{label}\"b:x,h:7\" 绑定端口非法")
    );
}

fn config(servers: &[&str], mapping: &[&str], advertise_host: Option<&str>) -> ProxyConfig {
    ProxyConfig {
        cluster: ClusterConfig {
            bootstrap_servers: servers.iter().map(|s| s.to_string()).collect(),
        },
        proxy: ProxySection {
            advertise_host: advertise_host.map(|s| s.to_string()),
            listen_bind: "0.0.0.0".to_string(),
            max_downstream_connections: 10,
            client_idle_timeout: None,
            bootstrap_server_mapping: mapping.iter().map(|s| s.to_string()).collect(),
        },
        upstream: UpstreamSection::default(),
        downstream: DownstreamSection::default(),
        pool: PoolConfig::default(),
        api: ApiConfig::default(),
        ha: HaConfig::default(),
    }
}

fn target(node_id: i32, ip: u32, host: &str) -> BrokerTarget {
    BrokerTarget {
        node_id,
        real_addr: v4(ip, 9092),
        real_host: host.to_string(),
    }
}

#[test]
fn listeners_in_bootstrap_order() {
    let cfg = config(
        &["b2:9092", "b1:9092"],
        &["p:19093", "10.0.0.1:1,:19092"],
        Some("fallback"),
    );
    let targets = vec![target(1, 11, "b1"), target(2, 12, "x")];
    let resolved = vec![Ok(v4(12, 9092)), Ok(v4(99, 9092))];
    let (map, listeners) = build_rewrite_map(&cfg, &targets, &resolved).unwrap();
    assert_eq!(listeners.len(), 2);
    assert_eq!(listeners[0].node_id, 2);
    assert_eq!(listeners[0].port, 19093);
    assert_eq!(listeners[0].bind_addr, ":19093");
    assert_eq!(listeners[0].target.real_host, "x");
    // No broker is at the second address, but one has the host name.
    assert_eq!(listeners[1].node_id, 1);
    assert_eq!(listeners[1].bind_addr, "10.0.0.1:1");
    let served = |n: i32| map.address_of(n);
    assert_eq!(served(1), Some(("fallback".to_string(), 19092)));
    assert_eq!(served(2), Some(("p".to_string(), 19093)));
    assert_eq!(served(3), None);
}

#[test]
fn later_entry_wins_for_the_same_node() {
    let cfg = config(&["b:9092", "b:9093"], &["p:1", "q:2"], None);
    let targets = vec![target(4, 11, "b")];
    let resolved = vec![Ok(v4(11, 9092)), Ok(v4(11, 9093))];
    let (map, listeners) = build_rewrite_map(&cfg, &targets, &resolved).unwrap();
    assert_eq!(listeners.len(), 2);
    assert_eq!(map.address_of(4), Some(("q".to_string(), 2)));
    assert_eq!(map.address_of(5), None);
}

#[test]
fn brokers_on_one_host() {
    let cfg = config(
        &["broker:9092", "broker:9093"],
        &["p:19092", "p:19093"],
        None,
    );
    let at = |node_id, port| BrokerTarget {
        node_id,
        real_addr: v4(11, port),
        real_host: "broker".to_string(),
    };
    let resolved = vec![Ok(v4(11, 9092)), Ok(v4(11, 9093))];
    for targets in [vec![at(1, 9092), at(2, 9093)], vec![at(2, 9093), at(1, 9092)]] {
        let (map, listeners) = build_rewrite_map(&cfg, &targets, &resolved).unwrap();
        let nodes: Vec<i32> = listeners.iter().map(|l| l.node_id).collect();
        assert_eq!(nodes, vec![1, 2]);
        assert_eq!(map.address_of(1), Some(("p".to_string(), 19092)));
        assert_eq!(map.address_of(2), Some(("p".to_string(), 19093)));
    }
}

#[test]
fn server_without_a_broker() {
    let cfg = config(&["b:9092"], &["p:1"], None);
    let targets = vec![target(-1, 11, "c"), target(2, 12, "d\"")];
    let resolved = vec![Ok(SocketAddr::V6 {
        ip: 11,
        port: 9092,
        flowinfo: 0,
        scope_id: 0,
    })];
    assert_eq!(
        message(build_rewrite_map(&cfg, &targets, &resolved)),
        "配置错误: bootstrap_servers 项 \"b:9092\" 在集群元数据中找不到对应 broker；\
         已知 broker: [\"c(-1)\", \"d\\\"(2)\"]"
    );
    assert_eq!(
        message(build_rewrite_map(
            &cfg,
            &targets,
            &vec![Err("b:9092: no".to_string())]
        )),
        "配置解析: 地址解析失败: b:9092: no"
    );
}

#[test]
fn endpoints() {
    let a = SocketAddr::V6 {
        ip: 1,
        port: 2,
        flowinfo: 3,
        scope_id: 4,
    };
    let b = SocketAddr::V6 {
        ip: 1,
        port: 2,
        flowinfo: 5,
        scope_id: 6,
    };
    assert!(a.same_endpoint(&b));
    assert!(!a.same_endpoint(&v4(1, 2)));
    assert!(!v4(1, 3).same_endpoint(&v4(1, 2)));
}

#[test]
fn resolver_answers() {
    assert_eq!(
        first_address("h:1", Ok(vec![v4(1, 1), v4(2, 1)])),
        Ok(v4(1, 1))
    );
    assert_eq!(
        first_address("h:1", Ok(vec![])),
        Err("h:1: 无地址解析结果".to_string())
    );
    assert_eq!(
        first_address("h:1", Err("nope".to_string())),
        Err("h:1: nope".to_string())
    );
}

#[test]
fn targets_from_metadata() {
    let brokers = vec![BrokerName {
        node_id: 3,
        host: "b3".to_string(),
        port: 9093,
    }];
    let servers = vec!["x:1".to_string()];
    assert_eq!(broker_address(&brokers[0]), "b3:9093");
    assert_eq!(addresses_to_resolve(&brokers, &servers), vec!["b3:9093"]);
    let t = bootstrap_targets(&brokers, &servers, &vec![Ok(v4(7, 9093))]).unwrap();
    assert_eq!(t.len(), 1);
    assert_eq!(t[0].node_id, 3);
    assert_eq!(t[0].real_host, "b3");
    assert_eq!(t[0].real_addr, v4(7, 9093));
    assert_eq!(
        message(bootstrap_targets(
            &brokers,
            &servers,
            &vec![Err("why".to_string())]
        )),
        "配置解析: 地址解析失败: why"
    );
}

#[test]
fn targets_without_metadata() {
    let servers = vec!["x:1".to_string(), "y".to_string()];
    assert_eq!(addresses_to_resolve(&vec![], &servers), servers);
    let t = bootstrap_targets(&vec![], &servers, &vec![Ok(v4(7, 1)), Ok(v4(8, 1))]).unwrap();
    assert_eq!(t[0].node_id, -1);
    assert_eq!(t[0].real_host, "x");
    assert_eq!(t[1].node_id, -2);
    assert_eq!(t[1].real_host, "y");
}

#[test]
fn host_name_of_the_first_login() {
    let servers = vec!["k1.example:9092".to_string(), "k2:9092".to_string()];
    let plain = match UpstreamAuth::from_config(&AuthConfig::default()) {
        Ok(a) => a,
        Err(_) => unreachable!(),
    };
    assert_eq!(bootstrap_hostname(&plain, &servers), None);
    let kerberos = AuthConfig {
        mechanism: AuthMechanism::Gssapi,
        kerberos_principal: Some("p".to_string()),
        kerberos_keytab: Some("k".to_string()),
        kerberos_kdc: Some("kdc:88".to_string()),
        ..Default::default()
    };
    let kerberos = match UpstreamAuth::from_config(&kerberos) {
        Ok(a) => a,
        Err(_) => unreachable!(),
    };
    assert_eq!(
        bootstrap_hostname(&kerberos, &servers).as_deref(),
        Some("k1.example")
    );
    assert_eq!(bootstrap_hostname(&kerberos, &vec!["k".to_string()]), None);
    assert_eq!(bootstrap_hostname(&kerberos, &vec![]), None);

    let plan = bootstrap_plan(&kerberos, &servers);
    assert_eq!(plan.protocol, SecurityProtocol::SaslPlaintext);
    assert_eq!(plan.client_id, Some("kafka-proxy-bootstrap"));
    assert_eq!(plan.broker_host.as_deref(), Some("k1.example"));
    let plan = bootstrap_plan(&plain, &servers);
    assert_eq!(plan.protocol, SecurityProtocol::Plaintext);
    assert_eq!(plan.client_id, None);
    assert_eq!(plan.broker_host, None);
}

#[test]
fn listen_addresses() {
    assert_eq!(listen_address("0.0.0.0", ":19092"), "0.0.0.0:19092");
    assert_eq!(listen_address("0.0.0.0", "10.0.0.1:5"), "10.0.0.1:5");
    assert_eq!(listen_address("x", ""), "");
}

#[test]
fn limits_from_the_configuration() {
    let pool = PoolConfig {
        max_rss_bytes: 9,
        ..Default::default()
    };
    assert_eq!(memory_limit(&pool), Some(9));
    assert_eq!(memory_limit(&PoolConfig::default()), None);
    let l = pool_limits(&pool);
    assert_eq!(l.max_per_broker, 16);
    assert_eq!(l.min_idle, 2);
    assert_eq!(l.idle_timeout, pool.idle_timeout);
    assert_eq!(l.acquire_timeout, pool.acquire_timeout);
    assert_eq!(l.max_in_flight, 100_000);
}

#[test]
fn admission() {
    let mut m = Metrics::new(false);
    assert_eq!(decide_admission(None, 0, 2, &mut m), Admission::Accept);
    assert_eq!(
        decide_admission(Some(100), 99, 2, &mut m),
        Admission::Accept
    );
    assert_eq!(m.downstream_connection_count(), 2);
    assert_eq!(decide_admission(None, 0, 2, &mut m), Admission::TooMany);
    assert_eq!(
        decide_admission(Some(100), 100, 3, &mut m),
        Admission::OutOfMemory
    );
    assert_eq!(m.downstream_connection_count(), 2);
    m.dec_downstream_connections();
    assert_eq!(decide_admission(None, 0, 2, &mut m), Admission::Accept);
}

#[test]
fn proxy_error_messages() {
    assert_eq!(
        ProxyError::UpstreamAuth(UpstreamError::Missing("username")).message(),
        "上游认证配置错误: 缺少配置项: username"
    );
    assert_eq!(
        ProxyError::ConfigParse(ConfigError::Invalid("x".to_string())).message(),
        "配置解析: 配置无效: x"
    );
}
