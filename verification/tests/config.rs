use kafka_proxy::config::{
    default_acquire_timeout, default_api_listen, default_bind, default_debug_count,
    default_health_check, default_idle_timeout, default_max_downstream, default_max_in_flight,
    default_max_per_broker, default_min_idle, default_pool_mode, default_true, duration_fits,
    parse_duration_str, ApiConfig, AuthConfig, AuthMechanism, ClusterConfig, ConfigError,
    DownstreamSection, Duration, HaConfig, HaMode, PoolConfig, PoolMode, ProxyConfig, ProxySection,
    UpstreamSection,
};
use toml::{Table, Value};

#[test]
fn api_config_defaults() {
    let cfg = ApiConfig::default();
    assert_eq!(cfg.listen, "127.0.0.1:9100");
    assert_eq!(cfg.default_count, 5);
}

fn text(t: &Table, key: &str) -> Option<String> {
    t.get(key).map(|v| v.as_str().unwrap().to_string())
}

fn list(t: &Table, key: &str) -> Vec<String> {
    match t.get(key) {
        None => vec![],
        Some(v) => v
            .as_array()
            .unwrap()
            .iter()
            .map(|s| s.as_str().unwrap().to_string())
            .collect(),
    }
}

fn size(t: &Table, key: &str, default: usize) -> usize {
    t.get(key)
        .map(|v| v.as_integer().unwrap() as usize)
        .unwrap_or(default)
}

fn span(t: &Table, key: &str, default: Duration) -> Duration {
    match t.get(key) {
        None => default,
        Some(Value::Integer(n)) => Duration::from_signed_secs(*n),
        Some(v) => parse_duration_str(v.as_str().unwrap()).unwrap(),
    }
}

fn section(t: &Table, key: &str) -> Table {
    t.get(key)
        .map(|v| v.as_table().unwrap().clone())
        .unwrap_or_default()
}

fn auth(t: &Table) -> AuthConfig {
    AuthConfig {
        mechanism: AuthMechanism::from_name(&text(t, "mechanism").unwrap_or_default()).unwrap(),
        username: text(t, "username"),
        password: text(t, "password"),
        kerberos_principal: text(t, "kerberos_principal"),
        kerberos_keytab: text(t, "kerberos_keytab"),
        kerberos_kdc: text(t, "kerberos_kdc"),
        kerberos_realm: text(t, "kerberos_realm"),
        ca_file: text(t, "ca_file"),
        server_name: text(t, "server_name"),
        verify: t
            .get("verify")
            .map(|v| v.as_bool().unwrap())
            .unwrap_or(default_true()),
    }
}

/// The configuration that a TOML text describes, once it has passed validation.
fn from_str(toml: &str) -> Result<ProxyConfig, ConfigError> {
    let t: Table = toml.parse().unwrap();
    let proxy = section(&t, "proxy");
    let pool = section(&t, "pool");
    let api = section(&t, "api");
    let ha = section(&t, "ha");
    let cfg = ProxyConfig {
        cluster: ClusterConfig {
            bootstrap_servers: list(&section(&t, "cluster"), "bootstrap_servers"),
        },
        proxy: ProxySection {
            advertise_host: text(&proxy, "advertise_host"),
            listen_bind: text(&proxy, "listen_bind").unwrap_or(default_bind()),
            max_downstream_connections: size(
                &proxy,
                "max_downstream_connections",
                default_max_downstream(),
            ),
            client_idle_timeout: proxy
                .get("client_idle_timeout")
                .map(|_| span(&proxy, "client_idle_timeout", Duration::from_secs(0))),
            bootstrap_server_mapping: list(&proxy, "bootstrap_server_mapping"),
        },
        upstream: UpstreamSection {
            auth: auth(&section(&section(&t, "upstream"), "auth")),
        },
        downstream: DownstreamSection {
            auth: auth(&section(&section(&t, "downstream"), "auth")),
        },
        pool: PoolConfig {
            mode: text(&pool, "mode")
                .map(|m| PoolMode::from_name(&m).unwrap())
                .unwrap_or(default_pool_mode()),
            max_per_broker: size(&pool, "max_per_broker", default_max_per_broker()),
            min_idle: size(&pool, "min_idle", default_min_idle()),
            idle_timeout: span(&pool, "idle_timeout", default_idle_timeout()),
            acquire_timeout: span(&pool, "acquire_timeout", default_acquire_timeout()),
            health_check: span(&pool, "health_check", default_health_check()),
            max_in_flight: size(&pool, "max_in_flight", default_max_in_flight()),
            max_rss_bytes: size(&pool, "max_rss_bytes", 0) as u64,
        },
        api: ApiConfig {
            listen: text(&api, "listen").unwrap_or(default_api_listen()),
            default_count: size(&api, "default_count", default_debug_count()),
            metrics_enabled: api
                .get("metrics_enabled")
                .map(|v| v.as_bool().unwrap())
                .unwrap_or(false),
        },
        ha: HaConfig {
            mode: text(&ha, "mode")
                .map(|m| HaMode::from_name(&m).unwrap())
                .unwrap_or_default(),
        },
    };
    cfg.validate()?;
    Ok(cfg)
}

#[test]
fn parse_minimal() {
    let toml = r#"
[cluster]
bootstrap_servers = ["host1:9092","host2:9092"]

[proxy]
bootstrap_server_mapping = ["proxy.svc:9092", "proxy.svc:9093"]
"#;
    let cfg = from_str(toml).unwrap();
    assert_eq!(cfg.cluster.bootstrap_servers.len(), 2);
    assert_eq!(cfg.proxy.bootstrap_server_mapping.len(), 2);
    assert_eq!(cfg.proxy.bootstrap_server_mapping[0], "proxy.svc:9092");
    assert_eq!(cfg.proxy.listen_bind, "0.0.0.0");
    assert_eq!(cfg.proxy.max_downstream_connections, 10000);
    assert_eq!(cfg.upstream.auth.mechanism, AuthMechanism::NoAuth);
}

#[test]
fn parse_with_gssapi() {
    let toml = r#"
[cluster]
bootstrap_servers = ["host1:9092"]

[proxy]
bootstrap_server_mapping = ["proxy.svc:9092"]

[upstream.auth]
mechanism = "gssapi"
kerberos_principal = "dayu@HADOOP.COM"
kerberos_keytab = "/etc/kp/dayukb.keytab"
kerberos_kdc = "kdc:88"
kerberos_realm = "HADOOP.COM"

[downstream.auth]
mechanism = "none"
"#;
    let cfg = from_str(toml).unwrap();
    assert_eq!(cfg.upstream.auth.mechanism, AuthMechanism::Gssapi);
    assert_eq!(
        cfg.upstream.auth.kerberos_principal.as_deref(),
        Some("dayu@HADOOP.COM")
    );
    assert_eq!(cfg.downstream.auth.mechanism, AuthMechanism::NoAuth);
}

#[test]
fn rejects_empty_bootstrap() {
    let toml = r#"
[cluster]
bootstrap_servers = []

[proxy]
bootstrap_server_mapping = ["p:9092"]
"#;
    let err = from_str(toml).unwrap_err();
    assert_eq!(
        err.message(),
        "配置无效: cluster.bootstrap_servers 不能为空"
    );
}

#[test]
fn rejects_empty_mapping() {
    let toml = r#"
[cluster]
bootstrap_servers = ["h:9092"]

[proxy]
bootstrap_server_mapping = []
"#;
    let err = from_str(toml).unwrap_err();
    assert_eq!(
        err.message(),
        "配置无效: proxy.bootstrap_server_mapping 不能为空(按 bootstrap_servers 顺序\
         配置下游监听地址，如 [\"proxy.svc:19092\", ...])"
    );
}

#[test]
fn rejects_mapping_length_mismatch() {
    let toml = r#"
[cluster]
bootstrap_servers = ["h1:9092", "h2:9092"]

[proxy]
bootstrap_server_mapping = ["p:9092"]
"#;
    let err = from_str(toml).unwrap_err();
    let msg = err.message();
    assert!(msg.contains("相等"), "{msg}");
    assert_eq!(
        msg,
        "配置无效: proxy.bootstrap_server_mapping 长度(1)必须与 cluster.bootstrap_servers\
         长度(2)相等，按顺序一一对应"
    );
}

#[test]
fn rejects_more_idle_than_allowed() {
    let toml = r#"
[cluster]
bootstrap_servers = ["h:9092"]

[proxy]
bootstrap_server_mapping = ["p:9092"]

[pool]
min_idle = 17
"#;
    let err = from_str(toml).unwrap_err();
    assert_eq!(
        err.message(),
        "配置无效: pool.min_idle(17) 不能大于 pool.max_per_broker(16)"
    );
}

#[test]
fn pool_and_api_defaults() {
    let toml = r#"
[cluster]
bootstrap_servers = ["h:9092"]

[proxy]
bootstrap_server_mapping = ["p:9092"]
"#;
    let cfg = from_str(toml).unwrap();
    assert_eq!(cfg.pool.mode, PoolMode::Pooled);
    assert_eq!(cfg.pool.max_per_broker, 16);
    assert_eq!(cfg.pool.min_idle, 2);
    assert_eq!(cfg.pool.idle_timeout, Duration::from_secs(300));
    assert_eq!(cfg.pool.acquire_timeout, Duration::from_secs(5));
    assert_eq!(cfg.pool.health_check, Duration::from_secs(30));
    assert_eq!(cfg.pool.max_in_flight, 100_000);
    assert_eq!(cfg.pool.max_rss_bytes, 0);
    assert_eq!(cfg.api.listen, "127.0.0.1:9100");
    assert_eq!(cfg.api.default_count, 5);
    assert_eq!(cfg.ha.mode, HaMode::StatelessReplicas);
}

#[test]
fn section_defaults() {
    let pool = PoolConfig::default();
    assert_eq!(pool.mode, PoolMode::Pooled);
    assert_eq!(pool.max_per_broker, 16);
    assert_eq!(pool.min_idle, 2);
    assert_eq!(pool.idle_timeout, Duration::from_secs(300));
    assert_eq!(pool.acquire_timeout, Duration::from_secs(5));
    assert_eq!(pool.health_check, Duration::from_secs(30));
    assert_eq!(pool.max_in_flight, 100_000);
    assert_eq!(pool.max_rss_bytes, 0);
    assert_eq!(HaConfig::default().mode, HaMode::StatelessReplicas);
    assert!(UpstreamSection::default().auth.verify);
    assert!(DownstreamSection::default().auth.verify);
    assert!(AuthConfig::default().username.is_none());
}

#[test]
fn pool_per_connection_mode() {
    let toml = r#"
[cluster]
bootstrap_servers = ["h:9092"]

[proxy]
bootstrap_server_mapping = ["p:9092"]

[pool]
mode = "per_connection"
max_per_broker = 8
min_idle = 1
idle_timeout = "10s"
acquire_timeout = "2s"
health_check = "15s"
max_in_flight = 50000
max_rss_bytes = 536870912
"#;
    let cfg = from_str(toml).unwrap();
    assert_eq!(cfg.pool.mode, PoolMode::PerConnection);
    assert_eq!(cfg.pool.max_per_broker, 8);
    assert_eq!(cfg.pool.min_idle, 1);
    assert_eq!(cfg.pool.idle_timeout, Duration::from_secs(10));
    assert_eq!(cfg.pool.max_rss_bytes, 536_870_912);
}

#[test]
fn ha_mode_kebab_alias() {
    let toml = r#"
[cluster]
bootstrap_servers = ["h:9092"]

[proxy]
bootstrap_server_mapping = ["p:9092"]

[ha]
mode = "dns-round-robin"
"#;
    let cfg = from_str(toml).unwrap();
    assert_eq!(cfg.ha.mode, HaMode::DnsRoundRobin);

    let toml2 = r#"
[cluster]
bootstrap_servers = ["h:9092"]

[proxy]
bootstrap_server_mapping = ["p:9092"]

[ha]
mode = "stateless_replicas"
"#;
    let cfg2 = from_str(toml2).unwrap();
    assert_eq!(cfg2.ha.mode, HaMode::StatelessReplicas);
}

#[test]
fn api_listen_override() {
    let toml = r#"
[cluster]
bootstrap_servers = ["h:9092"]

[proxy]
bootstrap_server_mapping = ["p:9092"]

[api]
listen = "0.0.0.0:8080"
default_count = 20
"#;
    let cfg = from_str(toml).unwrap();
    assert_eq!(cfg.api.listen, "0.0.0.0:8080");
    assert_eq!(cfg.api.default_count, 20);
}

#[test]
fn mapping_host_fallback_to_advertise() {
    let toml = r#"
[cluster]
bootstrap_servers = ["h:9092"]

[proxy]
advertise_host = "proxy.svc"
bootstrap_server_mapping = [":9092"]
"#;
    let cfg = from_str(toml).unwrap();
    assert_eq!(cfg.proxy.bootstrap_server_mapping[0], ":9092");
}

#[test]
fn mapping_triplet_format_accepted() {
    let toml = r#"
[cluster]
bootstrap_servers = ["broker1:9092"]

[proxy]
bootstrap_server_mapping = ["broker1:9092,0.0.0.0:19193,10.57.92.174:19193"]
"#;
    let cfg = from_str(toml).unwrap();
    assert_eq!(
        cfg.proxy.bootstrap_server_mapping[0],
        "broker1:9092,0.0.0.0:19193,10.57.92.174:19193"
    );
}

#[test]
fn mapping_two_part_format_accepted() {
    let toml = r#"
[cluster]
bootstrap_servers = ["broker1:9092"]

[proxy]
bootstrap_server_mapping = ["0.0.0.0:19193,10.57.92.174:19193"]
"#;
    let cfg = from_str(toml).unwrap();
    assert_eq!(
        cfg.proxy.bootstrap_server_mapping[0],
        "0.0.0.0:19193,10.57.92.174:19193"
    );
}

#[test]
fn mapping_triplet_missing_advertise_host_rejected() {
    let toml = r#"
[cluster]
bootstrap_servers = ["broker1:9092"]

[proxy]
bootstrap_server_mapping = ["broker1:9092,0.0.0.0:19193,:19193"]
"#;
    let err = from_str(toml).unwrap_err();
    assert_eq!(
        err.message(),
        "配置无效: proxy.bootstrap_server_mapping[0] = \"broker1:9092,0.0.0.0:19193,:19193\" \
         缺少广告主机名，且未配置 proxy.advertise_host 作回退"
    );
}

#[test]
fn mapping_with_four_parts_rejected() {
    let toml = r#"
[cluster]
bootstrap_servers = ["a:1", "b:1"]

[proxy]
advertise_host = "x"
bootstrap_server_mapping = ["p:1", "a,b,c,p:1"]
"#;
    let err = from_str(toml).unwrap_err();
    assert_eq!(
        err.message(),
        "配置无效: proxy.bootstrap_server_mapping[1] = \"a,b,c,p:1\" 格式非法：支持 1/2/3 段(逗号分隔)"
    );
}

#[test]
fn mapping_with_blank_fallback_rejected() {
    let toml = r#"
[cluster]
bootstrap_servers = ["h:9092"]

[proxy]
advertise_host = "  "
bootstrap_server_mapping = ["9092"]
"#;
    assert!(from_str(toml).is_err());
}

#[test]
fn durations() {
    assert_eq!(parse_duration_str("5s"), Ok(Duration::from_secs(5)));
    assert_eq!(parse_duration_str(" 10m "), Ok(Duration::from_secs(600)));
    assert_eq!(parse_duration_str("1h"), Ok(Duration::from_secs(3600)));
    assert_eq!(parse_duration_str("500ms"), Ok(Duration::from_millis(500)));
    assert_eq!(parse_duration_str("20us"), Ok(Duration::from_micros(20)));
    assert_eq!(parse_duration_str("42"), Ok(Duration::from_secs(42)));
    assert_eq!(
        parse_duration_str("1500ms"),
        Ok(Duration {
            secs: 1,
            nanos: 500_000_000
        })
    );
    assert_eq!(Duration::from_signed_secs(-3), Duration::from_secs(0));
    assert_eq!(Duration::from_signed_secs(7), Duration::from_secs(7));
}

#[test]
fn written_durations_read_back() {
    let units = [
        ("us", 1_000u128),
        ("ms", 1_000_000),
        ("s", 1_000_000_000),
        ("m", 60_000_000_000),
        ("h", 3_600_000_000_000),
        ("", 1_000_000_000),
    ];
    for n in [0u64, 1, 59, 999, 1_000, 123_456_789, 5_000_000_000_000_000] {
        for (unit, nanos) in units {
            for (before, after) in [("", ""), (" ", ""), ("\t\n", " \u{3000}")] {
                let d = parse_duration_str(&format!("{before}{n}{unit}{after}")).unwrap();
                let total = u128::from(d.secs) * 1_000_000_000 + u128::from(d.nanos);
                assert_eq!(total, u128::from(n) * nanos);
                assert!(d.nanos < 1_000_000_000);
            }
        }
    }
}

#[test]
fn faulty_durations() {
    assert_eq!(
        parse_duration_str("xms"),
        Err("无效的毫秒数: xms".to_string())
    );
    assert_eq!(
        parse_duration_str("us"),
        Err("无效的微秒数: us".to_string())
    );
    assert_eq!(
        parse_duration_str("-1s"),
        Err("无效的时长数值: -1s".to_string())
    );
    assert_eq!(
        parse_duration_str("soon"),
        Err("无效的时长: soon".to_string())
    );
    for text in ["", "s", "m", "h", "ms", "-1s", "5 s", "1d", "1.5h", "+", "0x5s", "18446744073709551616"] {
        assert!(parse_duration_str(text).is_err(), "{text}");
    }
    assert!(duration_fits("18446744073709551615s"));
    assert!(!duration_fits("18446744073709551615m"));
}

#[test]
fn names_of_modes() {
    for (name, m) in [
        ("none", AuthMechanism::NoAuth),
        ("plain", AuthMechanism::Plain),
        ("scram-sha256", AuthMechanism::ScramSha256),
        ("scram-sha512", AuthMechanism::ScramSha512),
        ("gssapi", AuthMechanism::Gssapi),
        ("mtls", AuthMechanism::Mtls),
    ] {
        assert_eq!(AuthMechanism::from_name(name), Some(m));
        assert_eq!(m.name(), name);
        assert_eq!(m.is_gssapi(), name == "gssapi");
    }
    assert_eq!(AuthMechanism::from_name("GSSAPI"), None);
    assert_eq!(AuthMechanism::default(), AuthMechanism::NoAuth);
    assert_eq!(PoolMode::from_name("pool"), None);
    assert_eq!(HaMode::from_name("raft"), None);
    assert_eq!(HaMode::DnsRoundRobin.name(), "dns-round-robin");
    assert_eq!(HaMode::StatelessReplicas.name(), "stateless-replicas");
}

#[test]
fn config_error_messages() {
    assert_eq!(
        ConfigError::Read("x".to_string()).message(),
        "读取配置文件失败: x"
    );
    assert_eq!(
        ConfigError::Parse("x".to_string()).message(),
        "解析 TOML 失败: x"
    );
    assert_eq!(
        ConfigError::Resolve("x".to_string()).message(),
        "地址解析失败: x"
    );
}
