//! The configuration: its sections, their defaults, and the rules that it must meet.
//!
//! Authentication is configured separately for the upstream side (towards the brokers) and the
//! downstream side (towards the clients).
use vstd::prelude::*;

use crate::text;
use crate::text::{parse_number, push_decimal, rsplit_once, same, split, strip_suffix, trim};

verus! {

broadcast use vstd::string::group_string_axioms;

/// A span of time: whole seconds, and nanoseconds below one second.
#[derive(Clone, Copy, Debug, PartialEq, Eq, Structural)]
pub struct Duration {
    pub secs: u64,
    pub nanos: u32,
}

impl Duration {
    /// The span in nanoseconds.
    pub open spec fn total_nanos(self) -> nat {
        self.secs as nat * 1_000_000_000 + self.nanos as nat
    }

    pub fn from_secs(secs: u64) -> (r: Self)
        ensures
            r == (Duration { secs, nanos: 0 }),
            r.total_nanos() == secs * 1_000_000_000,
    {
        Duration { secs, nanos: 0 }
    }

    pub fn from_millis(millis: u64) -> (r: Self)
        ensures
            r.nanos < 1_000_000_000,
            r.total_nanos() == millis * 1_000_000,
    {
        Duration { secs: millis / 1000, nanos: (millis % 1000) as u32 * 1_000_000 }
    }

    pub fn from_micros(micros: u64) -> (r: Self)
        ensures
            r.nanos < 1_000_000_000,
            r.total_nanos() == micros * 1000,
    {
        Duration { secs: micros / 1_000_000, nanos: (micros % 1_000_000) as u32 * 1000 }
    }

    /// A whole number of seconds, where a negative number counts as none.
    pub fn from_signed_secs(secs: i64) -> (r: Self)
        ensures
            r == (Duration {
                secs: if secs < 0 {
                    0
                } else {
                    secs as u64
                },
                nanos: 0,
            }),
    {
        if secs < 0 {
            Duration::from_secs(0)
        } else {
            Duration::from_secs(secs as u64)
        }
    }
}

/// The whole configuration.
#[derive(Debug)]
pub struct ProxyConfig {
    pub cluster: ClusterConfig,
    pub proxy: ProxySection,
    pub upstream: UpstreamSection,
    pub downstream: DownstreamSection,
    pub pool: PoolConfig,
    pub api: ApiConfig,
    pub ha: HaConfig,
}

/// The real cluster.
#[derive(Debug)]
pub struct ClusterConfig {
    pub bootstrap_servers: Vec<String>,
}

/// The downstream listeners and the addresses that clients are given.
#[derive(Debug)]
pub struct ProxySection {
    /// The advertised host of the mapping entries that name none.
    pub advertise_host: Option<String>,
    /// The address that listeners are bound to.
    pub listen_bind: String,
    /// The most downstream connections at a time.
    pub max_downstream_connections: usize,
    /// How long a downstream connection may send nothing. Without it, for ever.
    pub client_idle_timeout: Option<Duration>,
    /// The downstream addresses, one for each bootstrap server, in the same order.
    pub bootstrap_server_mapping: Vec<String>,
}

/// Where listeners are bound by default.
pub fn default_bind() -> (r: String)
    ensures
        r@ == "0.0.0.0"@,
{
    "0.0.0.0".to_owned()
}

/// The default limit on downstream connections.
pub fn default_max_downstream() -> (r: usize)
    ensures
        r == 10000,
{
    10000
}

/// How the proxy authenticates to the brokers.
#[derive(Debug)]
pub struct UpstreamSection {
    pub auth: AuthConfig,
}

impl Default for UpstreamSection {
    fn default() -> (r: Self)
        ensures
            r.auth.is_default(),
    {
        UpstreamSection { auth: AuthConfig::default() }
    }
}

/// How clients authenticate to the proxy.
#[derive(Debug)]
pub struct DownstreamSection {
    pub auth: AuthConfig,
}

impl Default for DownstreamSection {
    fn default() -> (r: Self)
        ensures
            r.auth.is_default(),
    {
        DownstreamSection { auth: AuthConfig::default() }
    }
}

/// The ways to authenticate.
#[derive(Debug, Clone, Copy, PartialEq, Eq, Structural)]
pub enum AuthMechanism {
    /// None: plain text.
    NoAuth,
    /// SASL/PLAIN with user name and password.
    Plain,
    /// SASL/SCRAM-SHA-256.
    ScramSha256,
    /// SASL/SCRAM-SHA-512.
    ScramSha512,
    /// SASL/GSSAPI (Kerberos).
    Gssapi,
    /// Mutual TLS, downstream only.
    Mtls,
}

impl Default for AuthMechanism {
    fn default() -> (r: Self)
        ensures
            r == AuthMechanism::NoAuth,
    {
        AuthMechanism::NoAuth
    }
}

impl AuthMechanism {
    /// The name that the configuration file uses.
    pub open spec fn spelling(self) -> Seq<char> {
        match self {
            AuthMechanism::NoAuth => "none"@,
            AuthMechanism::Plain => "plain"@,
            AuthMechanism::ScramSha256 => "scram-sha256"@,
            AuthMechanism::ScramSha512 => "scram-sha512"@,
            AuthMechanism::Gssapi => "gssapi"@,
            AuthMechanism::Mtls => "mtls"@,
        }
    }

    /// The mechanism of this name. An empty name is as good as `none`.
    pub fn from_name(name: &str) -> (r: Option<Self>)
        ensures
            match r {
                Some(m) => name@ == m.spelling() || (name@ == ""@ && m == AuthMechanism::NoAuth),
                None => name@ != ""@ && forall|m: AuthMechanism| name@ != #[trigger] m.spelling(),
            },
    {
        if same(name, "none") || same(name, "") {
            Some(AuthMechanism::NoAuth)
        } else if same(name, "plain") {
            Some(AuthMechanism::Plain)
        } else if same(name, "scram-sha256") {
            Some(AuthMechanism::ScramSha256)
        } else if same(name, "scram-sha512") {
            Some(AuthMechanism::ScramSha512)
        } else if same(name, "gssapi") {
            Some(AuthMechanism::Gssapi)
        } else if same(name, "mtls") {
            Some(AuthMechanism::Mtls)
        } else {
            None
        }
    }

    /// Whether Kerberos credentials are needed.
    pub fn is_gssapi(self) -> (r: bool)
        ensures
            r == (self == AuthMechanism::Gssapi),
    {
        match self {
            AuthMechanism::Gssapi => true,
            _ => false,
        }
    }

    /// The name that the configuration file uses.
    pub fn name(self) -> (r: &'static str)
        ensures
            r@ == self.spelling(),
    {
        match self {
            AuthMechanism::NoAuth => "none",
            AuthMechanism::Plain => "plain",
            AuthMechanism::ScramSha256 => "scram-sha256",
            AuthMechanism::ScramSha512 => "scram-sha512",
            AuthMechanism::Gssapi => "gssapi",
            AuthMechanism::Mtls => "mtls",
        }
    }
}

/// How one side authenticates. Which fields count depends on the mechanism.
#[derive(Debug)]
pub struct AuthConfig {
    pub mechanism: AuthMechanism,
    pub username: Option<String>,
    pub password: Option<String>,
    pub kerberos_principal: Option<String>,
    pub kerberos_keytab: Option<String>,
    /// The key distribution centre, as `host:port`.
    pub kerberos_kdc: Option<String>,
    pub kerberos_realm: Option<String>,
    pub ca_file: Option<String>,
    pub server_name: Option<String>,
    /// Whether the certificate of the other side is verified.
    pub verify: bool,
}

impl AuthConfig {
    /// No authentication, and no other field set.
    pub open spec fn is_default(self) -> bool {
        &&& self.mechanism == AuthMechanism::NoAuth
        &&& self.username is None
        &&& self.password is None
        &&& self.kerberos_principal is None
        &&& self.kerberos_keytab is None
        &&& self.kerberos_kdc is None
        &&& self.kerberos_realm is None
        &&& self.ca_file is None
        &&& self.server_name is None
        &&& self.verify
    }
}

impl Default for AuthConfig {
    fn default() -> (r: Self)
        ensures
            r.is_default(),
    {
        AuthConfig {
            mechanism: AuthMechanism::NoAuth,
            username: None,
            password: None,
            kerberos_principal: None,
            kerberos_keytab: None,
            kerberos_kdc: None,
            kerberos_realm: None,
            ca_file: None,
            server_name: None,
            verify: default_true(),
        }
    }
}

/// Certificates are verified by default.
pub fn default_true() -> (r: bool)
    ensures
        r,
{
    true
}

/// The pool of upstream connections.
#[derive(Debug)]
pub struct PoolConfig {
    pub mode: PoolMode,
    /// The most upstream connections for one broker; further requests wait.
    pub max_per_broker: usize,
    /// The idle connections that are kept ready.
    pub min_idle: usize,
    /// How long a connection may be idle.
    pub idle_timeout: Duration,
    /// How long a request waits for a connection.
    pub acquire_timeout: Duration,
    /// How often idle connections are probed for being alive.
    pub health_check: Duration,
    /// The most requests in flight.
    pub max_in_flight: usize,
    /// The resident memory, in bytes, at which new connections are refused. Zero is no limit.
    pub max_rss_bytes: u64,
}

impl Default for PoolConfig {
    fn default() -> (r: Self)
        ensures
            r == (PoolConfig {
                mode: PoolMode::Pooled,
                max_per_broker: 16,
                min_idle: 2,
                idle_timeout: Duration { secs: 300, nanos: 0 },
                acquire_timeout: Duration { secs: 5, nanos: 0 },
                health_check: Duration { secs: 30, nanos: 0 },
                max_in_flight: 100_000,
                max_rss_bytes: 0,
            }),
    {
        PoolConfig {
            mode: default_pool_mode(),
            max_per_broker: default_max_per_broker(),
            min_idle: default_min_idle(),
            idle_timeout: default_idle_timeout(),
            acquire_timeout: default_acquire_timeout(),
            health_check: default_health_check(),
            max_in_flight: default_max_in_flight(),
            max_rss_bytes: 0,
        }
    }
}

/// How downstream connections use upstream connections.
#[derive(Debug, Clone, Copy, PartialEq, Eq, Structural)]
pub enum PoolMode {
    /// Many downstream connections share a few upstream connections.
    Pooled,
    /// Each downstream connection has an upstream connection of its own.
    PerConnection,
}

impl PoolMode {
    /// The name that the configuration file uses.
    pub open spec fn spelling(self) -> Seq<char> {
        match self {
            PoolMode::Pooled => "pooled"@,
            PoolMode::PerConnection => "per_connection"@,
        }
    }

    /// The mode of this name.
    pub fn from_name(name: &str) -> (r: Option<Self>)
        ensures
            match r {
                Some(m) => name@ == m.spelling(),
                None => forall|m: PoolMode| name@ != #[trigger] m.spelling(),
            },
    {
        if same(name, "pooled") {
            Some(PoolMode::Pooled)
        } else if same(name, "per_connection") {
            Some(PoolMode::PerConnection)
        } else {
            None
        }
    }
}

pub fn default_pool_mode() -> (r: PoolMode)
    ensures
        r == PoolMode::Pooled,
{
    PoolMode::Pooled
}

pub fn default_max_per_broker() -> (r: usize)
    ensures
        r == 16,
{
    16
}

pub fn default_min_idle() -> (r: usize)
    ensures
        r == 2,
{
    2
}

pub fn default_idle_timeout() -> (r: Duration)
    ensures
        r == (Duration { secs: 300, nanos: 0 }),
{
    Duration::from_secs(300)
}

pub fn default_acquire_timeout() -> (r: Duration)
    ensures
        r == (Duration { secs: 5, nanos: 0 }),
{
    Duration::from_secs(5)
}

pub fn default_health_check() -> (r: Duration)
    ensures
        r == (Duration { secs: 30, nanos: 0 }),
{
    Duration::from_secs(30)
}

pub fn default_max_in_flight() -> (r: usize)
    ensures
        r == 100_000,
{
    100_000
}

/// The web endpoint: health, metrics and diagnosis on one port.
#[derive(Debug, Clone)]
pub struct ApiConfig {
    /// The address that it listens on.
    pub listen: String,
    /// How many messages are shown where the request does not say.
    pub default_count: usize,
    /// Whether performance figures are collected.
    pub metrics_enabled: bool,
}

impl Default for ApiConfig {
    fn default() -> (r: Self)
        ensures
            r.listen@ == "127.0.0.1:9100"@,
            r.default_count == 5,
            !r.metrics_enabled,
    {
        ApiConfig {
            listen: default_api_listen(),
            default_count: default_debug_count(),
            metrics_enabled: false,
        }
    }
}

pub fn default_api_listen() -> (r: String)
    ensures
        r@ == "127.0.0.1:9100"@,
{
    "127.0.0.1:9100".to_owned()
}

pub fn default_debug_count() -> (r: usize)
    ensures
        r == 5,
{
    5
}

/// How several proxies share the load.
#[derive(Debug, Clone, Copy, PartialEq, Eq, Structural)]
pub enum HaMode {
    /// Replicas without state behind a load balancer.
    StatelessReplicas,
    /// Instances behind one DNS name.
    DnsRoundRobin,
}

impl Default for HaMode {
    fn default() -> (r: Self)
        ensures
            r == HaMode::StatelessReplicas,
    {
        HaMode::StatelessReplicas
    }
}

impl HaMode {
    /// The name that messages use.
    pub open spec fn spelling(self) -> Seq<char> {
        match self {
            HaMode::StatelessReplicas => "stateless-replicas"@,
            HaMode::DnsRoundRobin => "dns-round-robin"@,
        }
    }

    /// The name with underscores, which the configuration file may use too.
    pub open spec fn snake_spelling(self) -> Seq<char> {
        match self {
            HaMode::StatelessReplicas => "stateless_replicas"@,
            HaMode::DnsRoundRobin => "dns_round_robin"@,
        }
    }

    /// The mode of this name.
    pub fn from_name(name: &str) -> (r: Option<Self>)
        ensures
            match r {
                Some(m) => name@ == m.spelling() || name@ == m.snake_spelling(),
                None => forall|m: HaMode|
                    name@ != #[trigger] m.spelling() && name@ != m.snake_spelling(),
            },
    {
        if same(name, "stateless_replicas") || same(name, "stateless-replicas") {
            Some(HaMode::StatelessReplicas)
        } else if same(name, "dns_round_robin") || same(name, "dns-round-robin") {
            Some(HaMode::DnsRoundRobin)
        } else {
            None
        }
    }

    /// The name that messages use.
    pub fn name(self) -> (r: &'static str)
        ensures
            r@ == self.spelling(),
    {
        match self {
            HaMode::StatelessReplicas => "stateless-replicas",
            HaMode::DnsRoundRobin => "dns-round-robin",
        }
    }
}

/// High availability.
#[derive(Debug)]
pub struct HaConfig {
    pub mode: HaMode,
}

impl Default for HaConfig {
    fn default() -> (r: Self)
        ensures
            r.mode == HaMode::StatelessReplicas,
    {
        HaConfig { mode: HaMode::default() }
    }
}

/// What is wrong with a configuration.
#[derive(Debug)]
pub enum ConfigError {
    /// The file could not be read.
    Read(String),
    /// The file is not what it should be.
    Parse(String),
    /// A rule is broken.
    Invalid(String),
    /// An address could not be resolved.
    Resolve(String),
}

impl ConfigError {
    /// The message for the user.
    pub open spec fn shown(self) -> Seq<char> {
        match self {
            ConfigError::Read(e) => "读取配置文件失败: "@ + e@,
            ConfigError::Parse(e) => "解析 TOML 失败: "@ + e@,
            ConfigError::Invalid(e) => "配置无效: "@ + e@,
            ConfigError::Resolve(e) => "地址解析失败: "@ + e@,
        }
    }

    /// The message for the user.
    pub fn message(&self) -> (r: String)
        ensures
            r@ == self.shown(),
    {
        match self {
            ConfigError::Read(e) => "读取配置文件失败: ".to_owned().concat(e.as_str()),
            ConfigError::Parse(e) => "解析 TOML 失败: ".to_owned().concat(e.as_str()),
            ConfigError::Invalid(e) => "配置无效: ".to_owned().concat(e.as_str()),
            ConfigError::Resolve(e) => "地址解析失败: ".to_owned().concat(e.as_str()),
        }
    }
}

/// A text as `{:?}` writes it: in quotes, with escapes.
pub uninterp spec fn quoted_text(s: Seq<char>) -> Seq<char>;

/// `format!("{:?}")` of a string: the result depends on the string alone.
#[verifier::external_body]
pub(crate) fn quoted(s: &str) -> (r: String)
    ensures
        r@ == quoted_text(s@),
{
    format!("{:?}", s)
}

/// The strings of a list, as characters.
pub open spec fn texts(list: Seq<String>) -> Seq<Seq<char>> {
    list.map_values(|s: String| s@)
}

/// The start of a message on mapping entry number `i`.
pub open spec fn entry_label(i: nat, entry: Seq<char>) -> Seq<char> {
    "proxy.bootstrap_server_mapping["@ + text::decimal(i) + "] = "@ + quoted_text(entry)
}

/// What is wrong with mapping entry number `i`. An entry has one to three parts between commas,
/// and the last of them starts with the advertised host, unless there is one to fall back on.
pub open spec fn entry_problem(i: nat, entry: Seq<char>, fallback: Option<Seq<char>>) -> Option<
    Seq<char>,
> {
    let parts = text::pieces(entry, ',');
    if parts.len() > 3 {
        Some(entry_label(i, entry) + " 格式非法：支持 1/2/3 段(逗号分隔)"@)
    } else {
        let host = match text::around_last(text::trimmed(parts.last()), ':') {
            Some((h, _)) => h,
            None => Seq::empty(),
        };
        let other = match fallback {
            Some(h) => text::trimmed(h),
            None => Seq::empty(),
        };
        if host.len() == 0 && other.len() == 0 {
            Some(
                entry_label(i, entry)
                    + " 缺少广告主机名，且未配置 proxy.advertise_host 作回退"@,
            )
        } else {
            None
        }
    }
}

/// What is wrong with the first faulty mapping entry from number `from` on.
pub open spec fn first_entry_problem(
    entries: Seq<Seq<char>>,
    from: nat,
    fallback: Option<Seq<char>>,
) -> Option<Seq<char>>
    decreases entries.len() - from,
{
    if from >= entries.len() {
        None
    } else {
        match entry_problem(from, entries[from as int], fallback) {
            Some(problem) => Some(problem),
            None => first_entry_problem(entries, from + 1, fallback),
        }
    }
}

impl ProxyConfig {
    /// What is wrong with the configuration, if anything.
    pub open spec fn problem(self) -> Option<Seq<char>> {
        let servers = self.cluster.bootstrap_servers@.len();
        let entries = self.proxy.bootstrap_server_mapping@.len();
        if servers == 0 {
            Some("cluster.bootstrap_servers 不能为空"@)
        } else if entries == 0 {
            Some(
                "proxy.bootstrap_server_mapping 不能为空(按 bootstrap_servers 顺序配置下游监听地址，如 [\"proxy.svc:19092\", ...])"@,
            )
        } else if entries != servers {
            Some(
                "proxy.bootstrap_server_mapping 长度("@ + text::decimal(entries)
                    + ")必须与 cluster.bootstrap_servers长度("@ + text::decimal(servers)
                    + ")相等，按顺序一一对应"@,
            )
        } else if self.pool.min_idle > self.pool.max_per_broker {
            Some(
                "pool.min_idle("@ + text::decimal(self.pool.min_idle as nat)
                    + ") 不能大于 pool.max_per_broker("@ + text::decimal(
                    self.pool.max_per_broker as nat,
                ) + ")"@,
            )
        } else {
            first_entry_problem(
                texts(self.proxy.bootstrap_server_mapping@),
                0,
                text::text_of(self.proxy.advertise_host),
            )
        }
    }

    /// Checks the rules that a configuration must meet.
    pub fn validate(&self) -> (r: Result<(), ConfigError>)
        ensures
            match r {
                Ok(_) => self.problem() is None,
                Err(ConfigError::Invalid(e)) => self.problem() == Some(e@),
                Err(_) => false,
            },
    {
        let servers: usize = self.cluster.bootstrap_servers.len();
        let entries: usize = self.proxy.bootstrap_server_mapping.len();
        if servers == 0 {
            return Err(ConfigError::Invalid("cluster.bootstrap_servers 不能为空".to_owned()));
        }
        if entries == 0 {
            return Err(
                ConfigError::Invalid(
                    "proxy.bootstrap_server_mapping 不能为空(按 bootstrap_servers 顺序配置下游监听地址，如 [\"proxy.svc:19092\", ...])".to_owned(),
                ),
            );
        }
        if entries != servers {
            let mut e = "proxy.bootstrap_server_mapping 长度(".to_owned();
            push_decimal(&mut e, entries as u64);
            e.append(")必须与 cluster.bootstrap_servers长度(");
            push_decimal(&mut e, servers as u64);
            e.append(")相等，按顺序一一对应");
            return Err(ConfigError::Invalid(e));
        }
        if self.pool.min_idle > self.pool.max_per_broker {
            let mut e = "pool.min_idle(".to_owned();
            push_decimal(&mut e, self.pool.min_idle as u64);
            e.append(") 不能大于 pool.max_per_broker(");
            push_decimal(&mut e, self.pool.max_per_broker as u64);
            e.append(")");
            return Err(ConfigError::Invalid(e));
        }
        let ghost mapping = texts(self.proxy.bootstrap_server_mapping@);
        let ghost fallback = text::text_of(self.proxy.advertise_host);
        let mut i: usize = 0;
        while i < entries
            invariant
                i <= entries,
                entries == self.proxy.bootstrap_server_mapping@.len(),
                mapping == texts(self.proxy.bootstrap_server_mapping@),
                fallback == text::text_of(self.proxy.advertise_host),
                first_entry_problem(mapping, 0, fallback) == first_entry_problem(
                    mapping,
                    i as nat,
                    fallback,
                ),
                self.problem() == first_entry_problem(mapping, 0, fallback),
            decreases entries - i,
        {
            let entry = self.proxy.bootstrap_server_mapping[i].as_str();
            assert(mapping[i as int] == entry@);
            match check_entry(i, entry, &self.proxy.advertise_host) {
                Some(e) => {
                    return Err(ConfigError::Invalid(e));
                },
                None => {},
            }
            i = i + 1;
        }
        Ok(())
    }
}

fn is_blank(s: &Option<String>) -> (r: bool)
    ensures
        r == match *s {
            Some(h) => text::trimmed(h@).len() == 0,
            None => true,
        },
{
    match s {
        Some(h) => trim(h.as_str()).is_empty(),
        None => true,
    }
}

fn check_entry(i: usize, entry: &str, advertise_host: &Option<String>) -> (r: Option<String>)
    ensures
        match r {
            Some(e) => entry_problem(i as nat, entry@, text::text_of(*advertise_host)) == Some(e@),
            None => entry_problem(i as nat, entry@, text::text_of(*advertise_host)) is None,
        },
{
    let parts = split(entry, ',');
    let mut e = "proxy.bootstrap_server_mapping[".to_owned();
    push_decimal(&mut e, i as u64);
    e.append("] = ");
    e.append(quoted(entry).as_str());
    if parts.len() > 3 {
        e.append(" 格式非法：支持 1/2/3 段(逗号分隔)");
        return Some(e);
    }
    let advertised = trim(parts[parts.len() - 1]);
    let no_host = match rsplit_once(advertised, ':') {
        Some((host, _)) => host.is_empty(),
        None => true,
    };
    if no_host && is_blank(advertise_host) {
        e.append(" 缺少广告主机名，且未配置 proxy.advertise_host 作回退");
        return Some(e);
    }
    None
}

/// A configuration that passed has as many mapping entries as bootstrap servers, at least one of
/// each, and a host to advertise for every entry.
pub proof fn valid_config_advertises_a_host(config: ProxyConfig, i: int)
    requires
        config.problem() is None,
        0 <= i < config.proxy.bootstrap_server_mapping@.len(),
    ensures
        config.proxy.bootstrap_server_mapping@.len() == config.cluster.bootstrap_servers@.len(),
        config.cluster.bootstrap_servers@.len() > 0,
        config.pool.min_idle <= config.pool.max_per_broker,
        ({
            let entry = config.proxy.bootstrap_server_mapping@[i]@;
            let parts = text::pieces(entry, ',');
            let own = text::around_last(text::trimmed(parts.last()), ':');
            &&& 1 <= parts.len() <= 3
            &&& (own matches Some((h, _)) && h.len() > 0) || (
            config.proxy.advertise_host matches Some(h) && text::trimmed(h@).len() > 0)
        }),
{
    let mapping = texts(config.proxy.bootstrap_server_mapping@);
    let fallback = text::text_of(config.proxy.advertise_host);
    lemma_no_entry_problem(mapping, 0, fallback, i as nat);
    assert(mapping[i] == config.proxy.bootstrap_server_mapping@[i]@);
    text::lemma_pieces_nonempty(mapping[i], ',');
}

proof fn lemma_no_entry_problem(
    entries: Seq<Seq<char>>,
    from: nat,
    fallback: Option<Seq<char>>,
    i: nat,
)
    requires
        first_entry_problem(entries, from, fallback) is None,
        from <= i < entries.len(),
    ensures
        entry_problem(i, entries[i as int], fallback) is None,
    decreases i - from,
{
    if from < i {
        lemma_no_entry_problem(entries, from + 1, fallback, i);
    }
}

/// A span in words: seconds and nanoseconds, or the message on what is wrong. The text, without
/// the white space around it, is a number and a unit: `ms`, `us`, `s`, `m` or `h`, or none for
/// seconds.
pub open spec fn span_of(written: Seq<char>) -> Result<(nat, nat), Seq<char>> {
    let s = text::trimmed(written);
    let max = u64::MAX as nat;
    match text::without_suffix(s, "ms"@) {
        Some(num) => match text::number(num, max) {
            Some(n) => Ok((n / 1000, n % 1000 * 1_000_000)),
            None => Err("无效的毫秒数: "@ + s),
        },
        None => match text::without_suffix(s, "us"@) {
            Some(num) => match text::number(num, max) {
                Some(n) => Ok((n / 1_000_000, n % 1_000_000 * 1000)),
                None => Err("无效的微秒数: "@ + s),
            },
            None => match (
                text::without_suffix(s, "s"@),
                text::without_suffix(s, "m"@),
                text::without_suffix(s, "h"@),
            ) {
                (Some(num), _, _) => whole_seconds(s, num, 1),
                (None, Some(num), _) => whole_seconds(s, num, 60),
                (None, None, Some(num)) => whole_seconds(s, num, 3600),
                (None, None, None) => match text::number(s, max) {
                    Some(n) => Ok((n, 0)),
                    None => Err("无效的时长: "@ + s),
                },
            },
        },
    }
}

/// A number of units of `unit` seconds each.
pub open spec fn whole_seconds(s: Seq<char>, num: Seq<char>, unit: nat) -> Result<
    (nat, nat),
    Seq<char>,
> {
    match text::number(num, u64::MAX as nat) {
        Some(n) => Ok((n * unit, 0)),
        None => Err("无效的时长数值: "@ + s),
    }
}

/// The span, if the text names one, fits in 64-bit seconds.
pub open spec fn span_fits(written: Seq<char>) -> bool {
    match span_of(written) {
        Ok((secs, _)) => secs <= u64::MAX,
        Err(_) => true,
    }
}

fn span(written: &str) -> (r: Option<Result<Duration, String>>)
    ensures
        match r {
            None => !span_fits(written@),
            Some(Ok(d)) => span_of(written@) == Ok::<(nat, nat), Seq<char>>(
                (d.secs as nat, d.nanos as nat),
            ),
            Some(Err(e)) => span_of(written@) == Err::<(nat, nat), Seq<char>>(e@),
        },
{
    let s = trim(written);
    if let Some(num) = strip_suffix(s, "ms") {
        return match parse_number(num, u64::MAX) {
            Some(n) => Some(
                Ok(Duration { secs: n / 1000, nanos: (n % 1000) as u32 * 1_000_000 }),
            ),
            None => Some(Err("无效的毫秒数: ".to_owned().concat(s))),
        };
    }
    if let Some(num) = strip_suffix(s, "us") {
        return match parse_number(num, u64::MAX) {
            Some(n) => Some(
                Ok(Duration { secs: n / 1_000_000, nanos: (n % 1_000_000) as u32 * 1000 }),
            ),
            None => Some(Err("无效的微秒数: ".to_owned().concat(s))),
        };
    }
    let (num, unit): (&str, u64) = if let Some(n) = strip_suffix(s, "s") {
        (n, 1)
    } else if let Some(n) = strip_suffix(s, "m") {
        (n, 60)
    } else if let Some(n) = strip_suffix(s, "h") {
        (n, 3600)
    } else {
        return match parse_number(s, u64::MAX) {
            Some(n) => Some(Ok(Duration::from_secs(n))),
            None => Some(Err("无效的时长: ".to_owned().concat(s))),
        };
    };
    match parse_number(num, u64::MAX) {
        Some(n) => match n.checked_mul(unit) {
            Some(secs) => Some(Ok(Duration::from_secs(secs))),
            None => None,
        },
        None => Some(Err("无效的时长数值: ".to_owned().concat(s))),
    }
}

/// Whether the span that the text names, if it names one, fits in 64-bit seconds.
pub fn duration_fits(written: &str) -> (r: bool)
    ensures
        r == span_fits(written@),
{
    span(written).is_some()
}

/// Reads a span such as `5s`, `10m`, `1h`, `500ms`, `20us`, or a bare number of seconds.
pub fn parse_duration_str(written: &str) -> (r: Result<Duration, String>)
    requires
        span_fits(written@),
    ensures
        match r {
            Ok(d) => span_of(written@) == Ok::<(nat, nat), Seq<char>>(
                (d.secs as nat, d.nanos as nat),
            ),
            Err(e) => span_of(written@) == Err::<(nat, nat), Seq<char>>(e@),
        },
{
    match span(written) {
        Some(r) => r,
        None => Err(String::new()),
    }
}

/// A unit of time as it is written, and the nanoseconds in it. Without a unit, seconds are meant.
pub open spec fn is_unit(unit: Seq<char>, nanos: nat) -> bool {
    ||| unit == "us"@ && nanos == 1000
    ||| unit == "ms"@ && nanos == 1_000_000
    ||| unit == "s"@ && nanos == 1_000_000_000
    ||| unit == "m"@ && nanos == 60_000_000_000
    ||| unit == "h"@ && nanos == 3_600_000_000_000
    ||| unit == Seq::<char>::empty() && nanos == 1_000_000_000
}

/// The number before the unit, where the text ends in the unit and a number is all that stands
/// before it.
pub open spec fn count_of(written: Seq<char>, unit: Seq<char>) -> Option<nat> {
    match text::without_suffix(text::trimmed(written), unit) {
        Some(num) => text::number(num, u64::MAX as nat),
        None => None,
    }
}

/// A text that is a number and a unit names that many of the unit.
pub proof fn span_is_the_product(written: Seq<char>, unit: Seq<char>, nanos: nat)
    requires
        is_unit(unit, nanos),
        count_of(written, unit) is Some,
    ensures
        match span_of(written) {
            Ok((secs, rest)) => rest < 1_000_000_000 && secs * 1_000_000_000 + rest == count_of(
                written,
                unit,
            )->0 * nanos,
            Err(_) => false,
        },
{
    reveal_strlit("us");
    reveal_strlit("ms");
    reveal_strlit("s");
    reveal_strlit("m");
    reveal_strlit("h");
    let s = text::trimmed(written);
    let num = text::without_suffix(s, unit)->0;
    let digits = text::without_plus(num);
    assert(text::is_digit(digits[digits.len() - 1]));
    assert(num.last() == digits[digits.len() - 1]);
    assert(s[num.len() - 1] == num.last());
    assert(s.skip(s.len() as int) =~= Seq::<char>::empty());
    assert(s.take(s.len() as int) =~= s);
    lemma_end_of_suffix(s, unit);
    if text::without_suffix(s, "ms"@) is Some {
        lemma_end_of_suffix(s, "ms"@);
    }
    if text::without_suffix(s, "us"@) is Some {
        lemma_end_of_suffix(s, "us"@);
    }
    if text::without_suffix(s, "s"@) is Some {
        lemma_end_of_suffix(s, "s"@);
    }
    if text::without_suffix(s, "m"@) is Some {
        lemma_end_of_suffix(s, "m"@);
    }
    if text::without_suffix(s, "h"@) is Some {
        lemma_end_of_suffix(s, "h"@);
    }
}

/// A text names a span exactly where, without the white space around it, it is a number that fits
/// in 64 bits and one of the units.
pub proof fn span_needs_a_number_and_a_unit(written: Seq<char>)
    ensures
        span_of(written) is Ok <==> exists|unit: Seq<char>, nanos: nat| #[trigger]
            is_unit(unit, nanos) && count_of(written, unit) is Some,
{
    let s = text::trimmed(written);
    assert(s.skip(s.len() as int) =~= Seq::<char>::empty());
    assert(s.take(s.len() as int) =~= s);
    assert(is_unit("us"@, 1000));
    assert(is_unit("ms"@, 1_000_000));
    assert(is_unit("s"@, 1_000_000_000));
    assert(is_unit("m"@, 60_000_000_000));
    assert(is_unit("h"@, 3_600_000_000_000));
    assert(is_unit(Seq::<char>::empty(), 1_000_000_000));
    assert forall|unit: Seq<char>, nanos: nat| #[trigger]
        is_unit(unit, nanos) && count_of(written, unit) is Some implies span_of(written) is Ok by {
        span_is_the_product(written, unit, nanos);
    }
}

/// Any number of any unit, in decimal digits, with white space around it or none, reads back as
/// that span.
pub proof fn written_span_reads_back(
    before: Seq<char>,
    n: nat,
    unit: Seq<char>,
    nanos: nat,
    after: Seq<char>,
)
    requires
        text::blank(before),
        text::blank(after),
        n <= u64::MAX,
        is_unit(unit, nanos),
    ensures
        match span_of(before + (text::decimal(n) + unit) + after) {
            Ok((secs, rest)) => rest < 1_000_000_000 && secs * 1_000_000_000 + rest == n * nanos,
            Err(_) => false,
        },
{
    reveal_strlit("us");
    reveal_strlit("ms");
    reveal_strlit("s");
    reveal_strlit("m");
    reveal_strlit("h");
    let digits = text::decimal(n);
    let s = digits + unit;
    text::decimal_reads_back(n, u64::MAX as nat);
    assert(text::is_digit(digits[0]));
    assert(text::is_digit(digits[digits.len() - 1]));
    assert(s[0] == digits[0]);
    assert(s.last() == if unit.len() > 0 { unit.last() } else { digits[digits.len() - 1] });
    text::trimming_takes_the_blanks(before, s, after);
    assert(s.skip(s.len() - unit.len()) =~= unit);
    assert(s.take(s.len() - unit.len()) =~= digits);
    span_is_the_product(before + s + after, unit, nanos);
}

/// A text that ends in a suffix ends in the suffix's last two characters.
proof fn lemma_end_of_suffix(s: Seq<char>, suffix: Seq<char>)
    requires
        text::without_suffix(s, suffix) is Some,
    ensures
        suffix.len() > 0 ==> s.last() == suffix.last(),
        suffix.len() > 1 ==> s[s.len() - 2] == suffix[suffix.len() - 2],
{
    let end = s.skip(s.len() - suffix.len());
    assert(suffix.len() > 0 ==> end[suffix.len() - 1] == s[s.len() - 1]);
    assert(suffix.len() > 1 ==> end[suffix.len() - 2] == s[s.len() - 2]);
}

/// A configuration passes where there is a server, an entry for each server, no more idle
/// connections to keep than there may be, and in each entry no more than three parts, the last of
/// which starts with a host, unless there is one to fall back on.
pub proof fn sound_config_passes(config: ProxyConfig)
    requires
        config.cluster.bootstrap_servers@.len() > 0,
        config.proxy.bootstrap_server_mapping@.len() == config.cluster.bootstrap_servers@.len(),
        config.pool.min_idle <= config.pool.max_per_broker,
        forall|i: int|
            0 <= i < config.proxy.bootstrap_server_mapping@.len() ==> ({
                let parts = text::pieces(
                    (#[trigger] config.proxy.bootstrap_server_mapping@[i])@,
                    ',',
                );
                &&& parts.len() <= 3
                &&& (text::around_last(text::trimmed(parts.last()), ':') matches Some((h, _))
                    && h.len() > 0) || (config.proxy.advertise_host matches Some(h)
                    && text::trimmed(h@).len() > 0)
            }),
    ensures
        config.problem() is None,
{
    let entries = texts(config.proxy.bootstrap_server_mapping@);
    let fallback = text::text_of(config.proxy.advertise_host);
    assert forall|i: int| 0 <= i < entries.len() implies entry_problem(
        i as nat,
        #[trigger] entries[i],
        fallback,
    ) is None by {
        assert(entries[i] == config.proxy.bootstrap_server_mapping@[i]@);
    }
    lemma_all_entries_pass(entries, 0, fallback);
}

proof fn lemma_all_entries_pass(entries: Seq<Seq<char>>, from: nat, fallback: Option<Seq<char>>)
    requires
        forall|i: int|
            0 <= i < entries.len() ==> entry_problem(i as nat, #[trigger] entries[i], fallback)
                is None,
    ensures
        first_entry_problem(entries, from, fallback) is None,
    decreases entries.len() - from,
{
    if from < entries.len() {
        assert(entry_problem(from, entries[from as int], fallback) is None);
        lemma_all_entries_pass(entries, from + 1, fallback);
    }
}

/// The first faulty entry is the one that is reported, by its number and its text.
pub proof fn first_faulty_entry_is_reported(
    entries: Seq<Seq<char>>,
    from: nat,
    fallback: Option<Seq<char>>,
    i: int,
)
    requires
        from <= i < entries.len(),
        forall|k: int|
            from <= k < i ==> entry_problem(k as nat, #[trigger] entries[k], fallback) is None,
        entry_problem(i as nat, entries[i], fallback) is Some,
    ensures
        first_entry_problem(entries, from, fallback) == entry_problem(
            i as nat,
            entries[i],
            fallback,
        ),
        first_entry_problem(entries, from, fallback) matches Some(e) && e.take(
            entry_label(i as nat, entries[i]).len() as int,
        ) == "proxy.bootstrap_server_mapping["@ + text::decimal(i as nat) + "] = "@ + quoted_text(
            entries[i],
        ),
    decreases i - from,
{
    if from < i {
        assert(entry_problem(from, entries[from as int], fallback) is None);
        first_faulty_entry_is_reported(entries, from + 1, fallback, i);
    } else {
        let label = entry_label(i as nat, entries[i]);
        let e = entry_problem(i as nat, entries[i], fallback)->0;
        assert(e.take(label.len() as int) =~= label);
    }
}

} // verus!
