//! From the configuration and the cluster's brokers to listeners and addresses.
//!
//! Each bootstrap server has a mapping entry, which says where its listener is bound and which
//! address clients are given. The broker behind a bootstrap server, and with it the node id, is
//! found among the brokers of the cluster.
use std::collections::HashMap;

use vstd::prelude::*;

use crate::config;
use crate::config::{quoted, ConfigError, PoolConfig, ProxyConfig};
use crate::metrics;
use crate::metrics::Metrics;
use crate::net::SocketAddr;
use crate::pool::PoolLimits;
use crate::rewrite;
use crate::rewrite::RewriteMap;
use crate::text;
use crate::text::{parse_number, push_decimal, push_signed, rsplit_once, split, trim};
use crate::upstream;
use crate::upstream::{AuthView, ConnectionPlan, UpstreamAuth, UpstreamError};

verus! {

broadcast use vstd::string::group_string_axioms;

/// A broker: its node id, its address, and its host name.
#[derive(Debug)]
pub struct BrokerTarget {
    pub node_id: i32,
    pub real_addr: SocketAddr,
    pub real_host: String,
}

/// What a `BrokerTarget` holds.
#[verifier::ext_equal]
pub struct TargetView {
    pub node_id: i32,
    pub real_addr: SocketAddr,
    pub real_host: Seq<char>,
}

impl View for BrokerTarget {
    type V = TargetView;

    open spec fn view(&self) -> TargetView {
        TargetView {
            node_id: self.node_id,
            real_addr: self.real_addr,
            real_host: self.real_host@,
        }
    }
}

impl BrokerTarget {
    /// Another value with the same contents.
    pub fn duplicate(&self) -> (r: Self)
        ensures
            r@ == self@,
    {
        BrokerTarget {
            node_id: self.node_id,
            real_addr: self.real_addr,
            real_host: self.real_host.clone(),
        }
    }
}

/// A listener: the node that it serves, where it is bound, and the port that clients are given.
#[derive(Debug)]
pub struct MappedListener {
    pub node_id: i32,
    pub port: u16,
    /// `host:port`, or `:port` for the address that the configuration says.
    pub bind_addr: String,
    pub target: BrokerTarget,
}

/// What a `MappedListener` holds.
#[verifier::ext_equal]
pub struct ListenerView {
    pub node_id: i32,
    pub port: u16,
    pub bind_addr: Seq<char>,
    pub target: TargetView,
}

impl View for MappedListener {
    type V = ListenerView;

    open spec fn view(&self) -> ListenerView {
        ListenerView {
            node_id: self.node_id,
            port: self.port,
            bind_addr: self.bind_addr@,
            target: self.target@,
        }
    }
}

/// Why the proxy cannot start.
#[derive(Debug)]
pub enum ProxyError {
    /// The configuration does not fit the cluster, or cannot be understood.
    Config(String),
    /// The authentication towards the brokers is not configured well.
    UpstreamAuth(UpstreamError),
    /// The configuration is faulty, or an address in it cannot be resolved.
    ConfigParse(ConfigError),
}

impl ProxyError {
    /// The message for the user.
    pub fn message(&self) -> (r: String)
        ensures
            match *self {
                ProxyError::Config(e) => r@ == "配置错误: "@ + e@,
                ProxyError::UpstreamAuth(e) => r@ == "上游认证配置错误: "@ + e.shown(),
                ProxyError::ConfigParse(e) => r@ == "配置解析: "@ + e.shown(),
            },
    {
        match self {
            ProxyError::Config(e) => "配置错误: ".to_owned().concat(e.as_str()),
            ProxyError::UpstreamAuth(e) => "上游认证配置错误: ".to_owned().concat(
                e.message().as_str(),
            ),
            ProxyError::ConfigParse(e) => "配置解析: ".to_owned().concat(e.message().as_str()),
        }
    }
}

/// What is wrong with a mapping entry, or with a bootstrap server.
pub enum MappingError {
    /// It cannot be understood, or has no broker.
    Config(Seq<char>),
    /// Its address cannot be resolved.
    Resolve(Seq<char>),
}

impl ProxyError {
    /// The error that stands for `e`.
    pub open spec fn reports(self, e: MappingError) -> bool {
        match (self, e) {
            (ProxyError::Config(t), MappingError::Config(u)) => t@ == u,
            (ProxyError::ConfigParse(ConfigError::Resolve(t)), MappingError::Resolve(u)) => t@ == u,
            _ => false,
        }
    }
}

/// The limits of the pools that the configuration sets.
pub fn pool_limits(cfg: &PoolConfig) -> (r: PoolLimits)
    ensures
        r == (PoolLimits {
            max_per_broker: cfg.max_per_broker,
            min_idle: cfg.min_idle,
            idle_timeout: cfg.idle_timeout,
            acquire_timeout: cfg.acquire_timeout,
            health_check: cfg.health_check,
            max_in_flight: cfg.max_in_flight,
        }),
{
    PoolLimits {
        max_per_broker: cfg.max_per_broker,
        min_idle: cfg.min_idle,
        idle_timeout: cfg.idle_timeout,
        acquire_timeout: cfg.acquire_timeout,
        health_check: cfg.health_check,
        max_in_flight: cfg.max_in_flight,
    }
}

/// A message on a mapping entry.
pub open spec fn entry_error(mapping: Seq<char>, what: Seq<char>) -> Seq<char> {
    "bootstrap_server_mapping 项 "@ + config::quoted_text(mapping) + what
}

/// `host:port`, or `:port` without a host.
pub open spec fn bind_text(host: Seq<char>, port: nat) -> Seq<char> {
    host + ":"@ + text::decimal(port)
}

/// What a mapping entry says: where to bind, and the host and the port to advertise. The entry is
/// `host:port`, or two or three parts between commas, of which the last is the address to
/// advertise and the one before it the address to bind. The listener of an entry of one part is
/// bound to the advertised port. Without a host, the fallback is advertised.
pub open spec fn mapping_of(mapping: Seq<char>, fallback: Seq<char>) -> Result<
    (Seq<char>, Seq<char>, nat),
    Seq<char>,
> {
    let parts = text::pieces(mapping, ',');
    let max = u16::MAX as nat;
    if parts.len() > 3 {
        Err(entry_error(mapping, " 格式非法：支持 1/2/3 段(逗号分隔)"@))
    } else {
        match text::around_last(text::trimmed(parts.last()), ':') {
            None => Err(entry_error(mapping, " 的广告地址缺少 :port"@)),
            Some((own_host, port_text)) => match text::number(port_text, max) {
                None => Err(entry_error(mapping, " 广告端口非法"@)),
                Some(port) => {
                    let host = if own_host.len() == 0 {
                        fallback
                    } else {
                        own_host
                    };
                    if parts.len() == 1 {
                        Ok((bind_text(Seq::empty(), port), host, port))
                    } else {
                        match text::around_last(text::trimmed(parts[parts.len() - 2]), ':') {
                            None => Err(entry_error(mapping, " 的绑定地址缺少 :port"@)),
                            Some((bind_host, bind_port_text)) => match text::number(
                                bind_port_text,
                                max,
                            ) {
                                None => Err(entry_error(mapping, " 绑定端口非法"@)),
                                Some(bind_port) => Ok((bind_text(bind_host, bind_port), host, port)),
                            },
                        }
                    }
                },
            },
        }
    }
}

fn entry_message(mapping: &str, what: &str) -> (r: ProxyError)
    ensures
        r.reports(MappingError::Config(entry_error(mapping@, what@))),
{
    let mut e = "bootstrap_server_mapping 项 ".to_owned();
    e.append(quoted(mapping).as_str());
    e.append(what);
    ProxyError::Config(e)
}

fn bind_address(host: &str, port: u16) -> (r: String)
    ensures
        r@ == bind_text(host@, port as nat),
{
    let mut r = host.to_owned();
    r.append(":");
    push_decimal(&mut r, port as u64);
    r
}

/// Reads a mapping entry: where to bind, and the host and the port to advertise.
pub fn parse_mapping_entry(mapping: &str, fallback_host: &str) -> (r: Result<
    (String, String, u16),
    ProxyError,
>)
    ensures
        match r {
            Ok((bind_addr, host, port)) => mapping_of(mapping@, fallback_host@) == Ok::<
                (Seq<char>, Seq<char>, nat),
                Seq<char>,
            >((bind_addr@, host@, port as nat)),
            Err(e) => mapping_of(mapping@, fallback_host@) matches Err(t) && e.reports(
                MappingError::Config(t),
            ),
        },
{
    let parts = split(mapping, ',');
    if parts.len() > 3 {
        return Err(entry_message(mapping, " 格式非法：支持 1/2/3 段(逗号分隔)"));
    }
    let advertised = trim(parts[parts.len() - 1]);
    let (own_host, port_text) = match rsplit_once(advertised, ':') {
        Some(around) => around,
        None => {
            return Err(entry_message(mapping, " 的广告地址缺少 :port"));
        },
    };
    let port: u16 = match parse_number(port_text, u16::MAX as u64) {
        Some(n) => n as u16,
        None => {
            return Err(entry_message(mapping, " 广告端口非法"));
        },
    };
    let host = if own_host.is_empty() {
        fallback_host.to_owned()
    } else {
        own_host.to_owned()
    };
    if parts.len() == 1 {
        proof {
            reveal_strlit("");
            assert(""@ =~= Seq::<char>::empty());
        }
        return Ok((bind_address("", port), host, port));
    }
    let bound = trim(parts[parts.len() - 2]);
    match rsplit_once(bound, ':') {
        None => Err(entry_message(mapping, " 的绑定地址缺少 :port")),
        Some((bind_host, bind_port_text)) => match parse_number(bind_port_text, u16::MAX as u64) {
            None => Err(entry_message(mapping, " 绑定端口非法")),
            Some(bind_port) => Ok((bind_address(bind_host, bind_port as u16), host, port)),
        },
    }
}

/// The host in front of the last colon of an address, or all of it.
pub open spec fn host_of(address: Seq<char>) -> Seq<char> {
    match text::around_last(address, ':') {
        Some((host, _)) => host,
        None => address,
    }
}

fn host_part(address: &str) -> (r: &str)
    ensures
        r@ == host_of(address@),
{
    match rsplit_once(address, ':') {
        Some((host, _)) => host,
        None => address,
    }
}

/// The first broker, from number `from` on, that is at `addr`.
pub open spec fn first_at(targets: Seq<TargetView>, addr: SocketAddr, from: nat) -> Option<int>
    decreases targets.len() - from,
{
    if from >= targets.len() {
        None
    } else if targets[from as int].real_addr.meets(addr) {
        Some(from as int)
    } else {
        first_at(targets, addr, from + 1)
    }
}

/// The first broker, from number `from` on, that has this host name.
pub open spec fn first_named(targets: Seq<TargetView>, host: Seq<char>, from: nat) -> Option<int>
    decreases targets.len() - from,
{
    if from >= targets.len() {
        None
    } else if targets[from as int].real_host == host {
        Some(from as int)
    } else {
        first_named(targets, host, from + 1)
    }
}

/// The broker behind a server: the first one at its address, or, where there is none, the first one
/// with its host name.
pub open spec fn broker_behind(targets: Seq<TargetView>, addr: SocketAddr, host: Seq<char>) -> Option<
    int,
> {
    match first_at(targets, addr, 0) {
        Some(i) => Some(i),
        None => first_named(targets, host, 0),
    }
}

fn find_target<'a>(targets: &'a Vec<BrokerTarget>, addr: &SocketAddr, host: &str) -> (r: Option<
    &'a BrokerTarget,
>)
    ensures
        match (r, broker_behind(targets@.map_values(|t: BrokerTarget| t@), *addr, host@)) {
            (Some(t), Some(i)) => 0 <= i < targets@.len() && *t == targets@[i],
            (None, None) => true,
            _ => false,
        },
{
    let ghost views = targets@.map_values(|t: BrokerTarget| t@);
    let mut i: usize = 0;
    while i < targets.len()
        invariant
            i <= targets@.len(),
            views == targets@.map_values(|t: BrokerTarget| t@),
            first_at(views, *addr, 0) == first_at(views, *addr, i as nat),
        decreases targets@.len() - i,
    {
        assert(views[i as int] == targets@[i as int]@);
        if targets[i].real_addr.same_endpoint(addr) {
            return Some(&targets[i]);
        }
        i = i + 1;
    }
    let wanted = host.to_owned();
    let mut k: usize = 0;
    while k < targets.len()
        invariant
            k <= targets@.len(),
            wanted@ == host@,
            views == targets@.map_values(|t: BrokerTarget| t@),
            first_at(views, *addr, 0) is None,
            first_named(views, host@, 0) == first_named(views, host@, k as nat),
        decreases targets@.len() - k,
    {
        assert(views[k as int] == targets@[k as int]@);
        if targets[k].real_host == wanted {
            return Some(&targets[k]);
        }
        k = k + 1;
    }
    None
}

/// A broker in the list that a message shows.
pub open spec fn broker_label(t: TargetView) -> Seq<char> {
    t.real_host + "("@ + text::signed_decimal(t.node_id as int) + ")"@
}

/// The first `n` brokers of a list, as a message shows them.
pub open spec fn shown_brokers(targets: Seq<TargetView>, n: nat) -> Seq<char>
    decreases n,
{
    if n == 0 {
        Seq::empty()
    } else {
        shown_brokers(targets, (n - 1) as nat) + (if n == 1 {
            ""@
        } else {
            ", "@
        }) + config::quoted_text(broker_label(targets[n - 1]))
    }
}

/// The message on a bootstrap server that is none of the brokers.
pub open spec fn unknown_server(server: Seq<char>, targets: Seq<TargetView>) -> Seq<char> {
    "bootstrap_servers 项 "@ + config::quoted_text(server)
        + " 在集群元数据中找不到对应 broker；已知 broker: ["@ + shown_brokers(
        targets,
        targets.len(),
    ) + "]"@
}

fn unknown_server_message(server: &str, targets: &Vec<BrokerTarget>) -> (r: ProxyError)
    ensures
        r.reports(
            MappingError::Config(
                unknown_server(server@, targets@.map_values(|t: BrokerTarget| t@)),
            ),
        ),
{
    let ghost views = targets@.map_values(|t: BrokerTarget| t@);
    let mut e = "bootstrap_servers 项 ".to_owned();
    e.append(quoted(server).as_str());
    e.append(" 在集群元数据中找不到对应 broker；已知 broker: [");
    let ghost head = e@;
    let mut i: usize = 0;
    assert(e@ =~= head + shown_brokers(views, 0));
    while i < targets.len()
        invariant
            i <= targets@.len(),
            views == targets@.map_values(|t: BrokerTarget| t@),
            e@ == head + shown_brokers(views, i as nat),
        decreases targets@.len() - i,
    {
        let mut label = targets[i].real_host.clone();
        label.append("(");
        push_signed(&mut label, targets[i].node_id as i64);
        label.append(")");
        assert(label@ == broker_label(views[i as int]));
        if i > 0 {
            e.append(", ");
        } else {
            e.append("");
        }
        e.append(quoted(label.as_str()).as_str());
        i = i + 1;
        assert(e@ =~= head + shown_brokers(views, i as nat));
    }
    e.append("]");
    assert(e@ =~= unknown_server(server@, views));
    ProxyError::Config(e)
}

/// The result of resolving an address, as characters.
pub open spec fn resolved_view(r: Result<SocketAddr, String>) -> Result<SocketAddr, Seq<char>> {
    match r {
        Ok(addr) => Ok(addr),
        Err(e) => Err(e@),
    }
}

/// The addresses and the listeners for the first `n` bootstrap servers, or what is wrong with the
/// first of them that has a fault. `resolved` holds what each server's address resolved to.
pub open spec fn mapped(
    servers: Seq<Seq<char>>,
    entries: Seq<Seq<char>>,
    fallback: Seq<char>,
    targets: Seq<TargetView>,
    resolved: Seq<Result<SocketAddr, Seq<char>>>,
    n: nat,
) -> Result<(rewrite::Addresses, Seq<ListenerView>), MappingError>
    decreases n,
{
    if n == 0 {
        Ok((Map::empty(), Seq::empty()))
    } else {
        let k = n - 1;
        match mapped(servers, entries, fallback, targets, resolved, k as nat) {
            Err(e) => Err(e),
            Ok((ports, listeners)) => match (mapping_of(entries[k], fallback), resolved[k]) {
                (Err(t), _) => Err(MappingError::Config(t)),
                (Ok(_), Err(t)) => Err(MappingError::Resolve(t)),
                (Ok((bind_addr, host, port)), Ok(addr)) => match broker_behind(
                    targets,
                    addr,
                    host_of(servers[k]),
                ) {
                    None => Err(MappingError::Config(unknown_server(servers[k], targets))),
                    Some(i) => Ok(
                        (
                            ports.insert(targets[i].node_id, (host, port as u16)),
                            listeners.push(
                                ListenerView {
                                    node_id: targets[i].node_id,
                                    port: port as u16,
                                    bind_addr,
                                    target: targets[i],
                                },
                            ),
                        ),
                    ),
                },
            },
        }
    }
}

/// The fallback host of the configuration, or none.
pub open spec fn fallback_of(config: ProxyConfig) -> Seq<char> {
    match config.proxy.advertise_host {
        Some(h) => h@,
        None => ""@,
    }
}

/// Makes the address map and the listeners, in the order of the bootstrap servers. `resolved` holds
/// what the address of each of them resolved to, or the message on why it did not.
pub fn build_rewrite_map(
    config: &ProxyConfig,
    targets: &Vec<BrokerTarget>,
    resolved: &Vec<Result<SocketAddr, String>>,
) -> (r: Result<(RewriteMap, Vec<MappedListener>), ProxyError>)
    requires
        config.cluster.bootstrap_servers@.len() == config.proxy.bootstrap_server_mapping@.len(),
        resolved@.len() == config.cluster.bootstrap_servers@.len(),
    ensures
        ({
            let all = mapped(
                config::texts(config.cluster.bootstrap_servers@),
                config::texts(config.proxy.bootstrap_server_mapping@),
                fallback_of(*config),
                targets@.map_values(|t: BrokerTarget| t@),
                resolved@.map_values(|a: Result<SocketAddr, String>| resolved_view(a)),
                resolved@.len(),
            );
            match r {
                Ok((map, listeners)) => all == Ok::<
                    (rewrite::Addresses, Seq<ListenerView>),
                    MappingError,
                >((map@, listeners@.map_values(|l: MappedListener| l@))),
                Err(e) => all matches Err(fault) && e.reports(fault),
            }
        }),
{
    broadcast use vstd::std_specs::hash::group_hash_axioms;

    let ghost servers = config::texts(config.cluster.bootstrap_servers@);
    let ghost entries = config::texts(config.proxy.bootstrap_server_mapping@);
    let ghost views = targets@.map_values(|t: BrokerTarget| t@);
    let ghost addrs = resolved@.map_values(|a: Result<SocketAddr, String>| resolved_view(a));
    let ghost fallback = fallback_of(*config);
    let ghost total = resolved@.len();
    let fallback_host: &str = match &config.proxy.advertise_host {
        Some(h) => h.as_str(),
        None => "",
    };
    let mut node_ports: HashMap<i32, (String, u16)> = HashMap::new();
    let mut listeners: Vec<MappedListener> = Vec::new();
    let mut i: usize = 0;
    proof {
        assert(node_ports@.map_values(|a: (String, u16)| (a.0@, a.1)) =~= Map::empty());
        assert(listeners@.map_values(|l: MappedListener| l@) =~= Seq::empty());
    }
    while i < resolved.len()
        invariant
            i <= resolved@.len(),
            config.cluster.bootstrap_servers@.len() == resolved@.len(),
            config.proxy.bootstrap_server_mapping@.len() == resolved@.len(),
            servers == config::texts(config.cluster.bootstrap_servers@),
            entries == config::texts(config.proxy.bootstrap_server_mapping@),
            views == targets@.map_values(|t: BrokerTarget| t@),
            addrs == resolved@.map_values(|a: Result<SocketAddr, String>| resolved_view(a)),
            fallback == fallback_of(*config),
            fallback_host@ == fallback,
            total == resolved@.len(),
            mapped(servers, entries, fallback, views, addrs, i as nat) == Ok::<
                (rewrite::Addresses, Seq<ListenerView>),
                MappingError,
            >(
                (
                    node_ports@.map_values(|a: (String, u16)| (a.0@, a.1)),
                    listeners@.map_values(|l: MappedListener| l@),
                ),
            ),
        decreases resolved@.len() - i,
    {
        let server = config.cluster.bootstrap_servers[i].as_str();
        let entry = config.proxy.bootstrap_server_mapping[i].as_str();
        assert(servers[i as int] == server@);
        assert(entries[i as int] == entry@);
        assert(addrs[i as int] == resolved_view(resolved@[i as int]));
        let ghost ports_before = node_ports@.map_values(|a: (String, u16)| (a.0@, a.1));
        let (bind_addr, host, port) = match parse_mapping_entry(entry, fallback_host) {
            Ok(parts) => parts,
            Err(e) => {
                proof {
                    lemma_fault_stays(servers, entries, fallback, views, addrs, i as nat + 1, total);
                }
                return Err(e);
            },
        };
        let addr = match &resolved[i] {
            Ok(addr) => *addr,
            Err(e) => {
                proof {
                    lemma_fault_stays(servers, entries, fallback, views, addrs, i as nat + 1, total);
                }
                return Err(ProxyError::ConfigParse(ConfigError::Resolve(e.clone())));
            },
        };
        let target = match find_target(targets, &addr, host_part(server)) {
            Some(target) => target.duplicate(),
            None => {
                proof {
                    lemma_fault_stays(servers, entries, fallback, views, addrs, i as nat + 1, total);
                }
                return Err(unknown_server_message(server, targets));
            },
        };
        let ghost found = broker_behind(views, addr, host_of(server@))->0;
        assert(views[found] == target@);
        let listener = MappedListener { node_id: target.node_id, port, bind_addr, target };
        let ghost shown = listener@;
        let ghost listeners_before = listeners@.map_values(|l: MappedListener| l@);
        node_ports.insert(listener.node_id, (host, port));
        listeners.push(listener);
        proof {
            assert(node_ports@.map_values(|a: (String, u16)| (a.0@, a.1)) =~= ports_before.insert(
                shown.node_id,
                (host@, port),
            ));
            assert(listeners@.map_values(|l: MappedListener| l@) =~= listeners_before.push(shown));
        }
        i = i + 1;
    }
    Ok((RewriteMap::new(node_ports), listeners))
}

proof fn lemma_fault_stays(
    servers: Seq<Seq<char>>,
    entries: Seq<Seq<char>>,
    fallback: Seq<char>,
    targets: Seq<TargetView>,
    resolved: Seq<Result<SocketAddr, Seq<char>>>,
    n: nat,
    total: nat,
)
    requires
        mapped(servers, entries, fallback, targets, resolved, n) is Err,
        n <= total,
    ensures
        mapped(servers, entries, fallback, targets, resolved, total) == mapped(
            servers,
            entries,
            fallback,
            targets,
            resolved,
            n,
        ),
    decreases total - n,
{
    if n < total {
        lemma_fault_stays(servers, entries, fallback, targets, resolved, n, (total - 1) as nat);
    }
}

proof fn lemma_first_at(targets: Seq<TargetView>, addr: SocketAddr, from: nat)
    ensures
        match first_at(targets, addr, from) {
            Some(i) => from <= i < targets.len() && targets[i].real_addr.meets(addr),
            None => forall|k: int|
                from <= k < targets.len() ==> !(#[trigger] targets[k]).real_addr.meets(addr),
        },
    decreases targets.len() - from,
{
    if from < targets.len() && !targets[from as int].real_addr.meets(addr) {
        lemma_first_at(targets, addr, from + 1);
    }
}

proof fn lemma_first_named(targets: Seq<TargetView>, host: Seq<char>, from: nat)
    ensures
        first_named(targets, host, from) matches Some(i) ==> from <= i < targets.len()
            && targets[i].real_host == host,
    decreases targets.len() - from,
{
    if from < targets.len() && targets[from as int].real_host != host {
        lemma_first_named(targets, host, from + 1);
    }
}

/// The broker is the one behind the server: it is at the server's address, or none is and it has
/// the server's host name.
pub open spec fn stands_behind(
    target: TargetView,
    targets: Seq<TargetView>,
    addr: SocketAddr,
    host: Seq<char>,
) -> bool {
    ||| target.real_addr.meets(addr)
    ||| {
        &&& target.real_host == host
        &&& forall|k: int|
            0 <= k < targets.len() ==> !(#[trigger] targets[k]).real_addr.meets(addr)
    }
}

/// There is one listener for each bootstrap server, in the same order. Each listener is bound and
/// advertised as the mapping entry of its server says, leads to a broker at the server's address,
/// or of its host name where no broker is at that address, and has that broker's node in the
/// address map.
pub proof fn listeners_follow_the_servers(
    servers: Seq<Seq<char>>,
    entries: Seq<Seq<char>>,
    fallback: Seq<char>,
    targets: Seq<TargetView>,
    resolved: Seq<Result<SocketAddr, Seq<char>>>,
    n: nat,
    i: int,
)
    requires
        mapped(servers, entries, fallback, targets, resolved, n) is Ok,
        0 <= i < n,
    ensures
        ({
            let (ports, listeners) = mapped(servers, entries, fallback, targets, resolved, n)->Ok_0;
            &&& listeners.len() == n
            &&& mapping_of(entries[i], fallback) matches Ok((bind_addr, _, port))
                && listeners[i].bind_addr == bind_addr && listeners[i].port == port
            &&& resolved[i] matches Ok(addr) && stands_behind(
                listeners[i].target,
                targets,
                addr,
                host_of(servers[i]),
            )
            &&& targets.contains(listeners[i].target)
            &&& listeners[i].node_id == listeners[i].target.node_id
            &&& ports.contains_key(listeners[i].node_id)
        }),
    decreases n,
{
    let k = (n - 1) as nat;
    lemma_listener_count(servers, entries, fallback, targets, resolved, k);
    if i < k {
        listeners_follow_the_servers(servers, entries, fallback, targets, resolved, k, i);
    } else {
        lemma_first_at(targets, resolved[i]->Ok_0, 0);
        lemma_first_named(targets, host_of(servers[i]), 0);
        lemma_port_fits(entries[i], fallback);
    }
}

/// The broker behind a server at whose address there is one is the first one there, whatever host
/// names the brokers have: brokers that share a host are told apart by their ports.
pub proof fn brokers_on_one_host_are_told_apart(
    targets: Seq<TargetView>,
    addr: SocketAddr,
    host: Seq<char>,
    i: int,
)
    requires
        0 <= i < targets.len(),
        targets[i].real_addr.meets(addr),
        forall|k: int| 0 <= k < i ==> !(#[trigger] targets[k]).real_addr.meets(addr),
    ensures
        broker_behind(targets, addr, host) == Some(i),
{
    lemma_first_at_is_first(targets, addr, 0, i);
}

proof fn lemma_first_at_is_first(targets: Seq<TargetView>, addr: SocketAddr, from: nat, i: int)
    requires
        from <= i < targets.len(),
        targets[i].real_addr.meets(addr),
        forall|k: int| from <= k < i ==> !(#[trigger] targets[k]).real_addr.meets(addr),
    ensures
        first_at(targets, addr, from) == Some(i),
    decreases i - from,
{
    if from < i {
        lemma_first_at_is_first(targets, addr, from + 1, i);
    }
}

proof fn lemma_port_fits(mapping: Seq<char>, fallback: Seq<char>)
    ensures
        mapping_of(mapping, fallback) matches Ok((_, _, port)) ==> port <= u16::MAX,
{
}

proof fn lemma_listener_count(
    servers: Seq<Seq<char>>,
    entries: Seq<Seq<char>>,
    fallback: Seq<char>,
    targets: Seq<TargetView>,
    resolved: Seq<Result<SocketAddr, Seq<char>>>,
    n: nat,
)
    ensures
        mapped(servers, entries, fallback, targets, resolved, n) matches Ok((_, listeners))
            ==> listeners.len() == n,
    decreases n,
{
    if n > 0 {
        lemma_listener_count(servers, entries, fallback, targets, resolved, (n - 1) as nat);
    }
}

/// An address with white space around it: a host, a colon and a port.
pub open spec fn written_address(
    before: Seq<char>,
    host: Seq<char>,
    port: Seq<char>,
    after: Seq<char>,
) -> Seq<char> {
    before + (host + seq![':'] + port) + after
}

/// The parts of a written address stand where they belong: white space around it, a host that does
/// not start with white space, and a port that does not end in it and holds no colon.
pub open spec fn is_written(
    before: Seq<char>,
    host: Seq<char>,
    port: Seq<char>,
    after: Seq<char>,
) -> bool {
    &&& text::blank(before)
    &&& text::blank(after)
    &&& host.len() > 0 ==> !text::is_space(host[0])
    &&& port.len() > 0 ==> !text::is_space(port.last())
    &&& !port.contains(':')
}

proof fn lemma_written_address(
    before: Seq<char>,
    host: Seq<char>,
    port: Seq<char>,
    after: Seq<char>,
)
    requires
        is_written(before, host, port, after),
    ensures
        text::around_last(text::trimmed(written_address(before, host, port, after)), ':') == Some(
            (host, port),
        ),
{
    let core = host + seq![':'] + port;
    assert(core[0] == if host.len() > 0 {
        host[0]
    } else {
        ':'
    });
    assert(core.last() == if port.len() > 0 {
        port.last()
    } else {
        ':'
    });
    text::trimming_takes_the_blanks(before, core, after);
    text::text_is_cut_at_the_last(host, ':', port);
}

proof fn lemma_decimal_port(port: nat)
    requires
        port <= u16::MAX,
    ensures
        text::number(text::decimal(port), u16::MAX as nat) == Some(port),
        text::decimal(port).len() > 0,
        !text::is_space(text::decimal(port).last()),
        !text::decimal(port).contains(':'),
{
    text::decimal_reads_back(port, u16::MAX as nat);
    let d = text::decimal(port);
    assert(text::is_digit(d[d.len() - 1]));
    if d.contains(':') {
        let i = choose|i: int| 0 <= i < d.len() && d[i] == ':';
        assert(text::is_digit(d[i]));
    }
}

/// An entry that is an address alone is bound to its port on any address, and advertised as it
/// says, with the fallback in the place of an empty host.
pub proof fn lone_address_is_advertised(
    before: Seq<char>,
    host: Seq<char>,
    port: nat,
    after: Seq<char>,
    fallback: Seq<char>,
)
    requires
        port <= u16::MAX,
        text::blank(before),
        text::blank(after),
        host.len() > 0 ==> !text::is_space(host[0]),
        !written_address(before, host, text::decimal(port), after).contains(','),
    ensures
        mapping_of(written_address(before, host, text::decimal(port), after), fallback) == Ok::<
            (Seq<char>, Seq<char>, nat),
            Seq<char>,
        >(
            (
                seq![':'] + text::decimal(port),
                if host.len() > 0 {
                    host
                } else {
                    fallback
                },
                port,
            ),
        ),
{
    reveal_strlit(":");
    let entry = written_address(before, host, text::decimal(port), after);
    lemma_decimal_port(port);
    lemma_written_address(before, host, text::decimal(port), after);
    text::joined_parts_come_apart(seq![entry], ',');
    assert(text::joined(seq![entry], ',') == entry);
    assert(bind_text(Seq::empty(), port) =~= seq![':'] + text::decimal(port));
}

/// In an entry of two or three parts between commas, the last is the address that is advertised,
/// with the fallback in the place of an empty host, and the one before it is where the listener is
/// bound. What stands before those does not matter.
pub proof fn last_part_is_advertised(
    parts: Seq<Seq<char>>,
    pads: (Seq<char>, Seq<char>, Seq<char>, Seq<char>),
    bind_host: Seq<char>,
    bind_port: nat,
    host: Seq<char>,
    port: nat,
    fallback: Seq<char>,
)
    requires
        2 <= parts.len() <= 3,
        forall|i: int| 0 <= i < parts.len() ==> !(#[trigger] parts[i]).contains(','),
        bind_port <= u16::MAX,
        port <= u16::MAX,
        text::blank(pads.0),
        text::blank(pads.1),
        text::blank(pads.2),
        text::blank(pads.3),
        host.len() > 0 ==> !text::is_space(host[0]),
        bind_host.len() > 0 ==> !text::is_space(bind_host[0]),
        parts[parts.len() - 2] == written_address(
            pads.0,
            bind_host,
            text::decimal(bind_port),
            pads.1,
        ),
        parts[parts.len() - 1] == written_address(pads.2, host, text::decimal(port), pads.3),
    ensures
        mapping_of(text::joined(parts, ','), fallback) == Ok::<
            (Seq<char>, Seq<char>, nat),
            Seq<char>,
        >(
            (
                bind_host + seq![':'] + text::decimal(bind_port),
                if host.len() > 0 {
                    host
                } else {
                    fallback
                },
                port,
            ),
        ),
{
    reveal_strlit(":");
    lemma_decimal_port(port);
    lemma_decimal_port(bind_port);
    lemma_written_address(pads.2, host, text::decimal(port), pads.3);
    lemma_written_address(pads.0, bind_host, text::decimal(bind_port), pads.1);
    text::joined_parts_come_apart(parts, ',');
    assert(bind_text(bind_host, bind_port) =~= bind_host + seq![':'] + text::decimal(bind_port));
}

/// What is refused as a mapping entry: more than three parts, and an address, to advertise or to
/// bind, without a colon or with something else than a port behind it.
pub proof fn faulty_entries_are_refused(
    parts: Seq<Seq<char>>,
    fallback: Seq<char>,
    before: Seq<char>,
    host: Seq<char>,
    port: Seq<char>,
    after: Seq<char>,
)
    requires
        parts.len() > 0,
        forall|i: int| 0 <= i < parts.len() ==> !(#[trigger] parts[i]).contains(','),
        is_written(before, host, port, after),
        text::number(port, u16::MAX as nat) is None,
    ensures
        parts.len() > 3 ==> mapping_of(text::joined(parts, ','), fallback) == Err::<
            (Seq<char>, Seq<char>, nat),
            Seq<char>,
        >(entry_error(text::joined(parts, ','), " 格式非法：支持 1/2/3 段(逗号分隔)"@)),
        parts.len() <= 3 && !text::trimmed(parts.last()).contains(':') ==> mapping_of(
            text::joined(parts, ','),
            fallback,
        ) == Err::<(Seq<char>, Seq<char>, nat), Seq<char>>(
            entry_error(text::joined(parts, ','), " 的广告地址缺少 :port"@),
        ),
        parts.len() <= 3 && parts.last() == written_address(before, host, port, after)
            ==> mapping_of(text::joined(parts, ','), fallback) == Err::<
            (Seq<char>, Seq<char>, nat),
            Seq<char>,
        >(entry_error(text::joined(parts, ','), " 广告端口非法"@)),
        2 <= parts.len() && (!text::trimmed(parts[parts.len() - 2]).contains(':')
            || parts[parts.len() - 2] == written_address(before, host, port, after))
            ==> mapping_of(text::joined(parts, ','), fallback) is Err,
{
    text::joined_parts_come_apart(parts, ',');
    lemma_written_address(before, host, port, after);
    if !text::trimmed(parts.last()).contains(':') {
        text::text_is_cut_at_the_last(Seq::empty(), ':', text::trimmed(parts.last()));
    }
    if parts.len() >= 2 && !text::trimmed(parts[parts.len() - 2]).contains(':') {
        text::text_is_cut_at_the_last(
            Seq::empty(),
            ':',
            text::trimmed(parts[parts.len() - 2]),
        );
    }
}

/// The host of an address is what stands before its last colon, or all of it where there is none.
pub proof fn host_stands_before_the_port(host: Seq<char>, port: Seq<char>)
    requires
        !port.contains(':'),
    ensures
        host_of(host + seq![':'] + port) == host,
        host_of(port) == port,
{
    text::text_is_cut_at_the_last(host, ':', port);
}

/// Where no broker is at a server's address, the first one with its host name is behind it; where
/// none has that either, none is.
pub proof fn host_name_is_the_last_resort(
    targets: Seq<TargetView>,
    addr: SocketAddr,
    host: Seq<char>,
    i: int,
)
    requires
        forall|k: int| 0 <= k < targets.len() ==> !(#[trigger] targets[k]).real_addr.meets(addr),
        0 <= i <= targets.len(),
        forall|k: int| 0 <= k < i ==> (#[trigger] targets[k]).real_host != host,
        i < targets.len() ==> targets[i].real_host == host,
    ensures
        broker_behind(targets, addr, host) == (if i < targets.len() {
            Some(i)
        } else {
            None
        }),
{
    lemma_none_at(targets, addr, 0);
    lemma_first_named_is_first(targets, host, 0, i);
}

proof fn lemma_none_at(targets: Seq<TargetView>, addr: SocketAddr, from: nat)
    requires
        forall|k: int| 0 <= k < targets.len() ==> !(#[trigger] targets[k]).real_addr.meets(addr),
    ensures
        first_at(targets, addr, from) is None,
    decreases targets.len() - from,
{
    if from < targets.len() {
        lemma_none_at(targets, addr, from + 1);
    }
}

proof fn lemma_first_named_is_first(
    targets: Seq<TargetView>,
    host: Seq<char>,
    from: nat,
    i: int,
)
    requires
        from <= i <= targets.len(),
        forall|k: int| from <= k < i ==> (#[trigger] targets[k]).real_host != host,
        i < targets.len() ==> targets[i].real_host == host,
    ensures
        first_named(targets, host, from) == (if i < targets.len() {
            Some(i)
        } else {
            None
        }),
    decreases i - from,
{
    if from < i {
        lemma_first_named_is_first(targets, host, from + 1, i);
    }
}

/// There are listeners exactly where each of the servers has an entry that can be read, an address,
/// and a broker behind it.
pub proof fn listeners_need_every_server(
    servers: Seq<Seq<char>>,
    entries: Seq<Seq<char>>,
    fallback: Seq<char>,
    targets: Seq<TargetView>,
    resolved: Seq<Result<SocketAddr, Seq<char>>>,
    n: nat,
)
    ensures
        mapped(servers, entries, fallback, targets, resolved, n) is Ok <==> forall|i: int|
            0 <= i < n ==> #[trigger] has_listener(
                servers,
                entries,
                fallback,
                targets,
                resolved,
                i,
            ),
    decreases n,
{
    if n > 0 {
        let k = n - 1;
        listeners_need_every_server(servers, entries, fallback, targets, resolved, k as nat);
        assert(has_listener(servers, entries, fallback, targets, resolved, k) ==> mapped(
            servers,
            entries,
            fallback,
            targets,
            resolved,
            n,
        ) is Ok || mapped(servers, entries, fallback, targets, resolved, k as nat) is Err);
    }
}

/// The server has an entry that can be read, an address, and a broker behind it.
pub open spec fn has_listener(
    servers: Seq<Seq<char>>,
    entries: Seq<Seq<char>>,
    fallback: Seq<char>,
    targets: Seq<TargetView>,
    resolved: Seq<Result<SocketAddr, Seq<char>>>,
    i: int,
) -> bool {
    &&& mapping_of(entries[i], fallback) is Ok
    &&& resolved[i] matches Ok(addr) && broker_behind(targets, addr, host_of(servers[i])) is Some
}

/// The first server without a listener decides on what is reported: its entry, its address, or that
/// it is none of the brokers.
pub proof fn first_fault_is_reported(
    servers: Seq<Seq<char>>,
    entries: Seq<Seq<char>>,
    fallback: Seq<char>,
    targets: Seq<TargetView>,
    resolved: Seq<Result<SocketAddr, Seq<char>>>,
    n: nat,
    i: int,
)
    requires
        0 <= i < n,
        forall|k: int|
            0 <= k < i ==> #[trigger] has_listener(
                servers,
                entries,
                fallback,
                targets,
                resolved,
                k,
            ),
        !has_listener(servers, entries, fallback, targets, resolved, i),
    ensures
        mapped(servers, entries, fallback, targets, resolved, n) matches Err(e) && match (
            mapping_of(entries[i], fallback),
            resolved[i],
        ) {
            (Err(t), _) => e == MappingError::Config(t),
            (Ok(_), Err(t)) => e == MappingError::Resolve(t),
            (Ok(_), Ok(_)) => e == MappingError::Config(unknown_server(servers[i], targets)),
        },
    decreases n,
{
    if i == n - 1 {
        listeners_need_every_server(servers, entries, fallback, targets, resolved, i as nat);
    } else {
        first_fault_is_reported(
            servers,
            entries,
            fallback,
            targets,
            resolved,
            (n - 1) as nat,
            i,
        );
    }
}

/// Each listener leads to the broker behind its server, and clients are told the host and the port
/// of its entry for that broker's node, unless a later server has the same node. No other node is
/// in the address map.
pub proof fn nodes_are_advertised_as_mapped(
    servers: Seq<Seq<char>>,
    entries: Seq<Seq<char>>,
    fallback: Seq<char>,
    targets: Seq<TargetView>,
    resolved: Seq<Result<SocketAddr, Seq<char>>>,
    n: nat,
    i: int,
    node: i32,
)
    requires
        mapped(servers, entries, fallback, targets, resolved, n) is Ok,
        0 <= i < n,
    ensures
        ({
            let (ports, listeners) = mapped(servers, entries, fallback, targets, resolved, n)->Ok_0;
            &&& listeners.len() == n
            &&& resolved[i] matches Ok(addr) && broker_behind(
                targets,
                addr,
                host_of(servers[i]),
            ) matches Some(k) && listeners[i].target == targets[k]
            &&& (forall|j: int|
                i < j < n ==> (#[trigger] listeners[j]).node_id != listeners[i].node_id) ==> (
            mapping_of(entries[i], fallback) matches Ok((_, host, port)) && ports.contains_key(
                listeners[i].node_id,
            ) && ports[listeners[i].node_id].0 == host && ports[listeners[i].node_id].1 == port)
            &&& ports.contains_key(node) ==> exists|j: int|
                0 <= j < n && (#[trigger] listeners[j]).node_id == node
        }),
    decreases n,
{
    let k = (n - 1) as nat;
    let (ports, listeners) = mapped(servers, entries, fallback, targets, resolved, n)->Ok_0;
    let (before, earlier) = mapped(servers, entries, fallback, targets, resolved, k)->Ok_0;
    lemma_listener_count(servers, entries, fallback, targets, resolved, k);
    lemma_port_fits(entries[k as int], fallback);
    assert(listeners[k as int].node_id == listeners.last().node_id);
    if k > 0 {
        let at = if i < k {
            i
        } else {
            0
        };
        nodes_are_advertised_as_mapped(
            servers,
            entries,
            fallback,
            targets,
            resolved,
            k,
            at,
            node,
        );
        if before.contains_key(node) {
            let j = choose|j: int| 0 <= j < k && (#[trigger] earlier[j]).node_id == node;
            assert(listeners[j] == earlier[j]);
        }
        if i < k {
            assert(listeners[i] == earlier[i]);
            if forall|j: int| i < j < n ==> (#[trigger] listeners[j]).node_id
                != listeners[i].node_id {
                assert forall|j: int| i < j < k implies (#[trigger] earlier[j]).node_id
                    != earlier[i].node_id by {
                    assert(listeners[j] == earlier[j]);
                }
            }
        }
    }
}

/// Where the metadata names brokers and their addresses are resolved, there is one target for each
/// broker, in the same order, with its node id, its host and its address.
pub proof fn targets_are_the_brokers(
    brokers: Seq<BrokerName>,
    servers: Seq<Seq<char>>,
    resolved: Seq<Result<SocketAddr, Seq<char>>>,
    n: nat,
)
    requires
        0 < brokers.len(),
        forall|i: int| 0 <= i < n ==> (#[trigger] resolved[i]) is Ok,
    ensures
        targets_of(brokers, servers, resolved, n) matches Ok(list) && list.len() == n && forall|i:
            int|
            0 <= i < n ==> (#[trigger] list[i]).node_id == brokers[i].node_id && list[i].real_host
                == brokers[i].host@ && Ok::<SocketAddr, Seq<char>>(list[i].real_addr)
                == resolved[i],
    decreases n,
{
    if n > 0 {
        targets_are_the_brokers(brokers, servers, resolved, (n - 1) as nat);
        assert(resolved[n - 1] is Ok);
    }
}

/// Where the metadata names no broker and the servers' addresses are resolved, there is one target
/// for each server, in the same order, with its host and its address, and the node ids count down
/// from -1.
pub proof fn servers_stand_in(
    servers: Seq<Seq<char>>,
    resolved: Seq<Result<SocketAddr, Seq<char>>>,
    n: nat,
)
    requires
        n <= i32::MAX,
        forall|i: int| 0 <= i < n ==> (#[trigger] resolved[i]) is Ok,
    ensures
        targets_of(Seq::empty(), servers, resolved, n) matches Ok(list) && list.len() == n
            && forall|i: int|
            0 <= i < n ==> (#[trigger] list[i]).node_id == -1 - i && list[i].real_host == host_of(
                servers[i],
            ) && Ok::<SocketAddr, Seq<char>>(list[i].real_addr) == resolved[i],
    decreases n,
{
    if n > 0 {
        servers_stand_in(servers, resolved, (n - 1) as nat);
        assert(resolved[n - 1] is Ok);
    }
}

/// The first address that was not resolved is reported, and there are no targets.
pub proof fn first_unresolved_is_reported(
    brokers: Seq<BrokerName>,
    servers: Seq<Seq<char>>,
    resolved: Seq<Result<SocketAddr, Seq<char>>>,
    n: nat,
    i: int,
)
    requires
        0 <= i < n,
        forall|k: int| 0 <= k < i ==> (#[trigger] resolved[k]) is Ok,
        resolved[i] is Err,
    ensures
        targets_of(brokers, servers, resolved, n) == Err::<Seq<TargetView>, Seq<char>>(
            resolved[i]->Err_0,
        ),
    decreases n,
{
    if i == n - 1 {
        lemma_resolved_is_whole(brokers, servers, resolved, i as nat);
    } else {
        first_unresolved_is_reported(brokers, servers, resolved, (n - 1) as nat, i);
    }
}

proof fn lemma_resolved_is_whole(
    brokers: Seq<BrokerName>,
    servers: Seq<Seq<char>>,
    resolved: Seq<Result<SocketAddr, Seq<char>>>,
    n: nat,
)
    requires
        forall|k: int| 0 <= k < n ==> (#[trigger] resolved[k]) is Ok,
    ensures
        targets_of(brokers, servers, resolved, n) is Ok,
    decreases n,
{
    if n > 0 {
        lemma_resolved_is_whole(brokers, servers, resolved, (n - 1) as nat);
        assert(resolved[n - 1] is Ok);
    }
}

/// What has to be resolved is the address of each broker, host and port, in the order of the
/// brokers, or each server where there is no broker.
pub proof fn all_brokers_are_resolved(brokers: Seq<BrokerName>, servers: Seq<Seq<char>>, i: int)
    ensures
        brokers.len() == 0 ==> wanted_addresses(brokers, servers) == servers,
        brokers.len() > 0 ==> wanted_addresses(brokers, servers).len() == brokers.len(),
        0 <= i < brokers.len() ==> wanted_addresses(brokers, servers)[i] == brokers[i].host@
            + seq![':'] + text::signed_decimal(brokers[i].port as int),
{
    reveal_strlit(":");
    if 0 <= i < brokers.len() {
        assert(address_of(brokers[i]) =~= brokers[i].host@ + seq![':'] + text::signed_decimal(
            brokers[i].port as int,
        ));
    }
}

/// A Kerberos login at the start is for the host of the first server, and no other login is for a
/// host.
pub proof fn login_is_for_the_first_host(
    auth: AuthView,
    servers: Seq<Seq<char>>,
    host: Seq<char>,
    port: Seq<char>,
)
    requires
        !port.contains(':'),
    ensures
        !(auth is Gssapi) ==> login_host(auth, servers) is None,
        auth is Gssapi && servers.len() > 0 && servers[0] == host + seq![':'] + port ==> login_host(
            auth,
            servers,
        ) == Some(host),
        servers.len() == 0 || servers[0] == port ==> login_host(auth, servers) is None,
{
    text::text_is_cut_at_the_last(host, ':', port);
}

/// With a configuration that passed validation, no client is ever given an empty host.
pub proof fn advertised_hosts_are_not_empty(
    config: ProxyConfig,
    targets: Seq<TargetView>,
    resolved: Seq<Result<SocketAddr, Seq<char>>>,
    n: nat,
    node: i32,
)
    requires
        config.problem() is None,
        n <= config.proxy.bootstrap_server_mapping@.len(),
        mapped(
            config::texts(config.cluster.bootstrap_servers@),
            config::texts(config.proxy.bootstrap_server_mapping@),
            fallback_of(config),
            targets,
            resolved,
            n,
        ) matches Ok((ports, _)) && ports.contains_key(node),
    ensures
        (mapped(
            config::texts(config.cluster.bootstrap_servers@),
            config::texts(config.proxy.bootstrap_server_mapping@),
            fallback_of(config),
            targets,
            resolved,
            n,
        )->Ok_0).0[node].0.len() > 0,
    decreases n,
{
    let servers = config::texts(config.cluster.bootstrap_servers@);
    let entries = config::texts(config.proxy.bootstrap_server_mapping@);
    let fallback = fallback_of(config);
    let k = (n - 1) as nat;
    let (ports, _) = mapped(servers, entries, fallback, targets, resolved, n)->Ok_0;
    let (before, _) = mapped(servers, entries, fallback, targets, resolved, k)->Ok_0;
    config::valid_config_advertises_a_host(config, k as int);
    assert(entries[k as int] == config.proxy.bootstrap_server_mapping@[k as int]@);
    match config.proxy.advertise_host {
        Some(h) => {
            lemma_trimmed_is_shorter(h@);
        },
        None => {},
    }
    if before.contains_key(node) {
        advertised_hosts_are_not_empty(config, targets, resolved, k, node);
    }
}

proof fn lemma_trimmed_is_shorter(s: Seq<char>)
    ensures
        text::trimmed(s).len() <= s.len(),
{
    lemma_trim_front_is_shorter(s);
    lemma_trim_back_is_shorter(text::trim_front(s));
}

proof fn lemma_trim_front_is_shorter(s: Seq<char>)
    ensures
        text::trim_front(s).len() <= s.len(),
    decreases s.len(),
{
    if s.len() > 0 {
        lemma_trim_front_is_shorter(s.drop_first());
    }
}

proof fn lemma_trim_back_is_shorter(s: Seq<char>)
    ensures
        text::trim_back(s).len() <= s.len(),
    decreases s.len(),
{
    if s.len() > 0 {
        lemma_trim_back_is_shorter(s.drop_last());
    }
}

/// The message on an address that could not be resolved.
pub open spec fn resolve_error(address: Seq<char>, why: Seq<char>) -> Seq<char> {
    address + ": "@ + why
}

/// The first of the addresses that a name resolved to. `found` is what the resolver said: the
/// addresses, or why there are none.
pub fn first_address(address: &str, found: Result<Vec<SocketAddr>, String>) -> (r: Result<
    SocketAddr,
    String,
>)
    ensures
        match (r, found) {
            (Ok(a), Ok(list)) => list@.len() > 0 && a == list@[0],
            (Err(e), Ok(list)) => list@.len() == 0 && e@ == resolve_error(
                address@,
                "无地址解析结果"@,
            ),
            (Err(e), Err(why)) => e@ == resolve_error(address@, why@),
            (Ok(_), Err(_)) => false,
        },
{
    let mut e = address.to_owned();
    e.append(": ");
    match found {
        Ok(list) => {
            if list.len() > 0 {
                return Ok(list[0]);
            }
            e.append("无地址解析结果");
        },
        Err(why) => e.append(why.as_str()),
    }
    Err(e)
}

/// A broker as the cluster's metadata names it: node id, host and port.
pub struct BrokerName {
    pub node_id: i32,
    pub host: String,
    pub port: i32,
}

/// The `host:port` of a broker.
pub open spec fn address_of(b: BrokerName) -> Seq<char> {
    b.host@ + ":"@ + text::signed_decimal(b.port as int)
}

/// The `host:port` of a broker.
pub fn broker_address(b: &BrokerName) -> (r: String)
    ensures
        r@ == address_of(*b),
{
    let mut r = b.host.clone();
    r.append(":");
    push_signed(&mut r, b.port as i64);
    r
}

/// The addresses that have to be resolved at the start: those of the brokers that the metadata
/// names, or the bootstrap servers where it names none.
pub open spec fn wanted_addresses(brokers: Seq<BrokerName>, servers: Seq<Seq<char>>) -> Seq<
    Seq<char>,
> {
    if brokers.len() == 0 {
        servers
    } else {
        brokers.map_values(|b: BrokerName| address_of(b))
    }
}

/// The addresses that have to be resolved at the start.
pub fn addresses_to_resolve(brokers: &Vec<BrokerName>, servers: &Vec<String>) -> (r: Vec<String>)
    ensures
        config::texts(r@) == wanted_addresses(brokers@, config::texts(servers@)),
{
    let mut r: Vec<String> = Vec::new();
    let mut i: usize = 0;
    if brokers.len() == 0 {
        while i < servers.len()
            invariant
                i <= servers@.len(),
                config::texts(r@) == config::texts(servers@).take(i as int),
            decreases servers@.len() - i,
        {
            let ghost before = r@;
            r.push(servers[i].clone());
            assert(config::texts(r@) =~= config::texts(before).push(servers@[i as int]@));
            i = i + 1;
            assert(config::texts(r@) =~= config::texts(servers@).take(i as int));
        }
        assert(config::texts(r@) =~= config::texts(servers@));
    } else {
        let ghost wanted = wanted_addresses(brokers@, config::texts(servers@));
        while i < brokers.len()
            invariant
                i <= brokers@.len(),
                wanted == brokers@.map_values(|b: BrokerName| address_of(b)),
                config::texts(r@) == wanted.take(i as int),
            decreases brokers@.len() - i,
        {
            let ghost before = r@;
            r.push(broker_address(&brokers[i]));
            assert(config::texts(r@) =~= config::texts(before).push(address_of(brokers@[i as int])));
            i = i + 1;
            assert(config::texts(r@) =~= wanted.take(i as int));
        }
        assert(config::texts(r@) =~= wanted);
    }
    r
}

/// The brokers that the proxy can serve: those that the metadata names. Where it names none, the
/// bootstrap servers stand in, with node ids -1, -2 and so on. The message on the first address
/// that was not resolved takes their place.
pub open spec fn targets_of(
    brokers: Seq<BrokerName>,
    servers: Seq<Seq<char>>,
    resolved: Seq<Result<SocketAddr, Seq<char>>>,
    n: nat,
) -> Result<Seq<TargetView>, Seq<char>>
    decreases n,
{
    if n == 0 {
        Ok(Seq::empty())
    } else {
        let k = n - 1;
        match (targets_of(brokers, servers, resolved, k as nat), resolved[k]) {
            (Err(e), _) => Err(e),
            (Ok(_), Err(e)) => Err(e),
            (Ok(list), Ok(real_addr)) => Ok(
                list.push(
                    if brokers.len() == 0 {
                        TargetView {
                            node_id: (-n) as i32,
                            real_addr,
                            real_host: host_of(servers[k]),
                        }
                    } else {
                        TargetView {
                            node_id: brokers[k].node_id,
                            real_addr,
                            real_host: brokers[k].host@,
                        }
                    },
                ),
            ),
        }
    }
}

proof fn lemma_unresolved_stays(
    brokers: Seq<BrokerName>,
    servers: Seq<Seq<char>>,
    resolved: Seq<Result<SocketAddr, Seq<char>>>,
    n: nat,
    total: nat,
)
    requires
        targets_of(brokers, servers, resolved, n) is Err,
        n <= total,
    ensures
        targets_of(brokers, servers, resolved, total) == targets_of(brokers, servers, resolved, n),
    decreases total - n,
{
    if n < total {
        lemma_unresolved_stays(brokers, servers, resolved, n, (total - 1) as nat);
    }
}

/// Makes the list of the brokers that the proxy can serve. `resolved` holds what each address of
/// `addresses_to_resolve` resolved to, or the message on why it did not.
pub fn bootstrap_targets(
    brokers: &Vec<BrokerName>,
    servers: &Vec<String>,
    resolved: &Vec<Result<SocketAddr, String>>,
) -> (r: Result<Vec<BrokerTarget>, ProxyError>)
    requires
        resolved@.len() == wanted_addresses(brokers@, config::texts(servers@)).len(),
        servers@.len() <= i32::MAX,
    ensures
        ({
            let all = targets_of(
                brokers@,
                config::texts(servers@),
                resolved@.map_values(|a: Result<SocketAddr, String>| resolved_view(a)),
                resolved@.len(),
            );
            match r {
                Ok(list) => all == Ok::<Seq<TargetView>, Seq<char>>(
                    list@.map_values(|t: BrokerTarget| t@),
                ),
                Err(e) => all matches Err(t) && e.reports(MappingError::Resolve(t)),
            }
        }),
{
    let ghost names = config::texts(servers@);
    let ghost addrs = resolved@.map_values(|a: Result<SocketAddr, String>| resolved_view(a));
    let ghost total = resolved@.len();
    let mut list: Vec<BrokerTarget> = Vec::new();
    let mut i: usize = 0;
    assert(list@.map_values(|t: BrokerTarget| t@) =~= Seq::empty());
    while i < resolved.len()
        invariant
            i <= resolved@.len(),
            total == resolved@.len(),
            names == config::texts(servers@),
            addrs == resolved@.map_values(|a: Result<SocketAddr, String>| resolved_view(a)),
            resolved@.len() == wanted_addresses(brokers@, names).len(),
            servers@.len() <= i32::MAX,
            targets_of(brokers@, names, addrs, i as nat) == Ok::<Seq<TargetView>, Seq<char>>(
                list@.map_values(|t: BrokerTarget| t@),
            ),
        decreases resolved@.len() - i,
    {
        assert(addrs[i as int] == resolved_view(resolved@[i as int]));
        let real_addr = match &resolved[i] {
            Ok(addr) => *addr,
            Err(e) => {
                proof {
                    lemma_unresolved_stays(brokers@, names, addrs, i as nat + 1, total);
                }
                return Err(ProxyError::ConfigParse(ConfigError::Resolve(e.clone())));
            },
        };
        let ghost before = list@.map_values(|t: BrokerTarget| t@);
        let target = if brokers.len() == 0 {
            assert(names[i as int] == servers@[i as int]@);
            BrokerTarget {
                node_id: -(i as i32) - 1,
                real_addr,
                real_host: host_part(servers[i].as_str()).to_owned(),
            }
        } else {
            BrokerTarget {
                node_id: brokers[i].node_id,
                real_addr,
                real_host: brokers[i].host.clone(),
            }
        };
        let ghost shown = target@;
        list.push(target);
        assert(list@.map_values(|t: BrokerTarget| t@) =~= before.push(shown));
        i = i + 1;
    }
    Ok(list)
}

/// The broker's host name that the first connection logs in with, where the login needs one: the
/// host of the first bootstrap server.
pub open spec fn login_host(auth: AuthView, servers: Seq<Seq<char>>) -> Option<Seq<char>> {
    if auth is Gssapi && servers.len() > 0 {
        match text::around_last(servers[0], ':') {
            Some((host, _)) => Some(host),
            None => None,
        }
    } else {
        None
    }
}

/// The broker's host name that the first connection logs in with, where the login needs one.
pub fn bootstrap_hostname(auth: &UpstreamAuth, servers: &Vec<String>) -> (r: Option<String>)
    ensures
        text::text_of(r) == login_host(auth@, config::texts(servers@)),
{
    if !auth.is_gssapi() || servers.len() == 0 {
        return None;
    }
    match rsplit_once(servers[0].as_str(), ':') {
        Some((host, _)) => Some(host.to_owned()),
        None => None,
    }
}

/// How to connect to the cluster at the start.
pub fn bootstrap_plan<'a>(auth: &'a UpstreamAuth, servers: &Vec<String>) -> (r: ConnectionPlan<'a>)
    ensures
        r.protocol == upstream::protocol_of(auth@),
        match r.client_id {
            Some(id) => auth@ is Gssapi && id@ == "kafka-proxy-bootstrap"@,
            None => !(auth@ is Gssapi),
        },
        r.login@ == auth@,
        text::text_of(r.broker_host) == login_host(auth@, config::texts(servers@)),
{
    let client_id = if auth.is_gssapi() {
        Some("kafka-proxy-bootstrap")
    } else {
        None
    };
    ConnectionPlan {
        protocol: auth.security_protocol(),
        client_id,
        login: auth.login(),
        broker_host: bootstrap_hostname(auth, servers),
    }
}

/// The address that a listener is bound to: its own, or its port on the address of the
/// configuration.
pub fn listen_address(listen_bind: &str, bind_addr: &str) -> (r: String)
    ensures
        r@ == (if bind_addr@.len() > 0 && bind_addr@[0] == ':' {
            listen_bind@ + bind_addr@
        } else {
            bind_addr@
        }),
{
    if !bind_addr.is_empty() && bind_addr.get_char(0) == ':' {
        listen_bind.to_owned().concat(bind_addr)
    } else {
        bind_addr.to_owned()
    }
}

/// The resident memory at which new connections are refused, where there is a limit.
pub fn memory_limit(pool: &PoolConfig) -> (r: Option<u64>)
    ensures
        r == (if pool.max_rss_bytes > 0 {
            Some(pool.max_rss_bytes)
        } else {
            None
        }),
{
    if pool.max_rss_bytes > 0 {
        Some(pool.max_rss_bytes)
    } else {
        None
    }
}

/// What becomes of a new downstream connection.
#[derive(Clone, Copy, Debug, PartialEq, Eq, Structural)]
pub enum Admission {
    /// It is served.
    Accept,
    /// It is refused: the process has as much memory as it may have.
    OutOfMemory,
    /// It is refused: there are as many connections as there may be.
    TooMany,
}

/// Decides on a new downstream connection. One that is accepted counts from then on.
/// `resident_bytes` is the memory of the process, and matters where there is a limit.
pub fn decide_admission(
    memory_limit: Option<u64>,
    resident_bytes: u64,
    max_connections: usize,
    metrics: &mut Metrics,
) -> (r: Admission)
    ensures
        r == (if memory_limit matches Some(limit) && resident_bytes >= limit {
            Admission::OutOfMemory
        } else if old(metrics).downstream_connections < 0 || old(metrics).downstream_connections
            >= max_connections {
            Admission::TooMany
        } else {
            Admission::Accept
        }),
        *final(metrics) == (Metrics {
            downstream_connections: metrics::raised(
                r == Admission::Accept,
                old(metrics).downstream_connections,
                1,
            ),
            ..*old(metrics)
        }),
{
    if let Some(limit) = memory_limit {
        if resident_bytes >= limit {
            return Admission::OutOfMemory;
        }
    }
    let connections: i64 = metrics.downstream_connection_count();
    if connections < 0 || connections as u64 >= max_connections as u64 {
        return Admission::TooMany;
    }
    metrics.inc_downstream_connections();
    Admission::Accept
}

/// A connection that is admitted does not bring the number of connections over the limit.
pub proof fn admission_keeps_the_limit(connections: i64, max_connections: usize)
    requires
        0 <= connections < max_connections,
        connections < i64::MAX,
    ensures
        0 < metrics::raised(true, connections, 1) <= max_connections,
{
}

} // verus!
