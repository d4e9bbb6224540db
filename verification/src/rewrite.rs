//! Rewriting of the responses that carry broker addresses.
//!
//! A Kafka client learns the addresses of the brokers from three responses (metadata, cluster
//! description, coordinator lookup) and then connects to them directly. Each address that belongs
//! to a known node is replaced by the address under which the proxy serves that node, so that the
//! client comes back through the proxy. Every other response passes through unchanged.
//!
//! A response frame does not say what it answers: the caller provides the api key and the version
//! of the request, as `parse_request_header` reads them.
use std::collections::HashMap;

use bytes::{Bytes, BytesMut};
use dashmap::DashMap;
use kafka_client::protocol::api::describe_cluster_response::DescribeClusterBroker;
use kafka_client::protocol::api::find_coordinator_response::Coordinator;
use kafka_client::protocol::{
    DescribeClusterResponse, FindCoordinatorResponse, Message, MetadataResponse,
    MetadataResponseBroker, MetadataResponseTopic, Response,
};
use vstd::prelude::*;

use crate::layout;
use crate::layout::{
    reach_in_describe_cluster, reach_in_find_coordinator, reach_in_metadata, Cursor,
};
use crate::text;
use crate::wire;
use crate::wire::{push_from, push_i32, read_i16, read_i32};

verus! {

broadcast use vstd::string::group_string_axioms;

/// The api keys of the responses that are rewritten.
pub const API_KEY_METADATA: i16 = 3;

pub const API_KEY_DESCRIBE_CLUSTER: i16 = 60;

pub const API_KEY_FIND_COORDINATOR: i16 = 10;

/// The concurrent map of dashmap.
#[verifier::external_type_specification]
#[verifier::external_body]
#[verifier::reject_recursive_types(K)]
#[verifier::reject_recursive_types(V)]
#[verifier::reject_recursive_types(S)]
pub struct ExDashMap<K, V, S>(DashMap<K, V, S>);

/// A metadata response, as kafka_client decodes it.
#[verifier::external_type_specification]
#[verifier::external_body]
pub struct ExMetadataResponse(MetadataResponse);

/// A topic of a metadata response.
#[verifier::external_type_specification]
#[verifier::external_body]
pub struct ExMetadataResponseTopic(MetadataResponseTopic);

/// A cluster description, as kafka_client decodes it.
#[verifier::external_type_specification]
#[verifier::external_body]
pub struct ExDescribeClusterResponse(DescribeClusterResponse);

/// A coordinator response, as kafka_client decodes it.
#[verifier::external_type_specification]
#[verifier::external_body]
pub struct ExFindCoordinatorResponse(FindCoordinatorResponse);

/// Where each node is served: the host that is advertised to clients, and the port.
pub type Addresses = Map<i32, (Seq<char>, u16)>;

/// What a map of advertised addresses holds.
pub uninterp spec fn node_ports_of(ports: DashMap<i32, (String, u16)>) -> Map<
    i32,
    (Seq<char>, u16),
>;

/// The addresses under which the proxy serves the brokers.
pub struct RewriteMap {
    /// Node id to advertised host and port.
    node_ports: DashMap<i32, (String, u16)>,
}

impl View for RewriteMap {
    type V = Addresses;

    closed spec fn view(&self) -> Addresses {
        node_ports_of(self.node_ports)
    }
}

/// `DashMap::from_iter`: the map holds what the entries of `ports` hold.
#[verifier::external_body]
fn ports_from(ports: HashMap<i32, (String, u16)>) -> (r: DashMap<i32, (String, u16)>)
    ensures
        node_ports_of(r) == ports@.map_values(|a: (String, u16)| (a.0@, a.1)),
{
    DashMap::from_iter(ports)
}

/// `DashMap::get`: the entry under `node`, copied out.
#[verifier::external_body]
fn port_of(ports: &DashMap<i32, (String, u16)>, node: i32) -> (r: Option<(String, u16)>)
    ensures
        match r {
            Some(a) => node_ports_of(*ports).contains_key(node) && node_ports_of(*ports)[node] == (
                a.0@,
                a.1,
            ),
            None => !node_ports_of(*ports).contains_key(node),
        },
{
    ports.get(&node).map(|entry| entry.value().clone())
}

impl RewriteMap {
    /// The map that holds the entries of `node_ports`.
    pub fn new(node_ports: HashMap<i32, (String, u16)>) -> (r: Self)
        ensures
            r@ == node_ports@.map_values(|a: (String, u16)| (a.0@, a.1)),
    {
        RewriteMap { node_ports: ports_from(node_ports) }
    }

    /// The host and the port under which the proxy serves this node.
    pub fn address_of(&self, node: i32) -> (r: Option<(String, u16)>)
        ensures
            match r {
                Some((host, port)) => self@.contains_key(node) && self@[node] == (host@, port),
                None => !self@.contains_key(node),
            },
    {
        port_of(&self.node_ports, node)
    }
}

/// The start of a response frame: the correlation id and, in the compact form, the number of
/// tagged fields, which is none.
pub open spec fn response_header(cid: i32, flexible: bool) -> Seq<u8> {
    if flexible {
        wire::i32_bytes(cid as int) + wire::varint(0)
    } else {
        wire::i32_bytes(cid as int)
    }
}

/// The frame with another correlation id.
pub open spec fn under_cid(frame: Seq<u8>, cid: i32) -> Seq<u8> {
    wire::i32_bytes(cid as int) + frame.skip(4)
}

/// The text is short enough for the length that the compact form writes before it.
pub open spec fn text_fits(s: Seq<char>) -> bool {
    vstd::utf8::encode_utf8(s).len() < u32::MAX
}

/// A text that may be absent is short enough.
pub open spec fn option_fits(s: Option<Seq<char>>) -> bool {
    match s {
        Some(t) => text_fits(t),
        None => true,
    }
}

/// The text is short enough for the two-byte length of the older form.
pub open spec fn text_is_short(s: Seq<char>) -> bool {
    vstd::utf8::encode_utf8(s).len() <= i16::MAX
}

/// A text is there, and short enough for the older form.
pub open spec fn option_is_short(s: Option<Seq<char>>) -> bool {
    match s {
        Some(t) => text_is_short(t),
        None => false,
    }
}

fn fits(s: &str) -> (r: bool)
    ensures
        r == text_fits(s@),
{
    s.as_bytes().len() < u32::MAX as usize
}

fn fits_if_present(s: &Option<String>) -> (r: bool)
    ensures
        r == option_fits(text::text_of(*s)),
{
    match s {
        Some(t) => fits(t.as_str()),
        None => true,
    }
}

/// A broker of a metadata response.
pub struct MetadataBroker {
    pub node_id: i32,
    pub host: String,
    pub port: i32,
    pub rack: Option<String>,
}

/// A topic of a metadata response: its name, and what else it holds.
pub struct MetadataTopic {
    pub name: Option<String>,
    pub rest: MetadataResponseTopic,
}

/// A metadata response: its brokers, its texts, and what else it holds.
pub struct Metadata {
    pub brokers: Vec<MetadataBroker>,
    pub cluster_id: Option<String>,
    pub topics: Vec<MetadataTopic>,
    pub rest: MetadataResponse,
}

/// What a `MetadataBroker` holds.
#[verifier::ext_equal]
pub struct MetadataBrokerView {
    pub node_id: i32,
    pub host: Seq<char>,
    pub port: i32,
    pub rack: Option<Seq<char>>,
}

/// What a `MetadataTopic` holds.
#[verifier::ext_equal]
pub struct MetadataTopicView {
    pub name: Option<Seq<char>>,
    pub rest: MetadataResponseTopic,
}

/// What a `Metadata` holds.
#[verifier::ext_equal]
pub struct MetadataView {
    pub brokers: Seq<MetadataBrokerView>,
    pub cluster_id: Option<Seq<char>>,
    pub topics: Seq<MetadataTopicView>,
    pub rest: MetadataResponse,
}

impl View for MetadataBroker {
    type V = MetadataBrokerView;

    open spec fn view(&self) -> MetadataBrokerView {
        MetadataBrokerView {
            node_id: self.node_id,
            host: self.host@,
            port: self.port,
            rack: text::text_of(self.rack),
        }
    }
}

impl View for MetadataTopic {
    type V = MetadataTopicView;

    open spec fn view(&self) -> MetadataTopicView {
        MetadataTopicView { name: text::text_of(self.name), rest: self.rest }
    }
}

impl View for Metadata {
    type V = MetadataView;

    open spec fn view(&self) -> MetadataView {
        MetadataView {
            brokers: self.brokers@.map_values(|b: MetadataBroker| b@),
            cluster_id: text::text_of(self.cluster_id),
            topics: self.topics@.map_values(|t: MetadataTopic| t@),
            rest: self.rest,
        }
    }
}

impl MetadataBrokerView {
    /// The broker at the address under which the proxy serves it.
    pub open spec fn served(self, addresses: Addresses) -> Self {
        if addresses.contains_key(self.node_id) {
            MetadataBrokerView {
                host: addresses[self.node_id].0,
                port: addresses[self.node_id].1 as i32,
                ..self
            }
        } else {
            self
        }
    }
}

impl MetadataView {
    /// The proxy serves one of the brokers.
    pub open spec fn concerns(self, addresses: Addresses) -> bool {
        exists|i: int|
            0 <= i < self.brokers.len() && addresses.contains_key(
                (#[trigger] self.brokers[i]).node_id,
            )
    }

    /// The response with each broker that the proxy serves at the proxy's address.
    pub open spec fn served(self, addresses: Addresses) -> Self {
        MetadataView {
            brokers: self.brokers.map_values(|b: MetadataBrokerView| b.served(addresses)),
            ..self
        }
    }

    /// The response differs from `other` in the addresses of its brokers alone.
    pub open spec fn readdresses(self, other: Self) -> bool {
        &&& self == (MetadataView { brokers: self.brokers, ..other })
        &&& self.brokers.len() == other.brokers.len()
        &&& forall|i: int|
            0 <= i < self.brokers.len() ==> #[trigger] self.brokers[i] == (MetadataBrokerView {
                host: self.brokers[i].host,
                port: self.brokers[i].port,
                ..other.brokers[i]
            })
    }

    /// No text and no list is too long to be written.
    pub open spec fn fits(self) -> bool {
        &&& self.brokers.len() < u32::MAX
        &&& forall|i: int|
            0 <= i < self.brokers.len() ==> text_fits((#[trigger] self.brokers[i]).host)
                && option_fits(self.brokers[i].rack)
        &&& option_fits(self.cluster_id)
        &&& self.topics.len() < u32::MAX
        &&& forall|i: int|
            0 <= i < self.topics.len() ==> option_fits((#[trigger] self.topics[i]).name)
    }

    /// The response reads back as it was written. In the compact form, all do. In the older form,
    /// an absent text is written in two bytes and looked for in four, and a length over two bytes
    /// is cut off.
    pub open spec fn reads_back(self, version: i16) -> bool {
        ||| version >= 9
        ||| {
            &&& forall|i: int|
                0 <= i < self.brokers.len() ==> text_is_short((#[trigger] self.brokers[i]).host) && (
                version >= 1 ==> option_is_short(self.brokers[i].rack))
            &&& version >= 2 ==> option_is_short(self.cluster_id)
            &&& forall|i: int|
                0 <= i < self.topics.len() ==> option_is_short((#[trigger] self.topics[i]).name)
        }
    }
}

/// What `MetadataResponse::decode_frame` makes of a frame: the correlation id and the response.
pub uninterp spec fn metadata_decoded(version: i16, raw: Seq<u8>) -> Option<(i32, MetadataView)>;

/// What `MetadataResponse::flexible_encode` writes: the compact form.
pub uninterp spec fn metadata_flexible_bytes(version: i16, m: MetadataView) -> Seq<u8>;

/// What `MetadataResponse::encode` writes: the older form.
pub uninterp spec fn metadata_plain_bytes(version: i16, m: MetadataView) -> Seq<u8>;

/// The bytes that a metadata response has in the form of its version.
pub open spec fn metadata_encoded(version: i16, m: MetadataView) -> Seq<u8> {
    if version >= 9 {
        metadata_flexible_bytes(version, m)
    } else {
        metadata_plain_bytes(version, m)
    }
}

/// `MetadataResponse::is_flexible_version`: the compact form starts with version 9.
#[verifier::external_body]
fn metadata_is_flexible(version: i16) -> (r: bool)
    ensures
        r == (version >= 9),
{
    MetadataResponse::is_flexible_version(version)
}

/// `MetadataResponse::decode_frame`: the result depends on the version and the bytes alone, and
/// there is one where the walk through the frame reaches its end. The first four bytes are the
/// correlation id. A frame that ends inside a field makes the decoder panic, and is left out.
#[verifier::external_body]
fn decode_metadata(raw: &[u8], version: i16) -> (r: Option<(i32, Metadata)>)
    requires
        !(layout::metadata_frame(raw@, version as int) is Overrun),
    ensures
        match r {
            Some((cid, m)) => {
                &&& metadata_decoded(version, raw@) == Some((cid, m@))
                &&& layout::metadata_frame(raw@, version as int) is At
                &&& raw@.len() >= 4
                &&& cid == wire::i32_at(raw@, 0)
            },
            None => {
                &&& metadata_decoded(version, raw@) is None
                &&& layout::metadata_frame(raw@, version as int) is Refused
            },
        },
{
    let data = Bytes::copy_from_slice(raw);
    let (header, mut rest) = MetadataResponse::decode_frame(data, version).ok()?;
    let brokers = std::mem::take(&mut rest.brokers).into_iter().map(
        |b| MetadataBroker { node_id: b.node_id, host: b.host, port: b.port, rack: b.rack },
    ).collect();
    let topics = std::mem::take(&mut rest.topics).into_iter().map(
        |mut t| MetadataTopic { name: t.name.take(), rest: t },
    ).collect();
    let cluster_id = rest.cluster_id.take();
    Some((header.correlation_id(), Metadata { brokers, cluster_id, topics, rest }))
}

/// `MetadataResponse::flexible_encode`: the bytes depend on the version and the response alone, and
/// there is no response for which it fails. Decoding them behind a header gives the header's
/// correlation id and the response back, for a response that came from a frame of that version and
/// was only given other addresses; the walk through the frame then reaches its end.
#[verifier::external_body]
fn flexible_encode_metadata(m: Metadata, version: i16) -> (r: Option<Vec<u8>>)
    requires
        version >= 9,
        m@.fits(),
        exists|raw: Seq<u8>|
            (#[trigger] metadata_decoded(version, raw)) is Some && m@.readdresses(
                (metadata_decoded(version, raw)->0).1,
            ),
    ensures
        r is Some,
        r->0@ == metadata_flexible_bytes(version, m@),
        forall|cid: i32|
            metadata_decoded(
                version,
                #[trigger] response_header(cid, true) + r->0@,
            ) == Some((cid, m@)),
        forall|cid: i32|
            layout::metadata_frame(
                #[trigger] response_header(cid, true) + r->0@,
                version as int,
            ) is At,
{
    let mut resp = m.rest;
    resp.brokers = m.brokers.into_iter().map(
        |b| MetadataResponseBroker { node_id: b.node_id, host: b.host, port: b.port, rack: b.rack },
    ).collect();
    resp.topics = m.topics.into_iter().map(
        |t| MetadataResponseTopic { name: t.name, ..t.rest },
    ).collect();
    resp.cluster_id = m.cluster_id;
    let mut buf = BytesMut::new();
    resp.flexible_encode(&mut buf, version).ok()?;
    Some(buf.to_vec())
}

/// `MetadataResponse::encode`: the bytes depend on the version and the response alone, and there is
/// no response for which it fails. Decoding them behind a header gives the header's correlation id
/// and the response back, for a response that came from a frame of that version and was only given
/// other addresses, if its texts are there and short; the walk through the frame then reaches its
/// end. Of other responses nothing is said.
#[verifier::external_body]
fn encode_metadata(m: Metadata, version: i16) -> (r: Option<Vec<u8>>)
    requires
        version < 9,
        m@.fits(),
        exists|raw: Seq<u8>|
            (#[trigger] metadata_decoded(version, raw)) is Some && m@.readdresses(
                (metadata_decoded(version, raw)->0).1,
            ),
    ensures
        r is Some,
        r->0@ == metadata_plain_bytes(version, m@),
        forall|cid: i32|
            m@.reads_back(version) ==> metadata_decoded(
                version,
                #[trigger] response_header(cid, false) + r->0@,
            ) == Some((cid, m@)),
        forall|cid: i32|
            m@.reads_back(version) ==> layout::metadata_frame(
                #[trigger] response_header(cid, false) + r->0@,
                version as int,
            ) is At,
{
    let mut resp = m.rest;
    resp.brokers = m.brokers.into_iter().map(
        |b| MetadataResponseBroker { node_id: b.node_id, host: b.host, port: b.port, rack: b.rack },
    ).collect();
    resp.topics = m.topics.into_iter().map(
        |t| MetadataResponseTopic { name: t.name, ..t.rest },
    ).collect();
    resp.cluster_id = m.cluster_id;
    let mut buf = BytesMut::new();
    resp.encode(&mut buf, version).ok()?;
    Some(buf.to_vec())
}

/// Puts the address of every broker that the proxy serves into the list, and tells whether there
/// was one.
pub fn serve_metadata_brokers(brokers: &mut Vec<MetadataBroker>, map: &RewriteMap) -> (r: bool)
    ensures
        final(brokers)@.map_values(|b: MetadataBroker| b@) == old(brokers)@.map_values(
            |b: MetadataBroker| b@,
        ).map_values(|b: MetadataBrokerView| b.served(map@)),
        r == exists|i: int|
            0 <= i < old(brokers)@.len() && map@.contains_key(
                (#[trigger] old(brokers)@[i]).node_id,
            ),
{
    let mut changed = false;
    let mut i: usize = 0;
    while i < brokers.len()
        invariant
            i <= brokers@.len(),
            brokers@.len() == old(brokers)@.len(),
            forall|k: int| 0 <= k < i ==> (#[trigger] brokers@[k])@ == old(brokers)@[k]@.served(map@),
            forall|k: int| i <= k < brokers@.len() ==> #[trigger] brokers@[k] == old(brokers)@[k],
            changed == exists|k: int|
                0 <= k < i && map@.contains_key((#[trigger] old(brokers)@[k]).node_id),
        decreases brokers@.len() - i,
    {
        let node = brokers[i].node_id;
        if let Some((host, port)) = map.address_of(node) {
            brokers[i].host = host;
            brokers[i].port = port as i32;
            changed = true;
        }
        i = i + 1;
    }
    changed
}

fn metadata_fits(m: &Metadata) -> (r: bool)
    ensures
        r == m@.fits(),
{
    if m.brokers.len() >= u32::MAX as usize || m.topics.len() >= u32::MAX as usize {
        return false;
    }
    let mut i: usize = 0;
    while i < m.brokers.len()
        invariant
            i <= m.brokers@.len(),
            forall|k: int|
                0 <= k < i ==> text_fits((#[trigger] m@.brokers[k]).host) && option_fits(
                    m@.brokers[k].rack,
                ),
        decreases m.brokers@.len() - i,
    {
        assert(m@.brokers[i as int] == m.brokers@[i as int]@);
        if !fits(m.brokers[i].host.as_str()) || !fits_if_present(&m.brokers[i].rack) {
            return false;
        }
        i = i + 1;
    }
    let mut k: usize = 0;
    while k < m.topics.len()
        invariant
            k <= m.topics@.len(),
            forall|j: int| 0 <= j < k ==> option_fits((#[trigger] m@.topics[j]).name),
        decreases m.topics@.len() - k,
    {
        assert(m@.topics[k as int] == m.topics@[k as int]@);
        if !fits_if_present(&m.topics[k].name) {
            return false;
        }
        k = k + 1;
    }
    fits_if_present(&m.cluster_id)
}

/// Writes the variable-length form of `value` at the end of `buf`.
pub fn encode_unsigned_varint(buf: &mut Vec<u8>, value: u32)
    ensures
        final(buf)@ == old(buf)@ + wire::varint(value as nat),
    decreases value,
{
    if value < 0x80 {
        buf.push(value as u8);
    } else {
        buf.push((value % 0x80 + 0x80) as u8);
        encode_unsigned_varint(buf, value / 0x80);
        assert(buf@ =~= old(buf)@ + wire::varint(value as nat));
    }
}

/// A frame that starts with `cid` and goes on with `body`.
fn frame_of(cid: i32, flexible: bool, body: &[u8]) -> (r: Vec<u8>)
    ensures
        r@ == response_header(cid, flexible) + body@,
        r@.len() >= 4,
        wire::i32_at(r@, 0) == cid,
        forall|c: i32| #[trigger]
            under_cid(r@, c) == response_header(c, flexible) + body@,
{
    let mut frame: Vec<u8> = Vec::new();
    push_i32(&mut frame, cid);
    if flexible {
        encode_unsigned_varint(&mut frame, 0);
    }
    push_from(&mut frame, body, 0);
    proof {
        assert(body@.skip(0) =~= body@);
        assert(frame@ =~= response_header(cid, flexible) + body@);
        assert(frame@ =~= Seq::<u8>::empty() + wire::i32_bytes(cid as int) + frame@.skip(4));
        wire::i32_reads_back(Seq::<u8>::empty(), cid, frame@.skip(4));
        assert forall|c: i32| #[trigger]
            under_cid(frame@, c) == response_header(c, flexible) + body@ by {
            assert(under_cid(frame@, c) =~= response_header(c, flexible) + body@);
        }
    }
    frame
}

/// Whatever correlation id the frame is given, it decodes to the response `m`, if that is one that
/// reads back as it was written.
pub open spec fn metadata_shows(version: i16, frame: Seq<u8>, m: MetadataView) -> bool {
    m.reads_back(version) ==> forall|c: i32|
        metadata_decoded(version, #[trigger] under_cid(frame, c)) == Some((c, m))
            && layout::metadata_frame(under_cid(frame, c), version as int) is At
}

/// The frame that replaces a metadata response, where one does.
pub open spec fn rewritten_metadata(
    version: i16,
    raw: Seq<u8>,
    addresses: Addresses,
) -> Option<Seq<u8>> {
    if layout::metadata_frame(raw, version as int) is At {
        match metadata_decoded(version, raw) {
            Some((cid, m)) => if m.concerns(addresses) && m.served(addresses).fits() {
                Some(
                    response_header(cid, version >= 9) + metadata_encoded(version, m.served(addresses)),
                )
            } else {
                None
            },
            None => None,
        }
    } else {
        None
    }
}

/// Puts the proxy's addresses into a metadata response frame. There is no new frame where the
/// frame cannot be decoded, names no node that the proxy serves, or cannot be encoded again.
pub fn rewrite_metadata_response(version: i16, raw: &[u8], map: &RewriteMap) -> (r: Option<Vec<u8>>)
    ensures
        match r {
            Some(frame) => rewritten_metadata(version, raw@, map@) == Some(frame@),
            None => rewritten_metadata(version, raw@, map@) is None,
        },
        !(layout::metadata_frame(raw@, version as int) is Overrun) ==> (layout::metadata_frame(
            raw@,
            version as int,
        ) is At <==> metadata_decoded(version, raw@) is Some),
        match (r, metadata_decoded(version, raw@)) {
            (Some(frame), Some((cid, m))) => {
                &&& raw@.len() >= 4
                &&& cid == wire::i32_at(raw@, 0)
                &&& frame@.len() >= 4
                &&& wire::i32_at(frame@, 0) == cid
                &&& frame@ == under_cid(frame@, cid)
                &&& metadata_shows(version, frame@, m.served(map@))
                &&& frame@ == wire::i32_bytes(cid as int) + (if version >= 9 {
                    seq![0u8]
                } else {
                    Seq::empty()
                }) + (if version >= 9 {
                        metadata_flexible_bytes(version, m.served(map@))
                    } else {
                        metadata_plain_bytes(version, m.served(map@))
                    })
            },
            _ => r is None,
        },
        r is Some <==> layout::metadata_frame(raw@, version as int) is At && (metadata_decoded(
            version,
            raw@,
        ) matches Some((_, m)) && (exists|i: int|
                    0 <= i < m.brokers.len() && map@.contains_key(
                        (#[trigger] m.brokers[i]).node_id,
                    )) && m.served(map@).fits()),
{
    if frame_overruns(API_KEY_METADATA, version, raw) {
        return None;
    }
    match decode_metadata(raw, version) {
        None => None,
        Some((cid, decoded)) => {
            let mut m = decoded;
            let ghost before = m@;
            let changed = serve_metadata_brokers(&mut m.brokers, map);
            assert(m@ == before.served(map@));
            proof {
                assert(forall|i: int|
                    0 <= i < decoded.brokers@.len() ==> (#[trigger] before.brokers[i])
                        == decoded.brokers@[i]@);
                assert(forall|i: int|
                    0 <= i < decoded.brokers@.len() ==> (#[trigger] decoded.brokers@[i])@
                        == before.brokers[i]);
            }
            assert(changed == before.concerns(map@));
            if !changed || !metadata_fits(&m) {
                return None;
            }
            let flexible = metadata_is_flexible(version);
            assert(m@.readdresses((metadata_decoded(version, raw@)->0).1));
            let encoded = if flexible {
                flexible_encode_metadata(m, version)
            } else {
                encode_metadata(m, version)
            };
            match encoded {
                Some(body) => {
                    proof {
                        lemma_response_header(cid, flexible, body@);
                    }
                    Some(frame_of(cid, flexible, body.as_slice()))
                },
                None => None,
            }
        },
    }
}

/// A broker of a cluster description.
pub struct ClusterBroker {
    pub broker_id: i32,
    pub host: String,
    pub port: i32,
    pub rack: Option<String>,
    pub is_fenced: bool,
}

/// A cluster description: its brokers, its texts, and what else it holds.
pub struct ClusterDescription {
    pub brokers: Vec<ClusterBroker>,
    pub error_message: Option<String>,
    pub cluster_id: String,
    pub rest: DescribeClusterResponse,
}

/// What a `ClusterBroker` holds.
#[verifier::ext_equal]
pub struct ClusterBrokerView {
    pub broker_id: i32,
    pub host: Seq<char>,
    pub port: i32,
    pub rack: Option<Seq<char>>,
    pub is_fenced: bool,
}

/// What a `ClusterDescription` holds.
#[verifier::ext_equal]
pub struct ClusterDescriptionView {
    pub brokers: Seq<ClusterBrokerView>,
    pub error_message: Option<Seq<char>>,
    pub cluster_id: Seq<char>,
    pub rest: DescribeClusterResponse,
}

impl View for ClusterBroker {
    type V = ClusterBrokerView;

    open spec fn view(&self) -> ClusterBrokerView {
        ClusterBrokerView {
            broker_id: self.broker_id,
            host: self.host@,
            port: self.port,
            rack: text::text_of(self.rack),
            is_fenced: self.is_fenced,
        }
    }
}

impl View for ClusterDescription {
    type V = ClusterDescriptionView;

    open spec fn view(&self) -> ClusterDescriptionView {
        ClusterDescriptionView {
            brokers: self.brokers@.map_values(|b: ClusterBroker| b@),
            error_message: text::text_of(self.error_message),
            cluster_id: self.cluster_id@,
            rest: self.rest,
        }
    }
}

impl ClusterBrokerView {
    /// The broker at the address under which the proxy serves it.
    pub open spec fn served(self, addresses: Addresses) -> Self {
        if addresses.contains_key(self.broker_id) {
            ClusterBrokerView {
                host: addresses[self.broker_id].0,
                port: addresses[self.broker_id].1 as i32,
                ..self
            }
        } else {
            self
        }
    }
}

impl ClusterDescriptionView {
    /// The proxy serves one of the brokers.
    pub open spec fn concerns(self, addresses: Addresses) -> bool {
        exists|i: int|
            0 <= i < self.brokers.len() && addresses.contains_key(
                (#[trigger] self.brokers[i]).broker_id,
            )
    }

    /// The description with each broker that the proxy serves at the proxy's address.
    pub open spec fn served(self, addresses: Addresses) -> Self {
        ClusterDescriptionView {
            brokers: self.brokers.map_values(|b: ClusterBrokerView| b.served(addresses)),
            ..self
        }
    }

    /// The description differs from `other` in the addresses of its brokers alone.
    pub open spec fn readdresses(self, other: Self) -> bool {
        &&& self == (ClusterDescriptionView { brokers: self.brokers, ..other })
        &&& self.brokers.len() == other.brokers.len()
        &&& forall|i: int|
            0 <= i < self.brokers.len() ==> #[trigger] self.brokers[i] == (ClusterBrokerView {
                host: self.brokers[i].host,
                port: self.brokers[i].port,
                ..other.brokers[i]
            })
    }

    /// No text and no list is too long to be written.
    pub open spec fn fits(self) -> bool {
        &&& self.brokers.len() < u32::MAX
        &&& forall|i: int|
            0 <= i < self.brokers.len() ==> text_fits((#[trigger] self.brokers[i]).host)
                && option_fits(self.brokers[i].rack)
        &&& option_fits(self.error_message)
        &&& text_fits(self.cluster_id)
    }
}

/// What `DescribeClusterResponse::decode_frame` makes of a frame: the correlation id and the
/// description.
pub uninterp spec fn describe_cluster_decoded(version: i16, raw: Seq<u8>) -> Option<
    (i32, ClusterDescriptionView),
>;

/// What `DescribeClusterResponse::flexible_encode` writes: the compact form.
pub uninterp spec fn describe_cluster_flexible_bytes(
    version: i16,
    m: ClusterDescriptionView,
) -> Seq<u8>;

/// What `DescribeClusterResponse::encode` writes: the older form.
pub uninterp spec fn describe_cluster_plain_bytes(
    version: i16,
    m: ClusterDescriptionView,
) -> Seq<u8>;

/// The bytes that a cluster description has in the form of its version.
pub open spec fn describe_cluster_encoded(version: i16, m: ClusterDescriptionView) -> Seq<u8> {
    if version >= 0 {
        describe_cluster_flexible_bytes(version, m)
    } else {
        describe_cluster_plain_bytes(version, m)
    }
}

/// `DescribeClusterResponse::is_flexible_version`: every version has the compact form.
#[verifier::external_body]
fn describe_cluster_is_flexible(version: i16) -> (r: bool)
    ensures
        r == (version >= 0),
{
    DescribeClusterResponse::is_flexible_version(version)
}

/// `DescribeClusterResponse::decode_frame`: the result depends on the version and the bytes alone,
/// and there is one where the walk through the frame reaches its end. The first four bytes are the
/// correlation id. A frame that ends inside a field makes the decoder panic, and is left out.
#[verifier::external_body]
fn decode_describe_cluster(raw: &[u8], version: i16) -> (r: Option<(i32, ClusterDescription)>)
    requires
        !(layout::describe_cluster_frame(raw@, version as int) is Overrun),
    ensures
        match r {
            Some((cid, m)) => {
                &&& describe_cluster_decoded(version, raw@) == Some((cid, m@))
                &&& layout::describe_cluster_frame(raw@, version as int) is At
                &&& raw@.len() >= 4
                &&& cid == wire::i32_at(raw@, 0)
            },
            None => {
                &&& describe_cluster_decoded(version, raw@) is None
                &&& layout::describe_cluster_frame(raw@, version as int) is Refused
            },
        },
{
    let data = Bytes::copy_from_slice(raw);
    let (header, mut rest) = DescribeClusterResponse::decode_frame(data, version).ok()?;
    let brokers = std::mem::take(&mut rest.brokers).into_iter().map(
        |b| ClusterBroker {
            broker_id: b.broker_id,
            host: b.host,
            port: b.port,
            rack: b.rack,
            is_fenced: b.is_fenced,
        },
    ).collect();
    let error_message = rest.error_message.take();
    let cluster_id = std::mem::take(&mut rest.cluster_id);
    Some((header.correlation_id(), ClusterDescription { brokers, error_message, cluster_id, rest }))
}

/// `DescribeClusterResponse::flexible_encode`: the bytes depend on the version and the description
/// alone, and there is no description for which it fails. Decoding them behind a header gives the
/// header's correlation id and the description back, for a description that came from a frame of
/// that version and was only given other addresses; the walk through the frame then reaches its end.
#[verifier::external_body]
fn flexible_encode_describe_cluster(m: ClusterDescription, version: i16) -> (r: Option<Vec<u8>>)
    requires
        version >= 0,
        m@.fits(),
        exists|raw: Seq<u8>|
            (#[trigger] describe_cluster_decoded(version, raw)) is Some && m@.readdresses(
                (describe_cluster_decoded(version, raw)->0).1,
            ),
    ensures
        r is Some,
        r->0@ == describe_cluster_flexible_bytes(version, m@),
        forall|cid: i32|
            describe_cluster_decoded(
                version,
                #[trigger] response_header(cid, true) + r->0@,
            ) == Some((cid, m@)),
        forall|cid: i32|
            layout::describe_cluster_frame(
                #[trigger] response_header(cid, true) + r->0@,
                version as int,
            ) is At,
{
    let mut resp = m.rest;
    (resp.error_message, resp.cluster_id) = (m.error_message, m.cluster_id);
    let brokers = m.brokers.into_iter().map(
        |ClusterBroker { broker_id, host, port, rack, is_fenced }|
            DescribeClusterBroker { broker_id, host, port, rack, is_fenced },
    );
    resp.brokers = brokers.collect();
    let mut buf = BytesMut::new();
    resp.flexible_encode(&mut buf, version).ok()?;
    Some(buf.to_vec())
}

/// `DescribeClusterResponse::encode`: the bytes depend on the version and the description alone, and
/// there is no description for which it fails. What they decode to is not said: no such version is
/// in use.
#[verifier::external_body]
fn encode_describe_cluster(m: ClusterDescription, version: i16) -> (r: Option<Vec<u8>>)
    requires
        version < 0,
        m@.fits(),
        exists|raw: Seq<u8>|
            (#[trigger] describe_cluster_decoded(version, raw)) is Some && m@.readdresses(
                (describe_cluster_decoded(version, raw)->0).1,
            ),
    ensures
        r is Some,
        r->0@ == describe_cluster_plain_bytes(version, m@),
{
    let mut resp = m.rest;
    (resp.error_message, resp.cluster_id) = (m.error_message, m.cluster_id);
    let brokers = m.brokers.into_iter().map(
        |ClusterBroker { broker_id, host, port, rack, is_fenced }|
            DescribeClusterBroker { broker_id, host, port, rack, is_fenced },
    );
    resp.brokers = brokers.collect();
    let mut buf = BytesMut::new();
    resp.encode(&mut buf, version).ok()?;
    Some(buf.to_vec())
}

/// Puts the address of every broker that the proxy serves into the list, and tells whether there
/// was one.
pub fn serve_cluster_brokers(brokers: &mut Vec<ClusterBroker>, map: &RewriteMap) -> (r: bool)
    ensures
        final(brokers)@.map_values(|b: ClusterBroker| b@) == old(brokers)@.map_values(
            |b: ClusterBroker| b@,
        ).map_values(|b: ClusterBrokerView| b.served(map@)),
        r == exists|i: int|
            0 <= i < old(brokers)@.len() && map@.contains_key(
                (#[trigger] old(brokers)@[i]).broker_id,
            ),
{
    let mut changed = false;
    let mut i: usize = 0;
    while i < brokers.len()
        invariant
            i <= brokers@.len(),
            brokers@.len() == old(brokers)@.len(),
            forall|k: int| 0 <= k < i ==> (#[trigger] brokers@[k])@ == old(brokers)@[k]@.served(map@),
            forall|k: int| i <= k < brokers@.len() ==> #[trigger] brokers@[k] == old(brokers)@[k],
            changed == exists|k: int|
                0 <= k < i && map@.contains_key((#[trigger] old(brokers)@[k]).broker_id),
        decreases brokers@.len() - i,
    {
        let node = brokers[i].broker_id;
        if let Some((host, port)) = map.address_of(node) {
            brokers[i].host = host;
            brokers[i].port = port as i32;
            changed = true;
        }
        i = i + 1;
    }
    changed
}

fn cluster_description_fits(m: &ClusterDescription) -> (r: bool)
    ensures
        r == m@.fits(),
{
    if m.brokers.len() >= u32::MAX as usize {
        return false;
    }
    let mut i: usize = 0;
    while i < m.brokers.len()
        invariant
            i <= m.brokers@.len(),
            forall|k: int|
                0 <= k < i ==> text_fits((#[trigger] m@.brokers[k]).host) && option_fits(
                    m@.brokers[k].rack,
                ),
        decreases m.brokers@.len() - i,
    {
        assert(m@.brokers[i as int] == m.brokers@[i as int]@);
        if !fits(m.brokers[i].host.as_str()) || !fits_if_present(&m.brokers[i].rack) {
            return false;
        }
        i = i + 1;
    }
    fits_if_present(&m.error_message) && fits(m.cluster_id.as_str())
}

/// Whatever correlation id the frame is given, it decodes to the description `m`.
pub open spec fn describe_cluster_shows(
    version: i16,
    frame: Seq<u8>,
    m: ClusterDescriptionView,
) -> bool {
    version >= 0 ==> forall|c: i32|
        describe_cluster_decoded(version, #[trigger] under_cid(frame, c)) == Some((c, m))
            && layout::describe_cluster_frame(under_cid(frame, c), version as int) is At
}

/// The frame that replaces a cluster description, where one does.
pub open spec fn rewritten_describe_cluster(
    version: i16,
    raw: Seq<u8>,
    addresses: Addresses,
) -> Option<Seq<u8>> {
    if layout::describe_cluster_frame(raw, version as int) is At {
        match describe_cluster_decoded(version, raw) {
            Some((cid, m)) => if m.concerns(addresses) && m.served(addresses).fits() {
                Some(
                    response_header(cid, version >= 0) + describe_cluster_encoded(
                        version,
                        m.served(addresses),
                    ),
                )
            } else {
                None
            },
            None => None,
        }
    } else {
        None
    }
}

/// Puts the proxy's addresses into a cluster description frame. There is no new frame where the
/// frame cannot be decoded, names no node that the proxy serves, or cannot be encoded again.
pub fn rewrite_describe_cluster_response(version: i16, raw: &[u8], map: &RewriteMap) -> (r: Option<
    Vec<u8>,
>)
    ensures
        match r {
            Some(frame) => rewritten_describe_cluster(version, raw@, map@) == Some(frame@),
            None => rewritten_describe_cluster(version, raw@, map@) is None,
        },
        !(layout::describe_cluster_frame(raw@, version as int) is Overrun) ==> (layout::describe_cluster_frame(
            raw@,
            version as int,
        ) is At <==> describe_cluster_decoded(version, raw@) is Some),
        match (r, describe_cluster_decoded(version, raw@)) {
            (Some(frame), Some((cid, m))) => {
                &&& raw@.len() >= 4
                &&& cid == wire::i32_at(raw@, 0)
                &&& frame@.len() >= 4
                &&& wire::i32_at(frame@, 0) == cid
                &&& frame@ == under_cid(frame@, cid)
                &&& describe_cluster_shows(version, frame@, m.served(map@))
                &&& frame@ == wire::i32_bytes(cid as int) + (if version >= 0 {
                    seq![0u8]
                } else {
                    Seq::empty()
                }) + (if version >= 0 {
                        describe_cluster_flexible_bytes(version, m.served(map@))
                    } else {
                        describe_cluster_plain_bytes(version, m.served(map@))
                    })
            },
            _ => r is None,
        },
        r is Some <==> layout::describe_cluster_frame(raw@, version as int) is At && (describe_cluster_decoded(
            version,
            raw@,
        ) matches Some((_, m)) && (exists|i: int|
                    0 <= i < m.brokers.len() && map@.contains_key(
                        (#[trigger] m.brokers[i]).broker_id,
                    )) && m.served(map@).fits()),
{
    if frame_overruns(API_KEY_DESCRIBE_CLUSTER, version, raw) {
        return None;
    }
    match decode_describe_cluster(raw, version) {
        None => None,
        Some((cid, decoded)) => {
            let mut m = decoded;
            let ghost before = m@;
            let changed = serve_cluster_brokers(&mut m.brokers, map);
            assert(m@ == before.served(map@));
            proof {
                assert(forall|i: int|
                    0 <= i < decoded.brokers@.len() ==> (#[trigger] before.brokers[i])
                        == decoded.brokers@[i]@);
                assert(forall|i: int|
                    0 <= i < decoded.brokers@.len() ==> (#[trigger] decoded.brokers@[i])@
                        == before.brokers[i]);
            }
            assert(changed == before.concerns(map@));
            if !changed || !cluster_description_fits(&m) {
                return None;
            }
            let flexible = describe_cluster_is_flexible(version);
            assert(m@.readdresses((describe_cluster_decoded(version, raw@)->0).1));
            let encoded = if flexible {
                flexible_encode_describe_cluster(m, version)
            } else {
                encode_describe_cluster(m, version)
            };
            match encoded {
                Some(body) => {
                    proof {
                        lemma_response_header(cid, flexible, body@);
                    }
                    Some(frame_of(cid, flexible, body.as_slice()))
                },
                None => None,
            }
        },
    }
}

/// One of the coordinators of a coordinator response.
pub struct FoundCoordinator {
    pub key: String,
    pub node_id: i32,
    pub host: String,
    pub port: i32,
    pub error_code: i16,
    pub error_message: Option<String>,
}

/// A coordinator response: one coordinator up to version 3, a list of them from version 4 on, and
/// what else it holds.
pub struct Coordinators {
    pub error_message: Option<String>,
    pub node_id: i32,
    pub host: String,
    pub port: i32,
    pub coordinators: Vec<FoundCoordinator>,
    pub rest: FindCoordinatorResponse,
}

/// What a `FoundCoordinator` holds.
#[verifier::ext_equal]
pub struct FoundCoordinatorView {
    pub key: Seq<char>,
    pub node_id: i32,
    pub host: Seq<char>,
    pub port: i32,
    pub error_code: i16,
    pub error_message: Option<Seq<char>>,
}

/// What a `Coordinators` holds.
#[verifier::ext_equal]
pub struct CoordinatorsView {
    pub error_message: Option<Seq<char>>,
    pub node_id: i32,
    pub host: Seq<char>,
    pub port: i32,
    pub coordinators: Seq<FoundCoordinatorView>,
    pub rest: FindCoordinatorResponse,
}

impl View for FoundCoordinator {
    type V = FoundCoordinatorView;

    open spec fn view(&self) -> FoundCoordinatorView {
        FoundCoordinatorView {
            key: self.key@,
            node_id: self.node_id,
            host: self.host@,
            port: self.port,
            error_code: self.error_code,
            error_message: text::text_of(self.error_message),
        }
    }
}

impl View for Coordinators {
    type V = CoordinatorsView;

    open spec fn view(&self) -> CoordinatorsView {
        CoordinatorsView {
            error_message: text::text_of(self.error_message),
            node_id: self.node_id,
            host: self.host@,
            port: self.port,
            coordinators: self.coordinators@.map_values(|c: FoundCoordinator| c@),
            rest: self.rest,
        }
    }
}

impl FoundCoordinatorView {
    /// The coordinator at the address under which the proxy serves it.
    pub open spec fn served(self, addresses: Addresses) -> Self {
        if addresses.contains_key(self.node_id) {
            FoundCoordinatorView {
                host: addresses[self.node_id].0,
                port: addresses[self.node_id].1 as i32,
                ..self
            }
        } else {
            self
        }
    }
}

impl CoordinatorsView {
    /// The proxy serves a coordinator that the response names.
    pub open spec fn concerns(self, version: i16, addresses: Addresses) -> bool {
        if version <= 3 {
            addresses.contains_key(self.node_id)
        } else {
            exists|i: int|
                0 <= i < self.coordinators.len() && addresses.contains_key(
                    (#[trigger] self.coordinators[i]).node_id,
                )
        }
    }

    /// The response with each coordinator that the proxy serves at the proxy's address.
    pub open spec fn served(self, version: i16, addresses: Addresses) -> Self {
        if version <= 3 {
            if addresses.contains_key(self.node_id) {
                CoordinatorsView {
                    host: addresses[self.node_id].0,
                    port: addresses[self.node_id].1 as i32,
                    ..self
                }
            } else {
                self
            }
        } else {
            CoordinatorsView {
                coordinators: self.coordinators.map_values(
                    |c: FoundCoordinatorView| c.served(addresses),
                ),
                ..self
            }
        }
    }

    /// The response differs from `other` in the addresses that its version carries alone.
    pub open spec fn readdresses(self, version: i16, other: Self) -> bool {
        if version <= 3 {
            self == (CoordinatorsView { host: self.host, port: self.port, ..other })
        } else {
            &&& self == (CoordinatorsView { coordinators: self.coordinators, ..other })
            &&& self.coordinators.len() == other.coordinators.len()
            &&& forall|i: int|
                0 <= i < self.coordinators.len() ==> #[trigger] self.coordinators[i] == (
                FoundCoordinatorView {
                    host: self.coordinators[i].host,
                    port: self.coordinators[i].port,
                    ..other.coordinators[i]
                })
        }
    }

    /// No text and no list is too long to be written.
    pub open spec fn fits(self) -> bool {
        &&& option_fits(self.error_message)
        &&& text_fits(self.host)
        &&& self.coordinators.len() < u32::MAX
        &&& forall|i: int|
            0 <= i < self.coordinators.len() ==> text_fits((#[trigger] self.coordinators[i]).key)
                && text_fits(self.coordinators[i].host) && option_fits(
                self.coordinators[i].error_message,
            )
    }

    /// The response reads back as it was written: in the compact form always, and in the older
    /// form where its texts are there and short.
    pub open spec fn reads_back(self, version: i16) -> bool {
        ||| version >= 3
        ||| {
            &&& 0 <= version
            &&& version >= 1 ==> option_is_short(self.error_message)
            &&& text_is_short(self.host)
        }
    }
}

/// What `FindCoordinatorResponse::decode_frame` makes of a frame: the correlation id and the
/// response.
pub uninterp spec fn find_coordinator_decoded(version: i16, raw: Seq<u8>) -> Option<
    (i32, CoordinatorsView),
>;

/// What `FindCoordinatorResponse::flexible_encode` writes: the compact form.
pub uninterp spec fn find_coordinator_flexible_bytes(version: i16, m: CoordinatorsView) -> Seq<u8>;

/// What `FindCoordinatorResponse::encode` writes: the older form.
pub uninterp spec fn find_coordinator_plain_bytes(version: i16, m: CoordinatorsView) -> Seq<u8>;

/// The bytes that a coordinator response has in the form of its version.
pub open spec fn find_coordinator_encoded(version: i16, m: CoordinatorsView) -> Seq<u8> {
    if version >= 3 {
        find_coordinator_flexible_bytes(version, m)
    } else {
        find_coordinator_plain_bytes(version, m)
    }
}

/// `FindCoordinatorResponse::is_flexible_version`: the compact form starts with version 3.
#[verifier::external_body]
fn find_coordinator_is_flexible(version: i16) -> (r: bool)
    ensures
        r == (version >= 3),
{
    FindCoordinatorResponse::is_flexible_version(version)
}

/// `FindCoordinatorResponse::decode_frame`: the result depends on the version and the bytes alone,
/// and there is one where the walk through the frame reaches its end. The first four bytes are the
/// correlation id. A frame that ends inside a field makes the decoder panic, and is left out.
#[verifier::external_body]
fn decode_find_coordinator(raw: &[u8], version: i16) -> (r: Option<(i32, Coordinators)>)
    requires
        !(layout::find_coordinator_frame(raw@, version as int) is Overrun),
    ensures
        match r {
            Some((cid, m)) => {
                &&& find_coordinator_decoded(version, raw@) == Some((cid, m@))
                &&& layout::find_coordinator_frame(raw@, version as int) is At
                &&& raw@.len() >= 4
                &&& cid == wire::i32_at(raw@, 0)
            },
            None => {
                &&& find_coordinator_decoded(version, raw@) is None
                &&& layout::find_coordinator_frame(raw@, version as int) is Refused
            },
        },
{
    let data = Bytes::copy_from_slice(raw);
    let (header, mut rest) = FindCoordinatorResponse::decode_frame(data, version).ok()?;
    let coordinators = std::mem::take(&mut rest.coordinators).into_iter().map(
        |Coordinator { key, node_id, host, port, error_code, error_message }|
            FoundCoordinator { key, node_id, host, port, error_code, error_message },
    ).collect();
    let (node_id, port) = (rest.node_id, rest.port);
    let error_message = rest.error_message.take();
    let host = std::mem::take(&mut rest.host);
    let m = Coordinators { error_message, node_id, host, port, coordinators, rest };
    Some((header.correlation_id(), m))
}

/// `FindCoordinatorResponse::flexible_encode`: the bytes depend on the version and the response
/// alone, and there is no response for which it fails. Decoding them behind a header gives the
/// header's correlation id and the response back, for a response that came from a frame of that
/// version and was only given other addresses; the walk through the frame then reaches its end.
#[verifier::external_body]
fn flexible_encode_find_coordinator(m: Coordinators, version: i16) -> (r: Option<Vec<u8>>)
    requires
        version >= 3,
        m@.fits(),
        exists|raw: Seq<u8>|
            (#[trigger] find_coordinator_decoded(version, raw)) is Some && m@.readdresses(
                version,
                (find_coordinator_decoded(version, raw)->0).1,
            ),
    ensures
        r is Some,
        r->0@ == find_coordinator_flexible_bytes(version, m@),
        forall|cid: i32|
            find_coordinator_decoded(
                version,
                #[trigger] response_header(cid, true) + r->0@,
            ) == Some((cid, m@)),
        forall|cid: i32|
            layout::find_coordinator_frame(
                #[trigger] response_header(cid, true) + r->0@,
                version as int,
            ) is At,
{
    let mut resp = m.rest;
    (resp.error_message, resp.node_id) = (m.error_message, m.node_id);
    (resp.host, resp.port) = (m.host, m.port);
    resp.coordinators = m.coordinators.into_iter().map(
        |FoundCoordinator { key, node_id, host, port, error_code, error_message }|
            Coordinator { key, node_id, host, port, error_code, error_message },
    ).collect();
    let mut buf = BytesMut::new();
    resp.flexible_encode(&mut buf, version).ok()?;
    Some(buf.to_vec())
}

/// `FindCoordinatorResponse::encode`: the bytes depend on the version and the response alone, and
/// there is no response for which it fails. Decoding them behind a header gives the header's
/// correlation id and the response back, for a response that came from a frame of that version and
/// was only given other addresses, if its texts are there and short; the walk through the frame then
/// reaches its end. Of other responses nothing is said.
#[verifier::external_body]
fn encode_find_coordinator(m: Coordinators, version: i16) -> (r: Option<Vec<u8>>)
    requires
        version < 3,
        m@.fits(),
        exists|raw: Seq<u8>|
            (#[trigger] find_coordinator_decoded(version, raw)) is Some && m@.readdresses(
                version,
                (find_coordinator_decoded(version, raw)->0).1,
            ),
    ensures
        r is Some,
        r->0@ == find_coordinator_plain_bytes(version, m@),
        forall|cid: i32|
            m@.reads_back(version) ==> find_coordinator_decoded(
                version,
                #[trigger] response_header(cid, false) + r->0@,
            ) == Some((cid, m@)),
        forall|cid: i32|
            m@.reads_back(version) ==> layout::find_coordinator_frame(
                #[trigger] response_header(cid, false) + r->0@,
                version as int,
            ) is At,
{
    let mut resp = m.rest;
    (resp.error_message, resp.node_id) = (m.error_message, m.node_id);
    (resp.host, resp.port) = (m.host, m.port);
    resp.coordinators = m.coordinators.into_iter().map(
        |FoundCoordinator { key, node_id, host, port, error_code, error_message }|
            Coordinator { key, node_id, host, port, error_code, error_message },
    ).collect();
    let mut buf = BytesMut::new();
    resp.encode(&mut buf, version).ok()?;
    Some(buf.to_vec())
}

/// Puts the address of every coordinator that the proxy serves into the response, and tells
/// whether there was one.
pub fn serve_coordinators(m: &mut Coordinators, version: i16, map: &RewriteMap) -> (r: bool)
    ensures
        final(m)@ == old(m)@.served(version, map@),
        r == old(m)@.concerns(version, map@),
{
    if version <= 3 {
        return match map.address_of(m.node_id) {
            Some((host, port)) => {
                m.host = host;
                m.port = port as i32;
                true
            },
            None => false,
        };
    }
    let mut changed = false;
    let mut i: usize = 0;
    let ghost before = m.coordinators@;
    while i < m.coordinators.len()
        invariant
            i <= m.coordinators@.len(),
            before == old(m).coordinators@,
            *m == (Coordinators { coordinators: m.coordinators, ..*old(m) }),
            m.coordinators@.len() == before.len(),
            forall|k: int|
                0 <= k < i ==> (#[trigger] m.coordinators@[k])@ == before[k]@.served(map@),
            forall|k: int| i <= k < before.len() ==> #[trigger] m.coordinators@[k] == before[k],
            changed == exists|k: int|
                0 <= k < i && map@.contains_key((#[trigger] before[k]).node_id),
        decreases m.coordinators@.len() - i,
    {
        let node = m.coordinators[i].node_id;
        if let Some((host, port)) = map.address_of(node) {
            m.coordinators[i].host = host;
            m.coordinators[i].port = port as i32;
            changed = true;
        }
        i = i + 1;
    }
    assert(m@ == old(m)@.served(version, map@));
    proof {
        let view = old(m)@.coordinators;
        assert(forall|k: int| 0 <= k < before.len() ==> (#[trigger] before[k])@ == view[k]);
        assert(forall|k: int| 0 <= k < before.len() ==> #[trigger] view[k] == before[k]@);
    }
    changed
}

fn coordinators_fit(m: &Coordinators) -> (r: bool)
    ensures
        r == m@.fits(),
{
    if m.coordinators.len() >= u32::MAX as usize {
        return false;
    }
    let mut i: usize = 0;
    while i < m.coordinators.len()
        invariant
            i <= m.coordinators@.len(),
            forall|k: int|
                0 <= k < i ==> text_fits((#[trigger] m@.coordinators[k]).key) && text_fits(
                    m@.coordinators[k].host,
                ) && option_fits(m@.coordinators[k].error_message),
        decreases m.coordinators@.len() - i,
    {
        assert(m@.coordinators[i as int] == m.coordinators@[i as int]@);
        let c = &m.coordinators[i];
        if !fits(c.key.as_str()) || !fits(c.host.as_str()) || !fits_if_present(&c.error_message) {
            return false;
        }
        i = i + 1;
    }
    fits_if_present(&m.error_message) && fits(m.host.as_str())
}

/// Whatever correlation id the frame is given, it decodes to the response `m`, if that is one that
/// reads back as it was written.
pub open spec fn find_coordinator_shows(
    version: i16,
    frame: Seq<u8>,
    m: CoordinatorsView,
) -> bool {
    m.reads_back(version) ==> forall|c: i32|
        find_coordinator_decoded(version, #[trigger] under_cid(frame, c)) == Some((c, m))
            && layout::find_coordinator_frame(under_cid(frame, c), version as int) is At
}

/// The frame that replaces a coordinator response, where one does.
pub open spec fn rewritten_find_coordinator(
    version: i16,
    raw: Seq<u8>,
    addresses: Addresses,
) -> Option<Seq<u8>> {
    if layout::find_coordinator_frame(raw, version as int) is At {
        match find_coordinator_decoded(version, raw) {
            Some((cid, m)) => if m.concerns(version, addresses) && m.served(version, addresses).fits() {
                Some(
                    response_header(cid, version >= 3) + find_coordinator_encoded(
                        version,
                        m.served(version, addresses),
                    ),
                )
            } else {
                None
            },
            None => None,
        }
    } else {
        None
    }
}

/// Puts the proxy's addresses into a coordinator response frame. There is no new frame where the
/// frame cannot be decoded, names no node that the proxy serves, or cannot be encoded again.
pub fn rewrite_find_coordinator_response(version: i16, raw: &[u8], map: &RewriteMap) -> (r: Option<
    Vec<u8>,
>)
    ensures
        match r {
            Some(frame) => rewritten_find_coordinator(version, raw@, map@) == Some(frame@),
            None => rewritten_find_coordinator(version, raw@, map@) is None,
        },
        !(layout::find_coordinator_frame(raw@, version as int) is Overrun) ==> (layout::find_coordinator_frame(
            raw@,
            version as int,
        ) is At <==> find_coordinator_decoded(version, raw@) is Some),
        match (r, find_coordinator_decoded(version, raw@)) {
            (Some(frame), Some((cid, m))) => {
                &&& raw@.len() >= 4
                &&& cid == wire::i32_at(raw@, 0)
                &&& frame@.len() >= 4
                &&& wire::i32_at(frame@, 0) == cid
                &&& frame@ == under_cid(frame@, cid)
                &&& find_coordinator_shows(version, frame@, m.served(version, map@))
                &&& frame@ == wire::i32_bytes(cid as int) + (if version >= 3 {
                    seq![0u8]
                } else {
                    Seq::empty()
                }) + (if version >= 3 {
                        find_coordinator_flexible_bytes(version, m.served(version, map@))
                    } else {
                        find_coordinator_plain_bytes(version, m.served(version, map@))
                    })
            },
            _ => r is None,
        },
        r is Some <==> layout::find_coordinator_frame(raw@, version as int) is At && (find_coordinator_decoded(
            version,
            raw@,
        ) matches Some((_, m)) && (if version <= 3 {
                    map@.contains_key(m.node_id)
                } else {
                    exists|i: int|
                        0 <= i < m.coordinators.len() && map@.contains_key(
                            (#[trigger] m.coordinators[i]).node_id,
                        )
                }) && m.served(version, map@).fits()),
{
    if frame_overruns(API_KEY_FIND_COORDINATOR, version, raw) {
        return None;
    }
    match decode_find_coordinator(raw, version) {
        None => None,
        Some((cid, decoded)) => {
            let mut m = decoded;
            let changed = serve_coordinators(&mut m, version, map);
            if !changed || !coordinators_fit(&m) {
                return None;
            }
            let flexible = find_coordinator_is_flexible(version);
            assert(m@.readdresses(version, (find_coordinator_decoded(version, raw@)->0).1));
            let encoded = if flexible {
                flexible_encode_find_coordinator(m, version)
            } else {
                encode_find_coordinator(m, version)
            };
            match encoded {
                Some(body) => {
                    proof {
                        lemma_response_header(cid, flexible, body@);
                    }
                    Some(frame_of(cid, flexible, body.as_slice()))
                },
                None => None,
            }
        },
    }
}

/// The responses that carry broker addresses.
pub open spec fn carries_addresses(api_key: i16) -> bool {
    api_key == API_KEY_METADATA || api_key == API_KEY_DESCRIBE_CLUSTER || api_key
        == API_KEY_FIND_COORDINATOR
}

/// Whether the response to a request with this api key may have to be rewritten.
pub fn needs_rewrite(api_key: i16) -> (r: bool)
    ensures
        r == carries_addresses(api_key),
{
    api_key == API_KEY_METADATA || api_key == API_KEY_DESCRIBE_CLUSTER || api_key
        == API_KEY_FIND_COORDINATOR
}

/// The frame ends inside a field, so that its decoder would read over its end.
pub open spec fn overruns(api_key: i16, version: i16, raw: Seq<u8>) -> bool {
    if api_key == API_KEY_METADATA {
        layout::metadata_frame(raw, version as int) is Overrun
    } else if api_key == API_KEY_DESCRIBE_CLUSTER {
        layout::describe_cluster_frame(raw, version as int) is Overrun
    } else if api_key == API_KEY_FIND_COORDINATOR {
        layout::find_coordinator_frame(raw, version as int) is Overrun
    } else {
        false
    }
}

/// The frame is a response of this kind and version, complete up to the end of its last field.
pub open spec fn decodes(api_key: i16, version: i16, raw: Seq<u8>) -> bool {
    if api_key == API_KEY_METADATA {
        layout::metadata_frame(raw, version as int) is At
    } else if api_key == API_KEY_DESCRIBE_CLUSTER {
        layout::describe_cluster_frame(raw, version as int) is At
    } else if api_key == API_KEY_FIND_COORDINATOR {
        layout::find_coordinator_frame(raw, version as int) is At
    } else {
        false
    }
}

/// Whether the decoder of a response frame would read over its end.
pub fn frame_overruns(api_key: i16, version: i16, raw: &[u8]) -> (r: bool)
    ensures
        r == overruns(api_key, version, raw@),
{
    let reached = if api_key == API_KEY_METADATA {
        reach_in_metadata(raw, version)
    } else if api_key == API_KEY_DESCRIBE_CLUSTER {
        reach_in_describe_cluster(raw, version)
    } else if api_key == API_KEY_FIND_COORDINATOR {
        reach_in_find_coordinator(raw, version)
    } else {
        Cursor::Refused
    };
    match reached {
        Cursor::Overrun => true,
        _ => false,
    }
}

/// The frame that replaces a response frame, where one does.
pub open spec fn rewritten(
    api_key: i16,
    version: i16,
    raw: Seq<u8>,
    addresses: Addresses,
) -> Option<Seq<u8>> {
    if api_key == API_KEY_METADATA {
        rewritten_metadata(version, raw, addresses)
    } else if api_key == API_KEY_DESCRIBE_CLUSTER {
        rewritten_describe_cluster(version, raw, addresses)
    } else if api_key == API_KEY_FIND_COORDINATOR {
        rewritten_find_coordinator(version, raw, addresses)
    } else {
        None
    }
}

/// Whatever correlation id the frame is given, it decodes to what `raw` decodes to, with each node
/// that the proxy serves at the proxy's address.
pub open spec fn points_at_the_proxy(
    api_key: i16,
    version: i16,
    raw: Seq<u8>,
    addresses: Addresses,
    frame: Seq<u8>,
) -> bool {
    if api_key == API_KEY_METADATA {
        metadata_decoded(version, raw) matches Some((_, m)) && metadata_shows(
            version,
            frame,
            m.served(addresses),
        )
    } else if api_key == API_KEY_DESCRIBE_CLUSTER {
        describe_cluster_decoded(version, raw) matches Some((_, m)) && describe_cluster_shows(
            version,
            frame,
            m.served(addresses),
        )
    } else {
        find_coordinator_decoded(version, raw) matches Some((_, m)) && find_coordinator_shows(
            version,
            frame,
            m.served(version, addresses),
        )
    }
}

/// The response that a frame is rewritten to reads back as it was written.
pub open spec fn rewritten_reads_back(
    api_key: i16,
    version: i16,
    raw: Seq<u8>,
    addresses: Addresses,
) -> bool {
    if api_key == API_KEY_METADATA {
        metadata_decoded(version, raw) matches Some((_, m)) && m.served(addresses).reads_back(
            version,
        )
    } else if api_key == API_KEY_DESCRIBE_CLUSTER {
        version >= 0
    } else {
        find_coordinator_decoded(version, raw) matches Some((_, m)) && m.served(
            version,
            addresses,
        ).reads_back(version)
    }
}

/// Rewrites a response frame, which starts with the correlation id and has no length before it.
/// `api_key` and `version` are those of the request that it answers. There is no new frame where the
/// frame needs none or cannot be decoded; the old one is then to be passed on as it is.
pub fn rewrite_response(api_key: i16, version: i16, raw: &[u8], map: &RewriteMap) -> (r: Option<
    Vec<u8>,
>)
    ensures
        !decodes(api_key, version, raw@) ==> r is None,
        overruns(api_key, version, raw@) ==> r is None,
        match r {
            Some(frame) => {
                &&& rewritten(api_key, version, raw@, map@) == Some(frame@)
                &&& carries_addresses(api_key)
                &&& raw@.len() >= 4
                &&& frame@.len() >= 4
                &&& wire::i32_at(frame@, 0) == wire::i32_at(raw@, 0)
                &&& frame@ == under_cid(frame@, wire::i32_at(raw@, 0) as i32)
                &&& points_at_the_proxy(api_key, version, raw@, map@, frame@)
                &&& rewritten_reads_back(api_key, version, raw@, map@) ==> {
                    &&& decodes(api_key, version, frame@)
                    &&& rewritten(api_key, version, frame@, map@) == Some(frame@)
                }
            },
            None => rewritten(api_key, version, raw@, map@) is None,
        },
{
    let r = if api_key == API_KEY_METADATA {
        rewrite_metadata_response(version, raw, map)
    } else if api_key == API_KEY_DESCRIBE_CLUSTER {
        rewrite_describe_cluster_response(version, raw, map)
    } else if api_key == API_KEY_FIND_COORDINATOR {
        rewrite_find_coordinator_response(version, raw, map)
    } else {
        None
    };
    proof {
        if r is Some && rewritten_reads_back(api_key, version, raw@, map@) {
            rewriting_settles(api_key, version, raw@, map@, r->0@);
        }
    }
    r
}

/// The api key, the version and the correlation id at the start of a request frame.
pub open spec fn request_header(raw: Seq<u8>) -> Option<(int, int, int)> {
    if raw.len() < 8 {
        None
    } else {
        Some((wire::i16_at(raw, 0), wire::i16_at(raw, 2), wire::i32_at(raw, 4)))
    }
}

/// Reads the api key, the version and the correlation id of a request frame, which has no length
/// before it.
pub fn parse_request_header(raw: &[u8]) -> (r: Option<(i16, i16, i32)>)
    ensures
        match r {
            Some((api_key, version, cid)) => request_header(raw@) == Some(
                (api_key as int, version as int, cid as int),
            ),
            None => request_header(raw@) is None,
        },
{
    if raw.len() < 8 {
        return None;
    }
    Some((read_i16(raw, 0), read_i16(raw, 2), read_i32(raw, 4)))
}

/// The correlation id at the start of a response frame.
pub open spec fn response_cid(raw: Seq<u8>) -> Option<int> {
    if raw.len() < 4 {
        None
    } else {
        Some(wire::i32_at(raw, 0))
    }
}

/// Reads the correlation id of a response frame, which has no length before it.
pub fn parse_response_cid(raw: &[u8]) -> (r: Option<i32>)
    ensures
        match r {
            Some(cid) => response_cid(raw@) == Some(cid as int),
            None => response_cid(raw@) is None,
        },
{
    if raw.len() < 4 {
        return None;
    }
    Some(read_i32(raw, 0))
}

/// A metadata response of any version is replaced exactly where it can be decoded, names a node that the
/// proxy serves, and is not too long to be written again. The new frame has the same correlation
/// id, and its body is the response with the proxy's addresses, in the form of the version.
pub proof fn metadata_is_rewritten(version: i16, raw: Seq<u8>, addresses: Addresses)
    ensures
        rewritten_metadata(version, raw, addresses) is Some <==> layout::metadata_frame(raw, version as int) is At && (
        metadata_decoded(version, raw) matches Some((_, m)) && (exists|i: int|
                    0 <= i < m.brokers.len() && addresses.contains_key(
                        (#[trigger] m.brokers[i]).node_id,
                    )) && m.served(addresses).fits()),
        match (rewritten_metadata(version, raw, addresses), metadata_decoded(version, raw)) {
            (Some(frame), Some((cid, m))) => frame == wire::i32_bytes(cid as int) + (if version >= 9 {
                seq![0u8]
            } else {
                Seq::empty()
            }) + (if version >= 9 {
                        metadata_flexible_bytes(version, m.served(addresses))
                    } else {
                        metadata_plain_bytes(version, m.served(addresses))
                    }),
            (Some(_), None) => false,
            (None, _) => true,
        },
{
    if let Some((cid, m)) = metadata_decoded(version, raw) {
        lemma_response_header(cid, version >= 9, metadata_encoded(version, m.served(addresses)));
    }
}

/// A cluster description response of any version is replaced exactly where it can be decoded, names a node that the
/// proxy serves, and is not too long to be written again. The new frame has the same correlation
/// id, and its body is the response with the proxy's addresses, in the form of the version.
pub proof fn description_is_rewritten(version: i16, raw: Seq<u8>, addresses: Addresses)
    ensures
        rewritten_describe_cluster(version, raw, addresses) is Some <==> layout::describe_cluster_frame(raw, version as int) is At && (
        describe_cluster_decoded(version, raw) matches Some((_, m)) && (exists|i: int|
                    0 <= i < m.brokers.len() && addresses.contains_key(
                        (#[trigger] m.brokers[i]).broker_id,
                    )) && m.served(addresses).fits()),
        match (rewritten_describe_cluster(version, raw, addresses), describe_cluster_decoded(version, raw)) {
            (Some(frame), Some((cid, m))) => frame == wire::i32_bytes(cid as int) + (if version >= 0 {
                seq![0u8]
            } else {
                Seq::empty()
            }) + (if version >= 0 {
                        describe_cluster_flexible_bytes(version, m.served(addresses))
                    } else {
                        describe_cluster_plain_bytes(version, m.served(addresses))
                    }),
            (Some(_), None) => false,
            (None, _) => true,
        },
{
    if let Some((cid, m)) = describe_cluster_decoded(version, raw) {
        lemma_response_header(cid, version >= 0, describe_cluster_encoded(version, m.served(addresses)));
    }
}

/// A coordinator response of any version is replaced exactly where it can be decoded, names a node that the
/// proxy serves, and is not too long to be written again. The new frame has the same correlation
/// id, and its body is the response with the proxy's addresses, in the form of the version.
pub proof fn coordinators_are_rewritten(version: i16, raw: Seq<u8>, addresses: Addresses)
    ensures
        rewritten_find_coordinator(version, raw, addresses) is Some <==> layout::find_coordinator_frame(raw, version as int) is At && (
        find_coordinator_decoded(version, raw) matches Some((_, m)) && (if version <= 3 {
                    addresses.contains_key(m.node_id)
                } else {
                    exists|i: int|
                        0 <= i < m.coordinators.len() && addresses.contains_key(
                            (#[trigger] m.coordinators[i]).node_id,
                        )
                }) && m.served(version, addresses).fits()),
        match (rewritten_find_coordinator(version, raw, addresses), find_coordinator_decoded(version, raw)) {
            (Some(frame), Some((cid, m))) => frame == wire::i32_bytes(cid as int) + (if version >= 3 {
                seq![0u8]
            } else {
                Seq::empty()
            }) + (if version >= 3 {
                        find_coordinator_flexible_bytes(version, m.served(version, addresses))
                    } else {
                        find_coordinator_plain_bytes(version, m.served(version, addresses))
                    }),
            (Some(_), None) => false,
            (None, _) => true,
        },
{
    if let Some((cid, m)) = find_coordinator_decoded(version, raw) {
        lemma_response_header(cid, version >= 3, find_coordinator_encoded(version, m.served(version, addresses)));
    }
}

/// A response frame starts with four bytes of correlation id, and in the compact form with a zero
/// byte behind them.
proof fn lemma_response_header(cid: i32, flexible: bool, body: Seq<u8>)
    ensures
        response_header(cid, flexible) + body == wire::i32_bytes(cid as int) + (if flexible {
            seq![0u8]
        } else {
            Seq::empty()
        }) + body,
{
    assert(wire::varint(0) =~= seq![0u8]);
    assert(wire::i32_bytes(cid as int) + Seq::<u8>::empty() =~= wire::i32_bytes(cid as int));
}

/// Of any version, a metadata response with a broker that the proxy serves is replaced.
pub proof fn served_broker_has_metadata_rewritten(
    version: i16,
    raw: Seq<u8>,
    addresses: Addresses,
    i: int,
)
    requires
        layout::metadata_frame(raw, version as int) is At,
        metadata_decoded(version, raw) is Some,
        0 <= i < (metadata_decoded(version, raw)->0).1.brokers.len(),
        addresses.contains_key((metadata_decoded(version, raw)->0).1.brokers[i].node_id),
        (metadata_decoded(version, raw)->0).1.served(addresses).fits(),
    ensures
        rewritten_metadata(version, raw, addresses) is Some,
        rewritten(3, version, raw, addresses) is Some,
{
}

/// Of any version, a cluster description with a broker that the proxy serves is replaced.
pub proof fn served_broker_has_description_rewritten(
    version: i16,
    raw: Seq<u8>,
    addresses: Addresses,
    i: int,
)
    requires
        layout::describe_cluster_frame(raw, version as int) is At,
        describe_cluster_decoded(version, raw) is Some,
        0 <= i < (describe_cluster_decoded(version, raw)->0).1.brokers.len(),
        addresses.contains_key((describe_cluster_decoded(version, raw)->0).1.brokers[i].broker_id),
        (describe_cluster_decoded(version, raw)->0).1.served(addresses).fits(),
    ensures
        rewritten_describe_cluster(version, raw, addresses) is Some,
        rewritten(60, version, raw, addresses) is Some,
{
}

/// Of any version, a coordinator response with a coordinator that the proxy serves is replaced: the
/// one coordinator up to version 3, and any of the list from version 4 on.
pub proof fn served_coordinator_has_response_rewritten(
    version: i16,
    raw: Seq<u8>,
    addresses: Addresses,
    i: int,
)
    requires
        layout::find_coordinator_frame(raw, version as int) is At,
        find_coordinator_decoded(version, raw) is Some,
        ({
            let c = (find_coordinator_decoded(version, raw)->0).1;
            &&& version <= 3 ==> addresses.contains_key(c.node_id)
            &&& version >= 4 ==> 0 <= i < c.coordinators.len() && addresses.contains_key(
                c.coordinators[i].node_id,
            )
            &&& c.served(version, addresses).fits()
        }),
    ensures
        rewritten_find_coordinator(version, raw, addresses) is Some,
        rewritten(10, version, raw, addresses) is Some,
{
}

/// A metadata response whose lists and texts are shorter than four thousand million is not too long
/// to be written.
pub proof fn metadata_is_seldom_too_long(m: MetadataView)
    requires
        m.brokers.len() < u32::MAX,
        m.topics.len() < u32::MAX,
        m.cluster_id matches Some(t) ==> vstd::utf8::encode_utf8(t).len() < u32::MAX,
        forall|i: int|
            0 <= i < m.brokers.len() ==> vstd::utf8::encode_utf8((#[trigger] m.brokers[i]).host).len()
                < u32::MAX && (m.brokers[i].rack matches Some(t) ==> vstd::utf8::encode_utf8(t).len()
                < u32::MAX),
        forall|i: int|
            0 <= i < m.topics.len() ==> ((#[trigger] m.topics[i]).name matches Some(t)
                ==> vstd::utf8::encode_utf8(t).len() < u32::MAX),
    ensures
        m.fits(),
{
}

/// A cluster description whose list and texts are shorter than four thousand million is not too
/// long to be written.
pub proof fn description_is_seldom_too_long(d: ClusterDescriptionView)
    requires
        d.brokers.len() < u32::MAX,
        d.error_message matches Some(t) ==> vstd::utf8::encode_utf8(t).len() < u32::MAX,
        vstd::utf8::encode_utf8(d.cluster_id).len() < u32::MAX,
        forall|i: int|
            0 <= i < d.brokers.len() ==> vstd::utf8::encode_utf8((#[trigger] d.brokers[i]).host).len()
                < u32::MAX && (d.brokers[i].rack matches Some(t) ==> vstd::utf8::encode_utf8(t).len()
                < u32::MAX),
    ensures
        d.fits(),
{
}

/// A coordinator response whose list and texts are shorter than four thousand million is not too
/// long to be written.
pub proof fn coordinators_are_seldom_too_long(c: CoordinatorsView)
    requires
        c.coordinators.len() < u32::MAX,
        c.error_message matches Some(t) ==> vstd::utf8::encode_utf8(t).len() < u32::MAX,
        vstd::utf8::encode_utf8(c.host).len() < u32::MAX,
        forall|i: int|
            0 <= i < c.coordinators.len() ==> vstd::utf8::encode_utf8(
                (#[trigger] c.coordinators[i]).key,
            ).len() < u32::MAX && vstd::utf8::encode_utf8(c.coordinators[i].host).len() < u32::MAX
                && (c.coordinators[i].error_message matches Some(t) ==> vstd::utf8::encode_utf8(
                t,
            ).len() < u32::MAX),
    ensures
        c.fits(),
{
}

/// The responses that carry addresses are those to metadata (3), coordinator (10) and cluster
/// description (60) requests, and each is rewritten as its kind is.
pub proof fn each_kind_is_rewritten(api_key: i16, version: i16, raw: Seq<u8>, addresses: Addresses)
    ensures
        carries_addresses(api_key) <==> api_key == 3 || api_key == 10 || api_key == 60,
        rewritten(3, version, raw, addresses) == rewritten_metadata(version, raw, addresses),
        rewritten(10, version, raw, addresses) == rewritten_find_coordinator(
            version,
            raw,
            addresses,
        ),
        rewritten(60, version, raw, addresses) == rewritten_describe_cluster(
            version,
            raw,
            addresses,
        ),
        decodes(3, version, raw) == (layout::metadata_frame(raw, version as int) is At),
        decodes(10, version, raw) == (layout::find_coordinator_frame(raw, version as int) is At),
        decodes(60, version, raw) == (layout::describe_cluster_frame(raw, version as int) is At),
        rewritten(api_key, version, raw, addresses) is Some ==> carries_addresses(api_key)
            && decodes(api_key, version, raw),
{
}

/// What a frame shows does not depend on its correlation id.
pub proof fn shown_under_any_cid(
    api_key: i16,
    version: i16,
    raw: Seq<u8>,
    addresses: Addresses,
    frame: Seq<u8>,
    other: Seq<u8>,
)
    requires
        points_at_the_proxy(api_key, version, raw, addresses, frame),
        other.skip(4) == frame.skip(4),
    ensures
        points_at_the_proxy(api_key, version, raw, addresses, other),
{
    assert forall|c: i32| #[trigger] under_cid(other, c) == under_cid(frame, c) by {}
}

/// A response that carries no addresses is never replaced, nor is one that cannot be decoded, be it
/// because it ends inside a field, nor is any response while the proxy serves no node.
pub proof fn passes_unchanged(api_key: i16, version: i16, raw: Seq<u8>, addresses: Addresses)
    requires
        !carries_addresses(api_key) || !decodes(api_key, version, raw) || overruns(
            api_key,
            version,
            raw,
        ) || addresses.dom().is_empty(),
    ensures
        rewritten(api_key, version, raw, addresses) is None,
{
}

/// Once rewritten, every broker of a metadata response that the proxy serves is at the proxy's
/// address; the order of the brokers, their ids and racks, and every other broker are as before.
pub proof fn metadata_points_at_the_proxy(m: MetadataView, addresses: Addresses, i: int)
    requires
        0 <= i < m.brokers.len(),
    ensures
        m.served(addresses).brokers.len() == m.brokers.len(),
        m.served(addresses).brokers[i].node_id == m.brokers[i].node_id,
        m.served(addresses).brokers[i].rack == m.brokers[i].rack,
        addresses.contains_key(m.brokers[i].node_id) ==> {
            &&& m.served(addresses).brokers[i].host == addresses[m.brokers[i].node_id].0
            &&& m.served(addresses).brokers[i].port == addresses[m.brokers[i].node_id].1
        },
        !addresses.contains_key(m.brokers[i].node_id) ==> m.served(addresses).brokers[i]
            == m.brokers[i],
        m.served(addresses).topics == m.topics,
        m.served(addresses).cluster_id == m.cluster_id,
        m.served(addresses).rest == m.rest,
{
}

/// Once rewritten, every broker of a cluster description that the proxy serves is at the proxy's
/// address; the order of the brokers, their ids and racks, and every other broker are as before.
pub proof fn description_points_at_the_proxy(d: ClusterDescriptionView, addresses: Addresses, i: int)
    requires
        0 <= i < d.brokers.len(),
    ensures
        d.served(addresses).brokers.len() == d.brokers.len(),
        d.served(addresses).brokers[i].broker_id == d.brokers[i].broker_id,
        d.served(addresses).brokers[i].rack == d.brokers[i].rack,
        d.served(addresses).brokers[i].is_fenced == d.brokers[i].is_fenced,
        addresses.contains_key(d.brokers[i].broker_id) ==> {
            &&& d.served(addresses).brokers[i].host == addresses[d.brokers[i].broker_id].0
            &&& d.served(addresses).brokers[i].port == addresses[d.brokers[i].broker_id].1
        },
        !addresses.contains_key(d.brokers[i].broker_id) ==> d.served(addresses).brokers[i]
            == d.brokers[i],
        d.served(addresses).error_message == d.error_message,
        d.served(addresses).cluster_id == d.cluster_id,
        d.served(addresses).rest == d.rest,
{
}

/// Once rewritten, the coordinator of a response up to version 3 is at the proxy's address, if the
/// proxy serves it, and so is every coordinator of a later response; nothing else changes.
pub proof fn coordinators_point_at_the_proxy(
    c: CoordinatorsView,
    version: i16,
    addresses: Addresses,
    i: int,
)
    requires
        version > 3 ==> 0 <= i < c.coordinators.len(),
    ensures
        c.served(version, addresses).node_id == c.node_id,
        c.served(version, addresses).error_message == c.error_message,
        c.served(version, addresses).rest == c.rest,
        version <= 3 && addresses.contains_key(c.node_id) ==> {
            &&& c.served(version, addresses).host == addresses[c.node_id].0
            &&& c.served(version, addresses).port == addresses[c.node_id].1
            &&& c.served(version, addresses).coordinators == c.coordinators
        },
        version > 3 ==> {
            let after = c.served(version, addresses).coordinators[i];
            &&& c.served(version, addresses).coordinators.len() == c.coordinators.len()
            &&& after == (FoundCoordinatorView {
                host: after.host,
                port: after.port,
                ..c.coordinators[i]
            })
            &&& addresses.contains_key(c.coordinators[i].node_id) ==> after.host
                == addresses[c.coordinators[i].node_id].0 && after.port
                == addresses[c.coordinators[i].node_id].1
            &&& !addresses.contains_key(c.coordinators[i].node_id) ==> after == c.coordinators[i]
        },
{
}

/// Rewriting a rewritten frame with the same addresses gives the same frame, for a response that
/// reads back as it was written.
pub proof fn rewriting_settles(
    api_key: i16,
    version: i16,
    raw: Seq<u8>,
    addresses: Addresses,
    frame: Seq<u8>,
)
    requires
        rewritten(api_key, version, raw, addresses) == Some(frame),
        points_at_the_proxy(api_key, version, raw, addresses, frame),
        rewritten_reads_back(api_key, version, raw, addresses),
    ensures
        decodes(api_key, version, frame),
        rewritten(api_key, version, frame, addresses) == Some(frame),
{
    if api_key == API_KEY_METADATA {
        let (cid, m) = metadata_decoded(version, raw)->0;
        let after = m.served(addresses);
        lemma_header(cid, version >= 9, metadata_encoded(version, after));
        assert(frame == under_cid(frame, cid));
        assert(after.served(addresses) =~= after);
        let i = choose|i: int|
            0 <= i < m.brokers.len() && addresses.contains_key((#[trigger] m.brokers[i]).node_id);
        assert(addresses.contains_key(after.brokers[i].node_id));
    } else if api_key == API_KEY_DESCRIBE_CLUSTER {
        let (cid, m) = describe_cluster_decoded(version, raw)->0;
        let after = m.served(addresses);
        lemma_header(cid, version >= 0, describe_cluster_encoded(version, after));
        assert(frame == under_cid(frame, cid));
        assert(after.served(addresses) =~= after);
        let i = choose|i: int|
            0 <= i < m.brokers.len() && addresses.contains_key((#[trigger] m.brokers[i]).broker_id);
        assert(addresses.contains_key(after.brokers[i].broker_id));
    } else {
        let (cid, m) = find_coordinator_decoded(version, raw)->0;
        let after = m.served(version, addresses);
        lemma_header(cid, version >= 3, find_coordinator_encoded(version, after));
        assert(frame == under_cid(frame, cid));
        assert(after.served(version, addresses) =~= after);
        if version > 3 {
            let i = choose|i: int|
                0 <= i < m.coordinators.len() && addresses.contains_key(
                    (#[trigger] m.coordinators[i]).node_id,
                );
            assert(addresses.contains_key(after.coordinators[i].node_id));
        }
    }
}

proof fn lemma_header(cid: i32, flexible: bool, body: Seq<u8>)
    ensures
        under_cid(response_header(cid, flexible) + body, cid) == response_header(cid, flexible)
            + body,
{
    wire::i32_reads_back(Seq::<u8>::empty(), cid, Seq::<u8>::empty());
    let frame = response_header(cid, flexible) + body;
    assert(frame.take(4) =~= wire::i32_bytes(cid as int));
    assert(under_cid(frame, cid) =~= frame);
}

/// Putting the proxy's addresses in a second time changes nothing more.
pub proof fn serving_is_idempotent(
    m: MetadataView,
    d: ClusterDescriptionView,
    c: CoordinatorsView,
    version: i16,
    addresses: Addresses,
)
    ensures
        m.served(addresses).served(addresses) == m.served(addresses),
        d.served(addresses).served(addresses) == d.served(addresses),
        c.served(version, addresses).served(version, addresses) == c.served(version, addresses),
{
    assert(m.served(addresses).served(addresses) =~= m.served(addresses));
    assert(d.served(addresses).served(addresses) =~= d.served(addresses));
    assert(c.served(version, addresses).served(version, addresses) =~= c.served(
        version,
        addresses,
    ));
}

} // verus!
