//! Forwarding of frames between a client and a broker.
//!
//! In the one-to-one mode a client has an upstream connection of its own. Frames pass unchanged in
//! both directions, except for the responses that carry addresses: for each request whose response
//! may, the api key and the version are remembered under the correlation id.
//!
//! In the pooled mode a client borrows an upstream connection for a short while. Each request goes
//! out under a correlation id of its own, and the responses come back by way of the pool.
use dashmap::DashMap;
use vstd::prelude::*;

use crate::metrics;
use crate::metrics::Metrics;
use crate::pool;
use crate::pool::{with_cid, BrokerPool, CidRemap, ConnId, Link, LinkAction, RouteEntry};
use crate::rewrite;
use crate::rewrite::{
    needs_rewrite, parse_request_header, parse_response_cid, rewrite_response,
    RewriteMap,
};
use crate::wire;

verus! {

/// The most requests that are remembered for one client.
pub const MAX_PENDING: usize = 1024;

/// How often frames are flushed, in milliseconds.
pub const FLUSH_INTERVAL_MS: u64 = 5;

/// How long a borrowed connection is kept, in nanoseconds.
pub const LEASE_NANOS: u64 = 200_000_000;

/// What a table of remembered requests holds: api key and version.
pub uninterp spec fn pending_of(table: DashMap<i32, (i16, i16)>) -> Map<i32, (i16, i16)>;

/// `DashMap::new`: an empty table.
#[verifier::external_body]
fn empty_pending() -> (r: DashMap<i32, (i16, i16)>)
    ensures
        pending_of(r) =~= Map::empty(),
{
    DashMap::new()
}

/// `DashMap::len`: the number of entries.
#[verifier::external_body]
fn count_pending(table: &DashMap<i32, (i16, i16)>) -> (r: usize)
    ensures
        r == pending_of(*table).dom().len(),
{
    table.len()
}

/// `DashMap::insert`: the entry is in the table, in the place of an earlier one under `cid`.
#[verifier::external_body]
fn put_pending(table: &mut DashMap<i32, (i16, i16)>, cid: i32, entry: (i16, i16))
    ensures
        pending_of(*final(table)) == pending_of(*old(table)).insert(cid, entry),
{
    table.insert(cid, entry);
}

/// `DashMap::remove`: the entry under `cid` leaves the table.
#[verifier::external_body]
fn take_pending(table: &mut DashMap<i32, (i16, i16)>, cid: i32) -> (r: Option<(i16, i16)>)
    ensures
        pending_of(*final(table)) == pending_of(*old(table)).remove(cid),
        match r {
            Some(entry) => pending_of(*old(table)).contains_key(cid) && pending_of(*old(table))[cid]
                == entry,
            None => !pending_of(*old(table)).contains_key(cid),
        },
{
    table.remove(&cid).map(|(_, entry)| entry)
}

/// The requests of one client whose responses may have to be rewritten, by correlation id.
pub struct PendingRequests {
    table: DashMap<i32, (i16, i16)>,
}

impl View for PendingRequests {
    type V = Map<i32, (i16, i16)>;

    closed spec fn view(&self) -> Map<i32, (i16, i16)> {
        pending_of(self.table)
    }
}

/// The figures after a frame of `len` bytes from the client.
pub open spec fn frame_from_client(m: Metrics, len: nat) -> Metrics {
    Metrics {
        frames_downstream: metrics::counted(m.enabled, m.frames_downstream, 1),
        bytes_downstream: metrics::counted(m.enabled, m.bytes_downstream, len as u64),
        ..m
    }
}

/// The figures after a frame of `len` bytes from the broker.
pub open spec fn frame_from_broker(m: Metrics, len: nat) -> Metrics {
    Metrics {
        frames_upstream: metrics::counted(m.enabled, m.frames_upstream, 1),
        bytes_upstream: metrics::counted(m.enabled, m.bytes_upstream, len as u64),
        ..m
    }
}

/// The requests that are remembered once `data` has passed.
pub open spec fn remembered(pending: Map<i32, (i16, i16)>, data: Seq<u8>) -> Map<i32, (i16, i16)> {
    match rewrite::request_header(data) {
        Some((api_key, version, cid)) => if rewrite::carries_addresses(api_key as i16)
            && pending.dom().len() < MAX_PENDING {
            pending.insert(cid as i32, (api_key as i16, version as i16))
        } else {
            pending
        },
        None => pending,
    }
}

/// The frame that the client gets for the response `data`.
pub open spec fn answered(
    pending: Map<i32, (i16, i16)>,
    data: Seq<u8>,
    addresses: rewrite::Addresses,
) -> Seq<u8> {
    match rewrite::response_cid(data) {
        Some(cid) => if pending.contains_key(cid as i32) {
            let (api_key, version) = pending[cid as i32];
            match rewrite::rewritten(api_key, version, data, addresses) {
                Some(frame) => frame,
                None => data,
            }
        } else {
            data
        },
        None => data,
    }
}

impl PendingRequests {
    /// There are finitely many requests, and no more than may be remembered.
    pub open spec fn wf(self) -> bool {
        &&& self@.dom().finite()
        &&& self@.dom().len() <= MAX_PENDING
    }

    pub fn new() -> (r: Self)
        ensures
            r.wf(),
            r@ == Map::<i32, (i16, i16)>::empty(),
    {
        PendingRequests { table: empty_pending() }
    }

    /// A frame from the client has come, and is to be sent to the broker as it is. The result tells
    /// whether it should have been remembered and could not be.
    pub fn on_request(&mut self, data: &[u8], metrics: &mut Metrics) -> (r: bool)
        requires
            old(self).wf(),
        ensures
            final(self).wf(),
            final(self)@ == remembered(old(self)@, data@),
            *final(metrics) == frame_from_client(*old(metrics), data@.len()),
            r == (rewrite::request_header(data@) matches Some((api_key, _, _))
                && rewrite::carries_addresses(api_key as i16) && old(self)@.dom().len()
                >= MAX_PENDING),
    {
        metrics.inc_frames_downstream();
        metrics.add_bytes_downstream(data.len() as u64);
        if let Some((api_key, version, cid)) = parse_request_header(data) {
            if needs_rewrite(api_key) {
                if count_pending(&self.table) >= MAX_PENDING {
                    return true;
                }
                put_pending(&mut self.table, cid, (api_key, version));
            }
        }
        false
    }

    /// A frame from the broker has come: the frame that is to be sent to the client. It is the same
    /// frame, unless the response has to be rewritten and can be decoded.
    pub fn on_response(
        &mut self,
        data: Vec<u8>,
        rewrite_map: &RewriteMap,
        metrics: &mut Metrics,
    ) -> (r: Vec<u8>)
        requires
            old(self).wf(),
        ensures
            final(self).wf(),
            final(self)@ == (match rewrite::response_cid(data@) {
                Some(cid) => old(self)@.remove(cid as i32),
                None => old(self)@,
            }),
            *final(metrics) == frame_from_broker(*old(metrics), data@.len()),
            r@ == answered(old(self)@, data@, rewrite_map@),
            rewrite::response_cid(r@) == rewrite::response_cid(data@),
    {
        metrics.inc_frames_upstream();
        metrics.add_bytes_upstream(data.len() as u64);
        let entry = match parse_response_cid(data.as_slice()) {
            Some(cid) => take_pending(&mut self.table, cid),
            None => None,
        };
        proof {
            match rewrite::response_cid(data@) {
                Some(cid) => {
                    vstd::set_lib::lemma_len_subset(self@.dom(), old(self)@.dom());
                },
                None => {},
            }
        }
        match entry {
            None => data,
            Some((api_key, version)) => match rewrite_response(
                api_key,
                version,
                data.as_slice(),
                rewrite_map,
            ) {
                Some(frame) => frame,
                None => data,
            },
        }
    }
}

/// A response whose request was not remembered passes unchanged.
pub proof fn unremembered_responses_pass(
    pending: Map<i32, (i16, i16)>,
    data: Seq<u8>,
    addresses: rewrite::Addresses,
)
    requires
        rewrite::response_cid(data) matches Some(cid) ==> !pending.contains_key(cid as i32),
    ensures
        answered(pending, data, addresses) == data,
{
}

/// A response that cannot be decoded passes unchanged, whatever was remembered, and so does one
/// that ends inside a field.
pub proof fn undecodable_responses_pass(
    pending: Map<i32, (i16, i16)>,
    data: Seq<u8>,
    addresses: rewrite::Addresses,
)
    requires
        match rewrite::response_cid(data) {
            Some(cid) => pending.contains_key(cid as i32) ==> {
                let (api_key, version) = pending[cid as i32];
                !rewrite::decodes(api_key, version, data) || rewrite::overruns(
                    api_key,
                    version,
                    data,
                )
            },
            None => true,
        },
    ensures
        answered(pending, data, addresses) == data,
{
    match rewrite::response_cid(data) {
        Some(cid) => {
            let (api_key, version) = pending[cid as i32];
            if pending.contains_key(cid as i32) {
                rewrite::passes_unchanged(api_key, version, data, addresses);
            }
        },
        None => {},
    }
}

/// What was remembered of a request is what its response is rewritten by.
pub proof fn remembered_request_decides(
    pending: Map<i32, (i16, i16)>,
    request: Seq<u8>,
    response: Seq<u8>,
    addresses: rewrite::Addresses,
)
    requires
        request.len() >= 8,
        response.len() >= 4,
        rewrite::carries_addresses(wire::i16_at(request, 0) as i16),
        pending.dom().len() < MAX_PENDING,
        wire::i32_at(response, 0) == wire::i32_at(request, 4),
    ensures
        answered(remembered(pending, request), response, addresses) == (match rewrite::rewritten(
            wire::i16_at(request, 0) as i16,
            wire::i16_at(request, 2) as i16,
            response,
            addresses,
        ) {
            Some(frame) => frame,
            None => response,
        }),
{
}

/// What happens on one direction of a connection.
#[derive(Clone, Copy, Debug, PartialEq, Eq, Structural)]
pub enum StreamEvent {
    /// A frame has come.
    Frame,
    /// It is time to flush.
    Tick,
    /// The sender closed the connection.
    Ended,
    /// The sender sent nothing for too long.
    TimedOut,
    /// Reading failed.
    Failed,
    /// There will be no more responses.
    ResponsesEnded,
    /// The proxy is shutting down, and takes no more requests.
    ShuttingDown,
}

/// What is to be done after `event` on one direction of a connection. Frames are sent without
/// flushing, and flushed at intervals; at the end the receiver is flushed and closed.
pub fn on_stream_event(link: &Link, event: StreamEvent) -> (r: LinkAction)
    ensures
        r == (match event {
            StreamEvent::Frame => LinkAction::Send,
            StreamEvent::Tick => if link.needs_flush {
                LinkAction::Flush
            } else {
                LinkAction::Nothing
            },
            StreamEvent::Ended | StreamEvent::TimedOut | StreamEvent::Failed => LinkAction::Close,
            StreamEvent::ResponsesEnded | StreamEvent::ShuttingDown => LinkAction::Finish,
        }),
{
    match event {
        StreamEvent::Frame => LinkAction::Send,
        StreamEvent::Tick => if link.needs_flush {
            LinkAction::Flush
        } else {
            LinkAction::Nothing
        },
        StreamEvent::Ended | StreamEvent::TimedOut | StreamEvent::Failed => LinkAction::Close,
        StreamEvent::ResponsesEnded | StreamEvent::ShuttingDown => LinkAction::Finish,
    }
}

/// The number of requests of a client that the broker has not answered. A request that is never
/// answered counts until the connection ends.
pub struct OpenRequests {
    pub count: u64,
}

impl OpenRequests {
    /// No request was sent yet.
    pub fn new() -> (r: Self)
        ensures
            r.count == 0,
    {
        OpenRequests { count: 0 }
    }

    /// A frame was sent to the broker.
    pub fn sent(&mut self, data: &[u8])
        ensures
            final(self).count == (if rewrite::request_header(data@) is Some && old(self).count
                < u64::MAX {
                old(self).count + 1
            } else {
                old(self).count as int
            }),
    {
        if parse_request_header(data).is_some() && self.count < u64::MAX {
            self.count = self.count + 1;
        }
    }

    /// A frame from the broker has come.
    pub fn answered(&mut self, data: &[u8])
        ensures
            final(self).count == (if rewrite::response_cid(data@) is Some && old(self).count > 0 {
                old(self).count - 1
            } else {
                old(self).count as int
            }),
    {
        if parse_response_cid(data).is_some() && self.count > 0 {
            self.count = self.count - 1;
        }
    }

    /// Whether the client can be let go: the proxy is shutting down, and no request is in flight.
    pub fn drained(&self, shutting_down: bool) -> (r: bool)
        ensures
            r == (shutting_down && self.count == 0),
    {
        shutting_down && self.count == 0
    }
}

/// How long a client has sent nothing, and how long it may. Instants and spans are nanoseconds.
pub struct IdleClock {
    pub limit: Option<u64>,
    /// When the client last sent something, or came.
    pub last: u64,
}

impl IdleClock {
    /// How long the client has sent nothing.
    pub open spec fn silence(self, now: u64) -> int {
        if now > self.last {
            now - self.last
        } else {
            0
        }
    }

    /// A client has come. Without a limit it may be silent for ever.
    pub fn new(limit: Option<u64>, now: u64) -> (r: Self)
        ensures
            r == (IdleClock { limit, last: now }),
    {
        IdleClock { limit, last: now }
    }

    /// The client has sent something. Nothing else sets the clock anew.
    pub fn on_frame(&mut self, now: u64)
        ensures
            *final(self) == (IdleClock { last: now, ..*old(self) }),
    {
        self.last = now;
    }

    /// Whether the client has been silent for too long.
    pub fn expired(&self, now: u64) -> (r: bool)
        ensures
            r == (self.limit matches Some(limit) && self.silence(now) >= limit),
    {
        match self.remaining(now) {
            Some(left) => left == 0,
            None => false,
        }
    }

    /// How much longer the client may be silent, where there is a limit.
    pub fn remaining(&self, now: u64) -> (r: Option<u64>)
        ensures
            match (r, self.limit) {
                (Some(left), Some(limit)) => left == (if self.silence(now) < limit {
                    limit - self.silence(now)
                } else {
                    0
                }),
                (None, None) => true,
                _ => false,
            },
    {
        match self.limit {
            None => None,
            Some(limit) => {
                let silence: u64 = if now > self.last {
                    now - self.last
                } else {
                    0
                };
                Some(
                    if silence < limit {
                        limit - silence
                    } else {
                        0
                    },
                )
            },
        }
    }
}

/// What is to be done with a frame from a client of the pool.
#[derive(Clone, Copy, Debug, PartialEq, Eq, Structural)]
pub enum ClientStep {
    /// Nothing: it is too short for a request.
    Ignore,
    /// Give this connection back, where there is one, and borrow another.
    Renew { release: Option<ConnId> },
    /// Send it on this connection.
    Use(ConnId),
}

/// What is to be done with a request that has a connection.
pub enum SendStep {
    /// Send the frame. The request is in the table under the upstream correlation id.
    Send { cid_u: i32, frame: Vec<u8> },
    /// Give the connection back and close the client's: there are too many requests in flight.
    Refuse { release: Option<ConnId> },
}

/// A client of the pool: the upstream connection that it has borrowed, and until when it keeps it.
/// Borrowing for a while, and not for each frame, keeps the pool out of the way.
pub struct PooledClient {
    pub lease: Option<ConnId>,
    pub deadline: u64,
}

impl PooledClient {
    /// A client that has borrowed nothing.
    pub fn new(now: u64) -> (r: Self)
        ensures
            r == (PooledClient { lease: None, deadline: now }),
    {
        PooledClient { lease: None, deadline: now }
    }

    /// A frame from the client has come. A connection that was borrowed too long ago is exchanged
    /// first.
    pub fn on_frame(&mut self, data: &[u8], now: u64, metrics: &mut Metrics) -> (r: ClientStep)
        ensures
            *final(metrics) == frame_from_client(*old(metrics), data@.len()),
            r == (match (rewrite::request_header(data@), old(self).lease) {
                (None, _) => ClientStep::Ignore,
                (Some(_), None) => ClientStep::Renew { release: None },
                (Some(_), Some(conn)) => if now >= old(self).deadline {
                    ClientStep::Renew { release: Some(conn) }
                } else {
                    ClientStep::Use(conn)
                },
            }),
            *final(self) == (PooledClient {
                lease: if r is Renew {
                    None
                } else {
                    old(self).lease
                },
                ..*old(self)
            }),
    {
        metrics.inc_frames_downstream();
        metrics.add_bytes_downstream(data.len() as u64);
        if parse_request_header(data).is_none() {
            return ClientStep::Ignore;
        }
        match self.lease {
            None => ClientStep::Renew { release: None },
            Some(conn) => {
                if now >= self.deadline {
                    self.lease = None;
                    ClientStep::Renew { release: Some(conn) }
                } else {
                    ClientStep::Use(conn)
                }
            },
        }
    }

    /// A connection was borrowed.
    pub fn leased(&mut self, conn: ConnId, now: u64)
        ensures
            final(self).lease == Some(conn),
            final(self).deadline == (if now + LEASE_NANOS <= u64::MAX {
                now + LEASE_NANOS
            } else {
                u64::MAX as int
            }),
    {
        self.lease = Some(conn);
        self.deadline = if now <= u64::MAX - LEASE_NANOS {
            now + LEASE_NANOS
        } else {
            u64::MAX
        };
    }

    /// Enters the request into the table, under an upstream correlation id that no other request
    /// has, and puts that id into the frame.
    pub fn prepare(
        &mut self,
        data: &[u8],
        conn: ConnId,
        downstream: u64,
        now: u64,
        pool: &BrokerPool,
        remap: &mut CidRemap,
        metrics: &mut Metrics,
    ) -> (r: SendStep)
        requires
            data@.len() >= 8,
            old(self).lease == Some(conn),
            old(remap).wf(),
        ensures
            final(remap).wf(),
            final(remap).upcoming_conn_id() == old(remap).upcoming_conn_id(),
            final(remap).limit() == old(remap).limit(),
            pool::gauges_follow(old(remap)@, final(remap)@, *old(metrics), *final(metrics)),
            match r {
                SendStep::Send { cid_u, frame } => {
                    &&& old(remap).has_room()
                    &&& pool::entered(
                        *old(remap),
                        *final(remap),
                        cid_u,
                        RouteEntry {
                            downstream,
                            cid_d: wire::i32_at(data@, 4) as i32,
                            api_key: wire::i16_at(data@, 0) as i16,
                            api_version: wire::i16_at(data@, 2) as i16,
                            started: now,
                            conn_id: conn,
                        },
                    )
                    &&& frame@ == pool::request_under_cid(data@, cid_u)
                    &&& *final(self) == *old(self)
                    &&& *final(metrics) == (Metrics {
                        cid_map_entries: metrics::raised(
                            old(metrics).enabled,
                            old(metrics).cid_map_entries,
                            1,
                        ),
                        requests_in_flight: metrics::raised(
                            old(metrics).enabled,
                            old(metrics).requests_in_flight,
                            1,
                        ),
                        ..*old(metrics)
                    })
                },
                SendStep::Refuse { release } => {
                    &&& !old(remap).has_room()
                    &&& release == Some(conn)
                    &&& final(self).lease is None
                    &&& final(self).deadline == old(self).deadline
                    &&& final(remap)@ == old(remap)@
                    &&& final(remap).last_cid() == old(remap).last_cid()
                    &&& *final(metrics) == *old(metrics)
                },
            },
    {
        let (api_key, api_version, cid_d) = match parse_request_header(data) {
            Some(header) => header,
            None => (0, 0, 0),
        };
        let entry = RouteEntry {
            downstream,
            cid_d,
            api_key,
            api_version,
            started: now,
            conn_id: conn,
        };
        match pool.register_request(remap, entry, metrics) {
            Some(cid_u) => {
                metrics.inc_requests_in_flight();
                SendStep::Send { cid_u, frame: with_cid(data, cid_u) }
            },
            None => SendStep::Refuse { release: self.ended() },
        }
    }

    /// The request could not be sent, because the connection is dead: the request leaves the table,
    /// and the connection is not given back.
    pub fn send_failed(
        &mut self,
        cid_u: i32,
        pool: &BrokerPool,
        remap: &mut CidRemap,
        metrics: &mut Metrics,
    )
        requires
            old(remap).wf(),
        ensures
            final(self).lease is None,
            final(self).deadline == old(self).deadline,
            final(remap).wf(),
            final(remap)@ == old(remap)@.remove(cid_u),
            pool::gauges_follow(old(remap)@, final(remap)@, *old(metrics), *final(metrics)),
            final(remap).last_cid() == old(remap).last_cid(),
            final(remap).upcoming_conn_id() == old(remap).upcoming_conn_id(),
            final(remap).limit() == old(remap).limit(),
            *final(metrics) == (Metrics {
                cid_map_entries: metrics::lowered(
                    old(metrics).enabled && old(remap)@.contains_key(cid_u),
                    old(metrics).cid_map_entries,
                    1,
                ),
                requests_in_flight: metrics::lowered(
                    old(metrics).enabled && old(remap)@.contains_key(cid_u),
                    old(metrics).requests_in_flight,
                    1,
                ),
                ..*old(metrics)
            }),
    {
        pool.cancel_request(remap, cid_u, metrics);
        self.lease = None;
    }

    /// The client has gone, or sent nothing for too long, or cannot be read: the connection that is
    /// to be given back.
    pub fn ended(&mut self) -> (r: Option<ConnId>)
        ensures
            r == old(self).lease,
            *final(self) == (PooledClient { lease: None, ..*old(self) }),
    {
        let conn = self.lease;
        self.lease = None;
        conn
    }
}

/// A request that was entered, under an id that was free, and then answered, or could not be sent,
/// leaves the table and the gauges of requests as they were.
pub proof fn finished_request_leaves_no_trace(
    m: Metrics,
    routes: Map<i32, RouteEntry>,
    cid_u: i32,
    entry: RouteEntry,
)
    requires
        !routes.contains_key(cid_u),
    ensures
        routes.insert(cid_u, entry).remove(cid_u) == routes,
        metrics::lowered(m.enabled, metrics::raised(m.enabled, m.cid_map_entries, 1), 1)
            == m.cid_map_entries,
        metrics::lowered(m.enabled, metrics::raised(m.enabled, m.requests_in_flight, 1), 1)
            == m.requests_in_flight,
{
    pool::insert_then_take(routes, cid_u, entry);
    metrics::gauge_returns(m.enabled, m.cid_map_entries, 1);
    metrics::gauge_returns(m.enabled, m.requests_in_flight, 1);
}

/// What is remembered: only requests whose responses carry addresses, each under its correlation
/// id, and none beyond the limit. What was remembered under other ids stays.
pub proof fn only_address_requests_are_remembered(
    pending: Map<i32, (i16, i16)>,
    data: Seq<u8>,
    cid: i32,
)
    ensures
        data.len() < 8 ==> remembered(pending, data) == pending,
        pending.dom().len() >= MAX_PENDING ==> remembered(pending, data) == pending,
        data.len() >= 8 && !(wire::i16_at(data, 0) == 3 || wire::i16_at(data, 0) == 10
            || wire::i16_at(data, 0) == 60) ==> remembered(pending, data) == pending,
        data.len() >= 8 && (wire::i16_at(data, 0) == 3 || wire::i16_at(data, 0) == 10
            || wire::i16_at(data, 0) == 60) && pending.dom().len() < MAX_PENDING ==> {
            &&& remembered(pending, data).contains_key(wire::i32_at(data, 4) as i32)
            &&& remembered(pending, data)[wire::i32_at(data, 4) as i32] == (
                wire::i16_at(data, 0) as i16,
                wire::i16_at(data, 2) as i16,
            )
        },
        data.len() >= 8 && cid != wire::i32_at(data, 4) as i32 ==> {
            &&& remembered(pending, data).contains_key(cid) == pending.contains_key(cid)
            &&& pending.contains_key(cid) ==> remembered(pending, data)[cid] == pending[cid]
        },
        MAX_PENDING == 1024,
{
    if data.len() >= 8 {
        let k = wire::i16_at(data, 0);
        wire::numbers_have_the_high_byte_first(data, 0);
        rewrite::each_kind_is_rewritten(k as i16, 0, data, Map::empty());
    }
}

/// A frame counts once, with its length, in its own direction, while figures are collected, and
/// moves nothing else.
pub proof fn frames_are_counted_by_direction(m: Metrics, len: nat)
    requires
        len <= u64::MAX,
    ensures
        m.enabled && m.frames_downstream < u64::MAX && m.bytes_downstream + len <= u64::MAX
            ==> frame_from_client(m, len) == (Metrics {
            frames_downstream: (m.frames_downstream + 1) as u64,
            bytes_downstream: (m.bytes_downstream + len) as u64,
            ..m
        }),
        m.enabled && m.frames_upstream < u64::MAX && m.bytes_upstream + len <= u64::MAX
            ==> frame_from_broker(m, len) == (Metrics {
            frames_upstream: (m.frames_upstream + 1) as u64,
            bytes_upstream: (m.bytes_upstream + len) as u64,
            ..m
        }),
        !m.enabled ==> frame_from_client(m, len) == m && frame_from_broker(m, len) == m,
{
}

/// A client's silence is the time since it last sent something.
pub proof fn silence_is_time_since_the_last_frame(clock: IdleClock, now: u64)
    ensures
        now >= clock.last ==> clock.silence(now) == now - clock.last,
        now < clock.last ==> clock.silence(now) == 0,
{
}

} // verus!
