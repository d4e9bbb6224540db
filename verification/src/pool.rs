//! The pool of upstream connections and the remapping of correlation ids.
//!
//! Many downstream connections share a few upstream connections. Each request gets an upstream
//! correlation id of its own; the table of requests in flight leads the response back to the
//! downstream connection, under the correlation id that the client chose. An entry leaves the table
//! with its response.
//!
//! Connections are known by their ids, and instants are nanoseconds since the start of the process.
use std::collections::VecDeque;

use dashmap::DashMap;
use vstd::prelude::*;

use crate::config::Duration;
use crate::metrics;
use crate::metrics::Metrics;
use crate::net::SocketAddr;
use crate::rewrite;
use crate::rewrite::{parse_response_cid, rewrite_response, RewriteMap};
use crate::wire;
use crate::wire::{push_from, push_i32, push_range};

verus! {

/// The id of an upstream connection.
pub type ConnId = u64;

/// A request in flight.
#[derive(Clone, Copy, Debug, PartialEq, Eq, Structural)]
pub struct RouteEntry {
    /// The downstream connection that waits for the response.
    pub downstream: u64,
    /// The correlation id that the client chose.
    pub cid_d: i32,
    pub api_key: i16,
    pub api_version: i16,
    /// When the request was sent.
    pub started: u64,
    /// The upstream connection that carries the request.
    pub conn_id: ConnId,
}

/// What a table of requests in flight holds.
pub uninterp spec fn routes_of(table: DashMap<i32, RouteEntry>) -> Map<i32, RouteEntry>;

/// `DashMap::new`: an empty table.
#[verifier::external_body]
fn empty_routes() -> (r: DashMap<i32, RouteEntry>)
    ensures
        routes_of(r) =~= Map::empty(),
{
    DashMap::new()
}

/// `DashMap::len`: the number of entries.
#[verifier::external_body]
fn count_routes(table: &DashMap<i32, RouteEntry>) -> (r: usize)
    ensures
        r == routes_of(*table).dom().len(),
{
    table.len()
}

/// `DashMap::insert`: the entry is in the table, in the place of an earlier one under `cid`.
#[verifier::external_body]
fn put_route(table: &mut DashMap<i32, RouteEntry>, cid: i32, entry: RouteEntry)
    ensures
        routes_of(*final(table)) == routes_of(*old(table)).insert(cid, entry),
{
    table.insert(cid, entry);
}

/// `DashMap::remove`: the entry under `cid` leaves the table.
#[verifier::external_body]
fn take_route(table: &mut DashMap<i32, RouteEntry>, cid: i32) -> (r: Option<RouteEntry>)
    ensures
        routes_of(*final(table)) == routes_of(*old(table)).remove(cid),
        match r {
            Some(entry) => routes_of(*old(table)).contains_key(cid) && routes_of(*old(table))[cid]
                == entry,
            None => !routes_of(*old(table)).contains_key(cid),
        },
{
    table.remove(&cid).map(|(_, entry)| entry)
}

/// `DashMap::contains_key`: whether there is an entry under `cid`.
#[verifier::external_body]
fn has_route(table: &DashMap<i32, RouteEntry>, cid: i32) -> (r: bool)
    ensures
        r == routes_of(*table).contains_key(cid),
{
    table.contains_key(&cid)
}

/// The entries that another upstream connection than `conn_id` carries.
pub open spec fn of_others(routes: Map<i32, RouteEntry>, conn_id: ConnId) -> Map<i32, RouteEntry> {
    routes.restrict(
        Set::new(|cid: i32| routes.contains_key(cid) && routes[cid].conn_id != conn_id),
    )
}

/// Whether another upstream connection than `conn_id` carries the request.
fn carried_by_another(entry: &RouteEntry, conn_id: ConnId) -> (r: bool)
    ensures
        r == (entry.conn_id != conn_id),
{
    entry.conn_id != conn_id
}

/// `DashMap::retain`: the entries for which the predicate holds stay in the table.
#[verifier::external_body]
fn keep_routes_of_others(table: &mut DashMap<i32, RouteEntry>, conn_id: ConnId)
    ensures
        routes_of(*final(table)) == of_others(routes_of(*old(table)), conn_id),
{
    table.retain(|_, entry| carried_by_another(entry, conn_id));
}

/// The requests in flight, by upstream correlation id. All upstream connections share one table,
/// so an upstream correlation id is enough to find a request.
pub struct CidRemap {
    map: DashMap<i32, RouteEntry>,
    next_cid: i32,
    next_conn_id: ConnId,
    max_in_flight: usize,
}

/// The correlation id that is given out after `cid`: ids start over at 1 after the largest.
pub open spec fn cid_after(cid: i32) -> i32 {
    if cid <= 0 || cid == i32::MAX {
        1
    } else {
        (cid + 1) as i32
    }
}

/// The first id after `cid`, among the next `tries`, that no request in flight has.
pub open spec fn free_after(routes: Map<i32, RouteEntry>, cid: i32, tries: nat) -> Option<i32>
    decreases tries,
{
    if tries == 0 {
        None
    } else if routes.contains_key(cid_after(cid)) {
        free_after(routes, cid_after(cid), (tries - 1) as nat)
    } else {
        Some(cid_after(cid))
    }
}

/// The first id after `cid` that no request in flight has, where there is one.
pub open spec fn next_free(routes: Map<i32, RouteEntry>, cid: i32) -> Option<i32> {
    free_after(routes, cid, i32::MAX as nat)
}

impl View for CidRemap {
    type V = Map<i32, RouteEntry>;

    closed spec fn view(&self) -> Map<i32, RouteEntry> {
        routes_of(self.map)
    }
}

impl CidRemap {
    /// There are no more requests in flight than may be, and the last id given out is positive.
    pub open spec fn wf(self) -> bool {
        &&& self@.dom().finite()
        &&& self@.dom().len() <= self.limit()
        &&& self.last_cid() > 0
    }

    /// Another request may be in flight: the limit is not reached, and an id is free.
    pub open spec fn has_room(self) -> bool {
        self@.dom().len() < self.limit() && self@.dom().len() < i32::MAX
    }

    /// The last correlation id that was given out.
    pub closed spec fn last_cid(self) -> i32 {
        self.next_cid
    }

    /// The connection id that is given out next.
    pub closed spec fn upcoming_conn_id(self) -> ConnId {
        self.next_conn_id
    }

    /// The most requests that may be in flight.
    pub closed spec fn limit(self) -> usize {
        self.max_in_flight
    }

    /// A table for up to 100 000 requests.
    pub fn new() -> (r: Self)
        ensures
            r.wf(),
            r@ == Map::<i32, RouteEntry>::empty(),
            r.last_cid() == 1,
            r.upcoming_conn_id() == 1,
            r.limit() == 100_000,
    {
        CidRemap::with_max_in_flight(100_000)
    }

    /// A table for up to `max_in_flight` requests.
    pub fn with_max_in_flight(max_in_flight: usize) -> (r: Self)
        ensures
            r.wf(),
            r@ == Map::<i32, RouteEntry>::empty(),
            r.last_cid() == 1,
            r.upcoming_conn_id() == 1,
            r.limit() == max_in_flight,
    {
        CidRemap { map: empty_routes(), next_cid: 1, next_conn_id: 1, max_in_flight }
    }

    /// Gives out the next correlation id, whether a request has it or not.
    pub fn alloc_cid_u(&mut self) -> (r: i32)
        ensures
            r == cid_after(old(self).last_cid()),
            r > 0,
            final(self).last_cid() == r,
            final(self)@ == old(self)@,
            final(self).upcoming_conn_id() == old(self).upcoming_conn_id(),
            final(self).limit() == old(self).limit(),
    {
        let next: i32 = if self.next_cid <= 0 || self.next_cid == i32::MAX {
            1
        } else {
            self.next_cid + 1
        };
        self.next_cid = next;
        next
    }

    /// Gives out the id of a new upstream connection.
    pub fn alloc_conn_id(&mut self) -> (r: ConnId)
        ensures
            r == old(self).upcoming_conn_id(),
            final(self).upcoming_conn_id() == r.wrapping_add(1),
            final(self)@ == old(self)@,
            final(self).last_cid() == old(self).last_cid(),
            final(self).limit() == old(self).limit(),
    {
        let id: ConnId = self.next_conn_id;
        self.next_conn_id = id.wrapping_add(1);
        id
    }

    /// Gives out the next correlation id that no request in flight has.
    fn alloc_free_cid(&mut self) -> (r: i32)
        requires
            old(self).wf(),
            old(self)@.dom().len() < i32::MAX,
        ensures
            next_free(old(self)@, old(self).last_cid()) == Some(r),
            !old(self)@.contains_key(r),
            r > 0,
            final(self).last_cid() == r,
            final(self)@ == old(self)@,
            final(self).upcoming_conn_id() == old(self).upcoming_conn_id(),
            final(self).limit() == old(self).limit(),
    {
        let ghost routes = self@;
        let ghost start = self.last_cid();
        proof {
            lemma_an_id_is_free(routes, start);
        }
        let mut cid: i32 = self.alloc_cid_u();
        let mut left: i32 = i32::MAX - 1;
        while has_route(&self.map, cid)
            invariant
                left >= 0,
                cid > 0,
                self@ == routes,
                routes == old(self)@,
                start == old(self).last_cid(),
                self.last_cid() == cid,
                self.upcoming_conn_id() == old(self).upcoming_conn_id(),
                self.limit() == old(self).limit(),
                next_free(routes, start) is Some,
                next_free(routes, start) == (if routes.contains_key(cid) {
                    free_after(routes, cid, left as nat)
                } else {
                    Some(cid)
                }),
            decreases left,
        {
            cid = self.alloc_cid_u();
            left = left - 1;
        }
        cid
    }

    /// Enters a request and gives out its upstream correlation id, which no other request in flight
    /// has. There is none while the table is full: the request has to be refused. It is full at its
    /// limit, or when every positive number is in use.
    pub fn insert(&mut self, entry: RouteEntry, metrics: &mut Metrics) -> (r: Option<i32>)
        requires
            old(self).wf(),
        ensures
            final(self).wf(),
            r is Some <==> old(self).has_room(),
            match r {
                Some(cid_u) => entered(*old(self), *final(self), cid_u, entry) && *final(metrics)
                    == (Metrics {
                    cid_map_entries: metrics::raised(
                        old(metrics).enabled,
                        old(metrics).cid_map_entries,
                        1,
                    ),
                    ..*old(metrics)
                }),
                None => {
                    &&& final(self)@ == old(self)@
                    &&& final(self).last_cid() == old(self).last_cid()
                    &&& *final(metrics) == *old(metrics)
                },
            },
            final(self).upcoming_conn_id() == old(self).upcoming_conn_id(),
            final(self).limit() == old(self).limit(),
    {
        let in_flight: usize = count_routes(&self.map);
        if in_flight >= self.max_in_flight || in_flight as u64 >= i32::MAX as u64 {
            return None;
        }
        let cid_u: i32 = self.alloc_free_cid();
        put_route(&mut self.map, cid_u, entry);
        metrics.inc_cid_map_entries();
        Some(cid_u)
    }

    /// Takes the request with this upstream correlation id out of the table.
    pub fn take(&mut self, cid_u: i32, metrics: &mut Metrics) -> (r: Option<RouteEntry>)
        requires
            old(self).wf(),
        ensures
            final(self).wf(),
            final(self)@ == old(self)@.remove(cid_u),
            match r {
                Some(entry) => {
                    &&& old(self)@.contains_key(cid_u)
                    &&& entry == old(self)@[cid_u]
                    &&& *final(metrics) == (Metrics {
                        cid_map_entries: metrics::lowered(
                            old(metrics).enabled,
                            old(metrics).cid_map_entries,
                            1,
                        ),
                        ..*old(metrics)
                    })
                },
                None => !old(self)@.contains_key(cid_u) && *final(metrics) == *old(metrics),
            },
            final(self).last_cid() == old(self).last_cid(),
            final(self).upcoming_conn_id() == old(self).upcoming_conn_id(),
            final(self).limit() == old(self).limit(),
    {
        let entry = take_route(&mut self.map, cid_u);
        if entry.is_some() {
            metrics.dec_cid_map_entries();
        }
        entry
    }

    /// The number of requests in flight.
    pub fn in_flight(&self) -> (r: usize)
        ensures
            r == self@.dom().len(),
    {
        count_routes(&self.map)
    }

    /// Drops the requests that one upstream connection carries, and tells how many they were. The
    /// requests on other connections stay.
    pub fn fail_conn(&mut self, conn_id: ConnId, metrics: &mut Metrics) -> (r: usize)
        requires
            old(self).wf(),
        ensures
            final(self).wf(),
            final(self)@ == of_others(old(self)@, conn_id),
            r == old(self)@.dom().filter(|cid: i32| old(self)@[cid].conn_id == conn_id).len(),
            r == old(self)@.dom().len() - final(self)@.dom().len(),
            *final(metrics) == (Metrics {
                cid_map_entries: metrics::lowered(
                    old(metrics).enabled,
                    old(metrics).cid_map_entries,
                    r as i64,
                ),
                ..*old(metrics)
            }),
            final(self).last_cid() == old(self).last_cid(),
            final(self).upcoming_conn_id() == old(self).upcoming_conn_id(),
            final(self).limit() == old(self).limit(),
    {
        let before: usize = count_routes(&self.map);
        keep_routes_of_others(&mut self.map, conn_id);
        let after: usize = count_routes(&self.map);
        proof {
            let all = old(self)@.dom();
            let gone = all.filter(|cid: i32| old(self)@[cid].conn_id == conn_id);
            let kept = self@.dom();
            assert(kept =~= all.filter(|cid: i32| old(self)@[cid].conn_id != conn_id));
            assert(kept.disjoint(gone));
            assert(kept + gone =~= all);
            vstd::set_lib::lemma_set_disjoint_lens(kept, gone);
        }
        let removed: usize = before - after;
        metrics.sub_cid_map_entries(removed as i64);
        removed
    }
}

/// A request was entered under `cid_u`: the first id after the last one given out that no request
/// in flight had. All other requests are as they were.
pub open spec fn entered(before: CidRemap, after: CidRemap, cid_u: i32, entry: RouteEntry) -> bool {
    &&& next_free(before@, before.last_cid()) == Some(cid_u)
    &&& !before@.contains_key(cid_u)
    &&& cid_u > 0
    &&& !before@.contains_key(cid_after(before.last_cid())) ==> cid_u == cid_after(
        before.last_cid(),
    )
    &&& after@ == before@.insert(cid_u, entry)
    &&& after@.dom().len() == before@.dom().len() + 1
    &&& after.last_cid() == cid_u
}

/// The `n`-th correlation id that is given out after `cid`.
pub open spec fn nth_cid_after(cid: i32, n: nat) -> i32
    decreases n,
{
    if n == 0 {
        cid
    } else {
        cid_after(nth_cid_after(cid, (n - 1) as nat))
    }
}

proof fn lemma_nth_cid(cid: i32, n: nat)
    requires
        cid > 0,
    ensures
        nth_cid_after(cid, n) == (cid - 1 + n) % (i32::MAX as int) + 1,
    decreases n,
{
    if n > 0 {
        lemma_nth_cid(cid, (n - 1) as nat);
    }
}

proof fn lemma_cid_after_first(cid: i32, n: nat)
    ensures
        nth_cid_after(cid_after(cid), n) == nth_cid_after(cid, n + 1),
    decreases n,
{
    if n > 0 {
        lemma_cid_after_first(cid, (n - 1) as nat);
    }
    reveal_with_fuel(nth_cid_after, 2);
}

proof fn lemma_none_free(routes: Map<i32, RouteEntry>, cid: i32, tries: nat, k: nat)
    requires
        free_after(routes, cid, tries) is None,
        1 <= k <= tries,
    ensures
        routes.contains_key(nth_cid_after(cid, k)),
    decreases tries,
{
    reveal_with_fuel(nth_cid_after, 2);
    if k > 1 {
        lemma_none_free(routes, cid_after(cid), (tries - 1) as nat, (k - 1) as nat);
        lemma_cid_after_first(cid, (k - 1) as nat);
    }
}

proof fn lemma_found_is_free(routes: Map<i32, RouteEntry>, cid: i32, tries: nat)
    ensures
        free_after(routes, cid, tries) matches Some(c) ==> !routes.contains_key(c) && c > 0,
    decreases tries,
{
    if tries > 0 {
        lemma_found_is_free(routes, cid_after(cid), (tries - 1) as nat);
    }
}

/// The numbers from 1 to `n`.
spec fn ids_up_to(n: nat) -> Set<i32> {
    Set::new(|c: i32| 1 <= c <= n)
}

proof fn lemma_ids_up_to(n: nat)
    requires
        n <= i32::MAX,
    ensures
        ids_up_to(n).finite(),
        ids_up_to(n).len() == n,
    decreases n,
{
    if n == 0 {
        assert(ids_up_to(n) =~= Set::empty());
    } else {
        lemma_ids_up_to((n - 1) as nat);
        assert(ids_up_to(n) =~= ids_up_to((n - 1) as nat).insert(n as i32));
    }
}

proof fn lemma_an_id_is_free(routes: Map<i32, RouteEntry>, cid: i32)
    requires
        routes.dom().finite(),
        routes.dom().len() < i32::MAX,
        cid > 0,
    ensures
        next_free(routes, cid) matches Some(c) && !routes.contains_key(c) && c > 0,
{
    let all = i32::MAX as nat;
    lemma_found_is_free(routes, cid, all);
    if next_free(routes, cid) is None {
        assert forall|p: i32| ids_up_to(all).contains(p) implies routes.dom().contains(p) by {
            let k = if p > cid {
                (p - cid) as nat
            } else {
                (p - cid + i32::MAX) as nat
            };
            lemma_none_free(routes, cid, all, k);
            lemma_nth_cid(cid, k);
        }
        lemma_ids_up_to(all);
        vstd::set_lib::lemma_len_subset(ids_up_to(all), routes.dom());
    }
}

/// Until all positive numbers have been used, no correlation id is given out twice, and none is
/// zero or negative.
pub proof fn cids_are_distinct(cid: i32, a: nat, b: nat)
    requires
        cid > 0,
        a < b < a + i32::MAX,
    ensures
        nth_cid_after(cid, a) != nth_cid_after(cid, b),
        nth_cid_after(cid, a) > 0,
{
    lemma_nth_cid(cid, a);
    lemma_nth_cid(cid, b);
}

/// A run of allocations on a new table starts at 2, goes up by one, and starts over at 1 after the
/// largest number. No id is zero or negative, and none comes twice among as many in a row as there
/// are positive numbers.
pub proof fn allocations_are_distinct(cids: Seq<i32>, i: int, j: int)
    requires
        0 <= i < j < cids.len(),
        cids[0] == cid_after(1),
        forall|k: int| 0 < k < cids.len() ==> #[trigger] cids[k] == cid_after(cids[k - 1]),
        j - i < i32::MAX,
    ensures
        cids[0] == 2,
        cids[i] > 0,
        cids[i + 1] == (if cids[i] < i32::MAX {
            cids[i] + 1
        } else {
            1
        }),
        cids[i] != cids[j],
{
    lemma_run(cids, i);
    lemma_run(cids, j);
    cids_are_distinct(1, (i + 1) as nat, (j + 1) as nat);
}

proof fn lemma_run(cids: Seq<i32>, i: int)
    requires
        0 <= i < cids.len(),
        cids[0] == cid_after(1),
        forall|k: int| 0 < k < cids.len() ==> #[trigger] cids[k] == cid_after(cids[k - 1]),
    ensures
        cids[i] == nth_cid_after(1, (i + 1) as nat),
    decreases i,
{
    reveal_with_fuel(nth_cid_after, 2);
    if i > 0 {
        lemma_run(cids, i - 1);
    }
}

/// What was entered under a free id is what is taken out, and the table is then as before.
pub proof fn insert_then_take(routes: Map<i32, RouteEntry>, cid_u: i32, entry: RouteEntry)
    requires
        !routes.contains_key(cid_u),
    ensures
        routes.insert(cid_u, entry).contains_key(cid_u),
        routes.insert(cid_u, entry)[cid_u] == entry,
        routes.insert(cid_u, entry).remove(cid_u) == routes,
{
    assert(routes.insert(cid_u, entry).remove(cid_u) =~= routes);
}

/// What can happen to the requests in flight.
pub enum TableStep {
    /// A request is entered under this id.
    Enter(i32, RouteEntry),
    /// The request with this id is taken out.
    Take(i32),
    /// This upstream connection fails.
    Fail(ConnId),
}

/// The requests in flight after one step.
pub open spec fn after_step(routes: Map<i32, RouteEntry>, step: TableStep) -> Map<i32, RouteEntry> {
    match step {
        TableStep::Enter(cid, entry) => routes.insert(cid, entry),
        TableStep::Take(cid) => routes.remove(cid),
        TableStep::Fail(conn_id) => of_others(routes, conn_id),
    }
}

/// The requests in flight after some steps.
pub open spec fn after_steps(routes: Map<i32, RouteEntry>, steps: Seq<TableStep>) -> Map<
    i32,
    RouteEntry,
>
    decreases steps.len(),
{
    if steps.len() == 0 {
        routes
    } else {
        after_step(after_steps(routes, steps.drop_last()), steps.last())
    }
}

/// Every request is entered under an id that is free at the time, and no step takes the request
/// `cid` out or fails the connection that carries it.
pub open spec fn steps_spare(
    routes: Map<i32, RouteEntry>,
    steps: Seq<TableStep>,
    cid: i32,
    conn_id: ConnId,
) -> bool {
    forall|i: int|
        0 <= i < steps.len() ==> match #[trigger] steps[i] {
            TableStep::Enter(c, _) => !after_steps(routes, steps.take(i)).contains_key(c),
            TableStep::Take(c) => c != cid,
            TableStep::Fail(c) => c != conn_id,
        }
}

/// A request stays in the table as it was entered, whatever happens to others, until it is taken
/// out or its connection fails. Taking it out leaves the others, and there is nothing to take out
/// after that.
pub proof fn entered_request_stays(
    routes: Map<i32, RouteEntry>,
    cid: i32,
    entry: RouteEntry,
    steps: Seq<TableStep>,
)
    requires
        !routes.contains_key(cid),
        steps_spare(routes.insert(cid, entry), steps, cid, entry.conn_id),
    ensures
        ({
            let table = after_steps(routes.insert(cid, entry), steps);
            &&& table.contains_key(cid)
            &&& table[cid] == entry
            &&& table.dom().finite() ==> table.remove(cid).dom().len() == table.dom().len() - 1
            &&& !table.remove(cid).contains_key(cid)
            &&& table.remove(cid).remove(cid) == table.remove(cid)
            &&& forall|other: i32|
                other != cid ==> (table.remove(cid).contains_key(other) <==> table.contains_key(
                    other,
                )) && (table.contains_key(other) ==> #[trigger] table.remove(cid)[other]
                    == table[other])
        }),
    decreases steps.len(),
{
    let start = routes.insert(cid, entry);
    let table = after_steps(start, steps);
    if steps.len() > 0 {
        let earlier = steps.drop_last();
        assert(steps.take(steps.len() - 1) =~= earlier);
        assert(steps_spare(start, earlier, cid, entry.conn_id)) by {
            assert forall|i: int| 0 <= i < earlier.len() implies match #[trigger] earlier[i] {
                TableStep::Enter(c, _) => !after_steps(start, earlier.take(i)).contains_key(c),
                TableStep::Take(c) => c != cid,
                TableStep::Fail(c) => c != entry.conn_id,
            } by {
                assert(earlier[i] == steps[i]);
                assert(earlier.take(i) =~= steps.take(i));
            }
        }
        entered_request_stays(routes, cid, entry, earlier);
        assert(steps[steps.len() - 1] == steps.last());
    }
    assert(table.remove(cid).remove(cid) =~= table.remove(cid));
}

/// The failure of one upstream connection leaves every request on another as it is, and none on
/// the failed one.
pub proof fn failure_is_isolated(routes: Map<i32, RouteEntry>, conn_id: ConnId, cid: i32)
    ensures
        of_others(routes, conn_id).contains_key(cid) <==> routes.contains_key(cid)
            && routes[cid].conn_id != conn_id,
        of_others(routes, conn_id).contains_key(cid) ==> of_others(routes, conn_id)[cid]
            == routes[cid],
{
}

/// The gauges of requests have followed the table: while figures are collected, both have moved by
/// as much as the table has grown or shrunk.
pub open spec fn gauges_follow(
    before: Map<i32, RouteEntry>,
    after: Map<i32, RouteEntry>,
    m: Metrics,
    n: Metrics,
) -> bool {
    let grown = after.dom().len() - before.dom().len();
    &&& n.enabled == m.enabled
    &&& m.enabled && before.dom().len() <= i64::MAX && after.dom().len() <= i64::MAX ==> {
        &&& i64::MIN <= m.cid_map_entries + grown <= i64::MAX ==> n.cid_map_entries
            == m.cid_map_entries + grown
        &&& i64::MIN <= m.requests_in_flight + grown <= i64::MAX ==> n.requests_in_flight
            == m.requests_in_flight + grown
    }
}

/// Whatever requests are entered, answered, cancelled or given up, from an empty table on: while
/// figures are collected, both gauges of requests show how many requests are in the table.
pub proof fn gauges_show_the_table(tables: Seq<Map<i32, RouteEntry>>, figures: Seq<Metrics>)
    requires
        tables.len() == figures.len(),
        tables.len() > 0,
        tables[0].dom().is_empty(),
        figures[0].enabled,
        figures[0].cid_map_entries == 0,
        figures[0].requests_in_flight == 0,
        forall|i: int| 0 <= i < tables.len() ==> (#[trigger] tables[i]).dom().len() <= i64::MAX,
        forall|i: int|
            0 <= i < tables.len() - 1 ==> #[trigger] gauges_follow(
                tables[i],
                tables[i + 1],
                figures[i],
                figures[i + 1],
            ),
    ensures
        figures.last().enabled,
        figures.last().cid_map_entries == tables.last().dom().len(),
        figures.last().requests_in_flight == tables.last().dom().len(),
    decreases tables.len(),
{
    if tables.len() == 1 {
        assert(tables[0].dom() =~= Set::<i32>::empty());
    } else {
        let k = tables.len() - 2;
        assert forall|i: int| 0 <= i < tables.drop_last().len() - 1 implies #[trigger] gauges_follow(
            tables.drop_last()[i],
            tables.drop_last()[i + 1],
            figures.drop_last()[i],
            figures.drop_last()[i + 1],
        ) by {
            assert(gauges_follow(tables[i], tables[i + 1], figures[i], figures[i + 1]));
        }
        gauges_show_the_table(tables.drop_last(), figures.drop_last());
        assert(gauges_follow(tables[k], tables[k + 1], figures[k], figures[k + 1]));
        assert(tables[k].dom().len() <= i64::MAX);
        assert(tables[k + 1].dom().len() <= i64::MAX);
    }
}

/// The limits of a pool.
#[derive(Clone, Copy, Debug)]
pub struct PoolLimits {
    pub max_per_broker: usize,
    pub min_idle: usize,
    pub idle_timeout: Duration,
    pub acquire_timeout: Duration,
    /// How often idle connections are probed.
    pub health_check: Duration,
    pub max_in_flight: usize,
}

/// An upstream connection that nobody has borrowed.
#[derive(Clone, Copy, Debug, PartialEq, Eq, Structural)]
pub struct PooledConn {
    pub alive: bool,
    pub last_used: u64,
    pub conn_id: ConnId,
}

/// The upstream connections to one broker.
pub struct BrokerPool {
    pub node_id: i32,
    pub real_addr: SocketAddr,
    pub real_host: String,
    config: PoolLimits,
    idle: VecDeque<PooledConn>,
    lent: Vec<ConnId>,
    opening: usize,
}

/// What a request for a connection gets.
#[derive(Clone, Copy, Debug, PartialEq, Eq, Structural)]
pub enum AcquireStep {
    /// This idle connection.
    Reuse(ConnId),
    /// A new connection, which has to be made.
    Create,
    /// Nothing yet: a connection has to be given back first.
    Wait,
}

/// The idle connection after the connection `conn_id` was found alive or dead.
pub open spec fn found(conn: PooledConn, conn_id: ConnId, alive: bool) -> PooledConn {
    if conn.conn_id == conn_id {
        PooledConn { alive, ..conn }
    } else {
        conn
    }
}

/// The idle connection was last used too long ago, or is dead.
pub open spec fn is_stale(conn: PooledConn, now: u64, idle_timeout: Duration) -> bool {
    !conn.alive || (if now > conn.last_used {
        now - conn.last_used
    } else {
        0
    }) >= idle_timeout.total_nanos()
}

fn nanos_in(span: Duration) -> (r: u128)
    ensures
        r == span.total_nanos(),
{
    span.secs as u128 * 1_000_000_000 + span.nanos as u128
}

fn stale(conn: &PooledConn, now: u64, idle_timeout: Duration) -> (r: bool)
    ensures
        r == is_stale(*conn, now, idle_timeout),
{
    let age: u64 = if now > conn.last_used {
        now - conn.last_used
    } else {
        0
    };
    !conn.alive || age as u128 >= nanos_in(idle_timeout)
}

/// The first position of `id`, from number `from` on.
pub open spec fn first_of(ids: Seq<ConnId>, id: ConnId, from: nat) -> Option<int>
    decreases ids.len() - from,
{
    if from >= ids.len() {
        None
    } else if ids[from as int] == id {
        Some(from as int)
    } else {
        first_of(ids, id, from + 1)
    }
}

/// The list without what stands at this position, where there is one.
pub open spec fn without<A>(list: Seq<A>, at: Option<int>) -> Seq<A> {
    match at {
        Some(i) => list.remove(i),
        None => list,
    }
}

/// The ids of connections.
pub open spec fn ids_of(conns: Seq<PooledConn>) -> Seq<ConnId> {
    conns.map_values(|c: PooledConn| c.conn_id)
}

/// The figures on upstream connections have followed the pool: `opened` connections came to it, and
/// those that left it were counted as evicted, each once.
pub open spec fn figures_follow(
    before: BrokerPool,
    after: BrokerPool,
    m: Metrics,
    n: Metrics,
    opened: nat,
) -> bool {
    let left = before.established() + opened - after.established();
    &&& left >= 0
    &&& n.enabled == m.enabled
    &&& n.pool_evictions == metrics::counted(m.enabled, m.pool_evictions, left as u64)
    &&& i64::MIN <= m.upstream_connections + opened - left <= i64::MAX
        ==> n.upstream_connections == m.upstream_connections + opened - left
}

impl BrokerPool {
    /// The broker: its node, its address and its host name.
    pub closed spec fn broker(self) -> (i32, SocketAddr, Seq<char>) {
        (self.node_id, self.real_addr, self.real_host@)
    }

    /// The idle connections, the one that has been idle longest first.
    pub closed spec fn idle_conns(self) -> Seq<PooledConn> {
        self.idle@
    }

    /// The connections that are lent out.
    pub closed spec fn lent_conns(self) -> Seq<ConnId> {
        self.lent@
    }

    /// The number of connections that are being made.
    pub closed spec fn under_way(self) -> nat {
        self.opening as nat
    }

    /// The number of connections that are there, idle or lent out.
    pub open spec fn established(self) -> nat {
        self.idle_conns().len() + self.lent_conns().len()
    }

    /// The number of connections that count towards the limit: those that are there, and those
    /// that are being made.
    pub open spec fn made(self) -> nat {
        self.established() + self.under_way()
    }

    pub closed spec fn limits(self) -> PoolLimits {
        self.config
    }

    /// The ids of the connections that are there: the idle ones, then those that are lent out.
    pub open spec fn ids(self) -> Seq<ConnId> {
        ids_of(self.idle_conns()) + self.lent_conns()
    }

    /// No more connections than the limit says, and each is in one place only: it is idle, or it
    /// is lent out once.
    pub open spec fn wf(self) -> bool {
        &&& self.made() <= self.limits().max_per_broker
        &&& self.ids().no_duplicates()
    }

    /// The pool is for the same broker under the same limits.
    pub open spec fn same_broker(self, other: BrokerPool) -> bool {
        &&& self.broker() == other.broker()
        &&& self.limits() == other.limits()
    }

    /// The connection is one of the pool's, idle or lent out.
    pub open spec fn knows(self, conn_id: ConnId) -> bool {
        self.lent_conns().contains(conn_id) || ids_of(self.idle_conns()).contains(conn_id)
    }

    /// The connection is lent out, and it is there once: one client alone has it.
    pub open spec fn has_one_borrower(self, conn_id: ConnId) -> bool {
        &&& !ids_of(self.idle_conns()).contains(conn_id)
        &&& exists|i: int|
            0 <= i < self.lent_conns().len() && #[trigger] self.lent_conns()[i] == conn_id
                && forall|j: int|
                0 <= j < self.lent_conns().len() && j != i ==> self.lent_conns()[j] != conn_id
    }

    /// A pool without connections.
    pub fn new(
        node_id: i32,
        real_addr: SocketAddr,
        real_host: String,
        config: PoolLimits,
    ) -> (r: Self)
        ensures
            r.wf(),
            r.broker() == (node_id, real_addr, real_host@),
            r.limits() == config,
            r.idle_conns().len() == 0,
            r.lent_conns().len() == 0,
            r.made() == 0,
    {
        BrokerPool {
            node_id,
            real_addr,
            real_host,
            config,
            idle: VecDeque::new(),
            lent: Vec::new(),
            opening: 0,
        }
    }

    /// One attempt to borrow a connection, after `waited` nanoseconds. The connection that has
    /// been idle longest is reused if it is alive; otherwise it is dropped, and a new connection
    /// may be made while the limit is not reached.
    pub fn acquire(&mut self, waited: u64, metrics: &mut Metrics) -> (r: AcquireStep)
        requires
            old(self).wf(),
            old(metrics).wf(),
        ensures
            final(self).wf(),
            final(metrics).wf(),
            final(self).same_broker(*old(self)),
            final(self).idle_conns() == (if old(self).idle_conns().len() > 0 {
                old(self).idle_conns().drop_first()
            } else {
                old(self).idle_conns()
            }),
            r == (if old(self).idle_conns().len() > 0 && old(self).idle_conns()[0].alive {
                AcquireStep::Reuse(old(self).idle_conns()[0].conn_id)
            } else if old(self).idle_conns().len() > 0 || old(self).made()
                < old(self).limits().max_per_broker {
                AcquireStep::Create
            } else {
                AcquireStep::Wait
            }),
            final(self).lent_conns() == (match r {
                AcquireStep::Reuse(conn_id) => old(self).lent_conns().push(conn_id),
                _ => old(self).lent_conns(),
            }),
            r matches AcquireStep::Reuse(conn_id) ==> !old(self).lent_conns().contains(conn_id)
                && final(self).has_one_borrower(conn_id),
            final(self).under_way() == old(self).under_way() + (if r == AcquireStep::Create {
                1int
            } else {
                0
            }),
            figures_follow(*old(self), *final(self), *old(metrics), *final(metrics), 0),
            *final(metrics) == (Metrics {
                pool_hits: metrics::counted(
                    old(metrics).enabled && r is Reuse,
                    old(metrics).pool_hits,
                    1,
                ),
                pool_misses: metrics::counted(
                    old(metrics).enabled && r is Create,
                    old(metrics).pool_misses,
                    1,
                ),
                pool_waiters: metrics::raised(
                    old(metrics).enabled && r is Wait,
                    old(metrics).pool_waiters,
                    1,
                ),
                acquire_hist: final(metrics).acquire_hist,
                pool_evictions: final(metrics).pool_evictions,
                upstream_connections: final(metrics).upstream_connections,
                ..*old(metrics)
            }),
            metrics::hist_after(
                old(metrics).enabled && !(r is Wait),
                old(metrics).acquire_hist,
                waited,
                final(metrics).acquire_hist,
            ),
    {
        let front = self.idle.pop_front();
        if let Some(conn) = front {
            if conn.alive {
                self.lent.push(conn.conn_id);
                metrics.inc_pool_hits();
                metrics.observe_acquire(waited);
                proof {
                    let total = old(self).ids().len() as int;
                    lemma_still_distinct(
                        old(self).ids(),
                        self.ids(),
                        |i: int| {
                            if i + 1 < total {
                                i + 1
                            } else {
                                0
                            }
                        },
                    );
                    lemma_one_borrower(*self, self.lent@.len() - 1);
                    lemma_lent_is_not_idle(*old(self), 0);
                }
                return AcquireStep::Reuse(conn.conn_id);
            }
            metrics.inc_pool_evictions();
            metrics.dec_upstream_connections();
            proof {
                lemma_still_distinct(old(self).ids(), self.ids(), |i: int| i + 1);
            }
        }
        if self.has_room() {
            self.opening = self.opening + 1;
            metrics.inc_pool_misses();
            metrics.observe_acquire(waited);
            return AcquireStep::Create;
        }
        metrics.inc_pool_waiters();
        AcquireStep::Wait
    }

    /// How much longer a request may wait for a connection, after `waited` nanoseconds, as far as it
    /// fits.
    pub fn wait_left(&self, waited: u64) -> (r: u64)
        ensures
            ({
                let left = self.limits().acquire_timeout.total_nanos() - waited;
                r == (if left <= 0 {
                    0
                } else if left <= u64::MAX {
                    left
                } else {
                    u64::MAX as int
                })
            }),
    {
        let limit: u128 = nanos_in(self.config.acquire_timeout);
        if limit <= waited as u128 {
            0
        } else if limit - waited as u128 <= u64::MAX as u128 {
            (limit - waited as u128) as u64
        } else {
            u64::MAX
        }
    }

    /// The end of a wait for a connection, after `waited` nanoseconds in all: whether to try again,
    /// because something was given back in time, or to give up.
    pub fn waited(&self, woken: bool, waited: u64, metrics: &mut Metrics) -> (r: bool)
        requires
            old(metrics).wf(),
        ensures
            final(metrics).wf(),
            r == (woken && waited < self.limits().acquire_timeout.total_nanos()),
            *final(metrics) == (Metrics {
                pool_waiters: metrics::lowered(
                    old(metrics).enabled,
                    old(metrics).pool_waiters,
                    1,
                ),
                acquire_hist: final(metrics).acquire_hist,
                ..*old(metrics)
            }),
            metrics::hist_after(
                old(metrics).enabled && r,
                old(metrics).acquire_hist,
                waited,
                final(metrics).acquire_hist,
            ),
    {
        metrics.dec_pool_waiters();
        let again = woken && self.wait_left(waited) > 0;
        if again {
            metrics.observe_acquire(waited);
        }
        again
    }

    /// The outcome of making a connection that `acquire` asked for: its id, where it was made. It
    /// is then lent out. One that could not be made does not count towards the limit.
    pub fn created(&mut self, made: Option<ConnId>, metrics: &mut Metrics)
        requires
            old(self).wf(),
            old(self).under_way() > 0,
            made matches Some(conn_id) ==> !old(self).knows(conn_id),
        ensures
            final(self).wf(),
            final(self).same_broker(*old(self)),
            final(self).idle_conns() == old(self).idle_conns(),
            final(self).under_way() == old(self).under_way() - 1,
            final(self).lent_conns() == (match made {
                Some(conn_id) => old(self).lent_conns().push(conn_id),
                None => old(self).lent_conns(),
            }),
            made matches Some(conn_id) ==> final(self).has_one_borrower(conn_id),
            figures_follow(
                *old(self),
                *final(self),
                *old(metrics),
                *final(metrics),
                if made is Some {
                    1
                } else {
                    0
                },
            ),
            *final(metrics) == (Metrics {
                upstream_connections: metrics::raised(
                    made is Some,
                    old(metrics).upstream_connections,
                    1,
                ),
                auth_failures: metrics::counted(
                    old(metrics).enabled && made is None,
                    old(metrics).auth_failures,
                    1,
                ),
                ..*old(metrics)
            }),
    {
        self.opening = self.opening - 1;
        match made {
            Some(conn_id) => {
                self.lent.push(conn_id);
                metrics.inc_upstream_connections();
                proof {
                    lemma_new_is_distinct(ids_of(self.idle@), old(self).lent@, conn_id);
                    assert(self.ids() =~= ids_of(self.idle@) + old(self).lent@.push(conn_id));
                    lemma_one_borrower(*self, self.lent@.len() - 1);
                }
            },
            None => metrics.inc_auth_failures(),
        }
    }

    /// Whether the connection is one of the pool's, idle or lent out.
    pub fn holds(&self, conn_id: ConnId) -> (r: bool)
        ensures
            r == self.knows(conn_id),
    {
        self.find_lent(conn_id).is_some() || self.find_idle(conn_id).is_some()
    }

    /// Whether another connection may be made.
    pub fn has_room(&self) -> (r: bool)
        requires
            self.wf(),
        ensures
            r == (self.made() < self.limits().max_per_broker),
    {
        self.connection_count() < self.config.max_per_broker
    }

    /// The number of connections that count towards the limit.
    pub fn connection_count(&self) -> (r: usize)
        requires
            self.wf(),
        ensures
            r == self.made(),
    {
        self.idle.len() + self.lent.len() + self.opening
    }

    /// The number of connections that are being made.
    pub fn opening_count(&self) -> (r: usize)
        ensures
            r == self.under_way(),
    {
        self.opening
    }

    /// The number of idle connections.
    pub fn idle_count(&self) -> (r: usize)
        ensures
            r == self.idle_conns().len(),
    {
        self.idle.len()
    }

    /// Whether another connection is to be made ready: there are fewer idle ones than there should
    /// be, the limit is not reached, and none could not be made (`failed`). It is asked at the
    /// start and after each scan for stale connections, so that the pool is kept warm.
    pub fn wants_warmup(&self, failed: bool) -> (r: bool)
        requires
            self.wf(),
        ensures
            r == (!failed && self.idle_conns().len() < self.limits().min_idle && self.made()
                < self.limits().max_per_broker),
    {
        !failed && self.idle.len() < self.config.min_idle && self.has_room()
    }

    /// A connection was made ready.
    pub fn warmed(&mut self, conn_id: ConnId, now: u64, metrics: &mut Metrics)
        requires
            old(self).wf(),
            old(self).made() < old(self).limits().max_per_broker,
            !old(self).knows(conn_id),
        ensures
            final(self).wf(),
            final(self).same_broker(*old(self)),
            final(self).made() == old(self).made() + 1,
            final(self).lent_conns() == old(self).lent_conns(),
            final(self).under_way() == old(self).under_way(),
            final(self).idle_conns() == old(self).idle_conns().push(
                PooledConn { alive: true, last_used: now, conn_id },
            ),
            figures_follow(*old(self), *final(self), *old(metrics), *final(metrics), 1),
            *final(metrics) == (Metrics {
                upstream_connections: metrics::raised(
                    true,
                    old(metrics).upstream_connections,
                    1,
                ),
                ..*old(metrics)
            }),
    {
        metrics.inc_upstream_connections();
        self.idle.push_back(PooledConn { alive: true, last_used: now, conn_id });
        proof {
            let before = ids_of(old(self).idle@);
            lemma_new_is_distinct(before, self.lent@, conn_id);
            assert(self.ids() =~= before.push(conn_id) + self.lent@);
        }
    }

    /// Whether the idle connections are to be probed, `since_last` nanoseconds after they last were.
    pub fn probe_due(&self, since_last: u64) -> (r: bool)
        ensures
            r == (since_last >= self.limits().health_check.total_nanos()),
    {
        since_last as u128 >= nanos_in(self.config.health_check)
    }

    /// The idle connections, the one that has been idle longest first.
    pub fn idle_ids(&self) -> (r: Vec<ConnId>)
        ensures
            r@ == ids_of(self.idle_conns()),
    {
        let mut r: Vec<ConnId> = Vec::new();
        let mut i: usize = 0;
        while i < self.idle.len()
            invariant
                i <= self.idle@.len(),
                r@ == ids_of(self.idle@).take(i as int),
            decreases self.idle@.len() - i,
        {
            r.push(self.idle[i].conn_id);
            i = i + 1;
            assert(r@ =~= ids_of(self.idle@).take(i as int));
        }
        assert(ids_of(self.idle@).take(i as int) =~= ids_of(self.idle@));
        r
    }

    /// A connection was probed. If it is idle, it counts as alive or dead from then on; a dead one
    /// is lent to nobody, and goes at the next scan.
    pub fn probed(&mut self, conn_id: ConnId, alive: bool)
        requires
            old(self).wf(),
        ensures
            final(self).wf(),
            final(self).same_broker(*old(self)),
            final(self).lent_conns() == old(self).lent_conns(),
            final(self).under_way() == old(self).under_way(),
            final(self).idle_conns() == old(self).idle_conns().map_values(
                |c: PooledConn| found(c, conn_id, alive),
            ),
            final(self).ids() == old(self).ids(),
    {
        let ghost all = self.idle@;
        let ghost marked = all.map_values(|c: PooledConn| found(c, conn_id, alive));
        let mut idle: VecDeque<PooledConn> = VecDeque::new();
        let mut i: usize = 0;
        assert(idle@ =~= marked.take(0));
        while i < self.idle.len()
            invariant
                i <= self.idle@.len(),
                self.idle@ == all,
                *self == *old(self),
                marked == all.map_values(|c: PooledConn| found(c, conn_id, alive)),
                idle@ == marked.take(i as int),
            decreases self.idle@.len() - i,
        {
            let conn = self.idle[i];
            if conn.conn_id == conn_id {
                idle.push_back(PooledConn { alive, ..conn });
            } else {
                idle.push_back(conn);
            }
            i = i + 1;
            assert(idle@ =~= marked.take(i as int));
        }
        assert(marked.take(i as int) =~= marked);
        self.idle = idle;
        assert(ids_of(self.idle@) =~= ids_of(all));
    }

    fn find_lent(&self, conn_id: ConnId) -> (r: Option<usize>)
        ensures
            first_of(self.lent_conns(), conn_id, 0) == (match r {
                Some(i) => Some(i as int),
                None => None,
            }),
            match r {
                Some(i) => i < self.lent_conns().len() && self.lent_conns()[i as int] == conn_id,
                None => !self.lent_conns().contains(conn_id),
            },
    {
        let mut i: usize = 0;
        while i < self.lent.len()
            invariant
                i <= self.lent@.len(),
                first_of(self.lent@, conn_id, 0) == first_of(self.lent@, conn_id, i as nat),
                forall|k: int| 0 <= k < i ==> self.lent@[k] != conn_id,
            decreases self.lent@.len() - i,
        {
            if self.lent[i] == conn_id {
                return Some(i);
            }
            i = i + 1;
        }
        None
    }

    fn find_idle(&self, conn_id: ConnId) -> (r: Option<usize>)
        ensures
            first_of(ids_of(self.idle_conns()), conn_id, 0) == (match r {
                Some(i) => Some(i as int),
                None => None,
            }),
            match r {
                Some(i) => i < self.idle_conns().len() && ids_of(self.idle_conns())[i as int]
                    == conn_id,
                None => !ids_of(self.idle_conns()).contains(conn_id),
            },
    {
        let ghost ids = ids_of(self.idle@);
        let mut i: usize = 0;
        while i < self.idle.len()
            invariant
                i <= self.idle@.len(),
                ids == ids_of(self.idle@),
                first_of(ids, conn_id, 0) == first_of(ids, conn_id, i as nat),
                forall|k: int| 0 <= k < i ==> ids[k] != conn_id,
            decreases self.idle@.len() - i,
        {
            assert(ids[i as int] == self.idle@[i as int].conn_id);
            if self.idle[i].conn_id == conn_id {
                return Some(i);
            }
            i = i + 1;
        }
        None
    }

    /// A borrowed connection is given back. It can be borrowed again if it is alive and there are
    /// not as many idle connections as the limit allows; otherwise it is dropped. One that is not
    /// lent out any more, because its end was reported, stays dropped. The result tells whether the
    /// connection was kept.
    pub fn release(&mut self, conn_id: ConnId, alive: bool, now: u64, metrics: &mut Metrics) -> (r:
        bool)
        requires
            old(self).wf(),
        ensures
            final(self).wf(),
            final(self).same_broker(*old(self)),
            r == (alive && old(self).lent_conns().contains(conn_id)
                && old(self).idle_conns().len() < old(self).limits().max_per_broker),
            final(self).idle_conns() == (if r {
                old(self).idle_conns().push(PooledConn { alive: true, last_used: now, conn_id })
            } else {
                old(self).idle_conns()
            }),
            final(self).lent_conns() == without(
                old(self).lent_conns(),
                first_of(old(self).lent_conns(), conn_id, 0),
            ),
            final(self).under_way() == old(self).under_way(),
            final(self).made() == old(self).made() - (if old(self).lent_conns().contains(conn_id)
                && !r {
                1int
            } else {
                0
            }),
            !final(self).lent_conns().contains(conn_id),
            figures_follow(*old(self), *final(self), *old(metrics), *final(metrics), 0),
            *final(metrics) == (Metrics {
                pool_evictions: final(metrics).pool_evictions,
                upstream_connections: final(metrics).upstream_connections,
                ..*old(metrics)
            }),
    {
        match self.find_lent(conn_id) {
            None => false,
            Some(i) => {
                self.lent.remove(i);
                proof {
                    lemma_one_borrower(*old(self), i as int);
                }
                if alive && self.idle.len() < self.config.max_per_broker {
                    self.idle.push_back(PooledConn { alive: true, last_used: now, conn_id });
                    proof {
                        let n = old(self).idle@.len() as int;
                        lemma_still_distinct(
                            old(self).ids(),
                            self.ids(),
                            |k: int| {
                                if k < n {
                                    k
                                } else if k == n {
                                    n + i
                                } else if k - 1 < n + i {
                                    k - 1
                                } else {
                                    k
                                }
                            },
                        );
                    }
                    true
                } else {
                    metrics.inc_pool_evictions();
                    metrics.dec_upstream_connections();
                    proof {
                        let at = old(self).idle@.len() + i;
                        assert(self.ids() =~= old(self).ids().remove(at));
                        lemma_removed_is_gone(old(self).ids(), at);
                    }
                    false
                }
            },
        }
    }

    /// An upstream connection has ended: the requests that it carried are given up, and no others.
    /// If it was still one of the pool's, idle or lent out, it leaves the pool. The result tells
    /// how many requests were given up.
    pub fn lost(&mut self, conn_id: ConnId, remap: &mut CidRemap, metrics: &mut Metrics) -> (r:
        usize)
        requires
            old(self).wf(),
            old(remap).wf(),
        ensures
            final(self).wf(),
            final(self).same_broker(*old(self)),
            final(self).under_way() == old(self).under_way(),
            final(self).lent_conns() == without(
                old(self).lent_conns(),
                first_of(old(self).lent_conns(), conn_id, 0),
            ),
            final(self).idle_conns() == (if old(self).lent_conns().contains(conn_id) {
                old(self).idle_conns()
            } else {
                without(
                    old(self).idle_conns(),
                    first_of(ids_of(old(self).idle_conns()), conn_id, 0),
                )
            }),
            final(self).made() == old(self).made() - (if old(self).knows(conn_id) {
                1int
            } else {
                0
            }),
            !final(self).knows(conn_id),
            figures_follow(*old(self), *final(self), *old(metrics), *final(metrics), 0),
            final(remap).wf(),
            final(remap)@ == of_others(old(remap)@, conn_id),
            gauges_follow(old(remap)@, final(remap)@, *old(metrics), *final(metrics)),
            final(remap).last_cid() == old(remap).last_cid(),
            final(remap).upcoming_conn_id() == old(remap).upcoming_conn_id(),
            final(remap).limit() == old(remap).limit(),
            r == old(remap)@.dom().filter(|cid: i32| old(remap)@[cid].conn_id == conn_id).len(),
            *final(metrics) == (Metrics {
                cid_map_entries: metrics::lowered(
                    old(metrics).enabled,
                    old(metrics).cid_map_entries,
                    r as i64,
                ),
                requests_in_flight: metrics::lowered_times(
                    old(metrics).enabled,
                    old(metrics).requests_in_flight,
                    r as nat,
                ),
                upstream_connections: metrics::lowered(
                    old(self).knows(conn_id),
                    old(metrics).upstream_connections,
                    1,
                ),
                pool_evictions: metrics::counted(
                    old(metrics).enabled && old(self).knows(conn_id),
                    old(metrics).pool_evictions,
                    1,
                ),
                ..*old(metrics)
            }),
    {
        let removed: usize = give_up_requests(remap, conn_id, metrics);
        let known = match self.find_lent(conn_id) {
            Some(i) => {
                self.lent.remove(i);
                proof {
                    let at = old(self).idle@.len() + i;
                    assert(self.ids() =~= old(self).ids().remove(at));
                    lemma_removed_is_gone(old(self).ids(), at);
                    lemma_known_is_listed(*self, conn_id);
                }
                true
            },
            None => match self.find_idle(conn_id) {
                Some(i) => {
                    self.idle.remove(i);
                    proof {
                        assert(self.ids() =~= old(self).ids().remove(i as int));
                        lemma_removed_is_gone(old(self).ids(), i as int);
                        lemma_known_is_listed(*self, conn_id);
                    }
                    true
                },
                None => false,
            },
        };
        if known {
            metrics.dec_upstream_connections();
            metrics.inc_pool_evictions();
        }
        removed
    }

    /// Drops the idle connections that were last used too long ago or are dead, and tells which
    /// they were. The others keep their order.
    pub fn reap(&mut self, now: u64, metrics: &mut Metrics) -> (r: Vec<ConnId>)
        requires
            old(self).wf(),
        ensures
            final(self).wf(),
            final(self).same_broker(*old(self)),
            final(self).idle_conns() == old(self).idle_conns().filter(
                |c: PooledConn| !is_stale(c, now, old(self).limits().idle_timeout),
            ),
            r@ == ids_of(
                old(self).idle_conns().filter(
                    |c: PooledConn| is_stale(c, now, old(self).limits().idle_timeout),
                ),
            ),
            final(self).lent_conns() == old(self).lent_conns(),
            final(self).under_way() == old(self).under_way(),
            final(self).made() == old(self).made() - r@.len(),
            figures_follow(*old(self), *final(self), *old(metrics), *final(metrics), 0),
            *final(metrics) == (Metrics {
                pool_evictions: metrics::counted(
                    old(metrics).enabled,
                    old(metrics).pool_evictions,
                    r@.len() as u64,
                ),
                upstream_connections: metrics::lowered_times(
                    true,
                    old(metrics).upstream_connections,
                    r@.len(),
                ),
                ..*old(metrics)
            }),
    {
        let ghost all = self.idle@;
        let ghost keep = |c: PooledConn| !is_stale(c, now, old(self).limits().idle_timeout);
        let ghost drop = |c: PooledConn| is_stale(c, now, old(self).limits().idle_timeout);
        let mut kept: VecDeque<PooledConn> = VecDeque::new();
        let mut gone: Vec<ConnId> = Vec::new();
        let total: usize = self.idle.len();
        let mut i: usize = 0;
        proof {
            assert(all.take(0) =~= Seq::<PooledConn>::empty());
            reveal(Seq::filter);
            assert(kept@ =~= all.take(0).filter(keep));
            assert(gone@ =~= ids_of(all.take(0).filter(drop)));
        }
        while i < total
            invariant
                i <= total,
                total == all.len(),
                all == old(self).idle_conns(),
                self.idle@ == all,
                *self == *old(self),
                keep == (|c: PooledConn| !is_stale(c, now, old(self).limits().idle_timeout)),
                drop == (|c: PooledConn| is_stale(c, now, old(self).limits().idle_timeout)),
                kept@ == all.take(i as int).filter(keep),
                gone@ == ids_of(all.take(i as int).filter(drop)),
                kept@.len() + gone@.len() == i,
                *metrics == (Metrics {
                    pool_evictions: metrics::counted(
                        old(metrics).enabled,
                        old(metrics).pool_evictions,
                        gone@.len() as u64,
                    ),
                    upstream_connections: metrics::lowered_times(
                        true,
                        old(metrics).upstream_connections,
                        gone@.len(),
                    ),
                    ..*old(metrics)
                }),
            decreases total - i,
        {
            let conn = self.idle[i];
            proof {
                assert(all.take(i + 1) =~= all.take(i as int).push(conn));
                lemma_filter_push(all.take(i as int), conn, keep);
                lemma_filter_push(all.take(i as int), conn, drop);
            }
            if stale(&conn, now, self.config.idle_timeout) {
                gone.push(conn.conn_id);
                metrics.inc_pool_evictions();
                metrics.dec_upstream_connections();
                assert(gone@ =~= ids_of(all.take(i + 1).filter(drop)));
            } else {
                kept.push_back(conn);
            }
            i = i + 1;
        }
        assert(all.take(total as int) =~= all);
        self.idle = kept;
        proof {
            lemma_filter_distinct(all, self.lent@, keep);
            if old(metrics).upstream_connections - gone@.len() >= i64::MIN {
                metrics::lowering_subtracts(old(metrics).upstream_connections, gone@.len());
            }
        }
        gone
    }

    /// Enters a request that one of the pool's connections carries into the table, and gives out
    /// its upstream correlation id. There is none while the table is full.
    pub fn register_request(
        &self,
        remap: &mut CidRemap,
        entry: RouteEntry,
        metrics: &mut Metrics,
    ) -> (r: Option<i32>)
        requires
            old(remap).wf(),
        ensures
            final(remap).wf(),
            r is Some <==> old(remap).has_room(),
            match r {
                Some(cid_u) => entered(*old(remap), *final(remap), cid_u, entry) && *final(metrics)
                    == (Metrics {
                    cid_map_entries: metrics::raised(
                        old(metrics).enabled,
                        old(metrics).cid_map_entries,
                        1,
                    ),
                    ..*old(metrics)
                }),
                None => {
                    &&& final(remap)@ == old(remap)@
                    &&& final(remap).last_cid() == old(remap).last_cid()
                    &&& *final(metrics) == *old(metrics)
                },
            },
            final(remap).upcoming_conn_id() == old(remap).upcoming_conn_id(),
            final(remap).limit() == old(remap).limit(),
    {
        remap.insert(entry, metrics)
    }

    /// Takes a request that could not be sent out of the table.
    pub fn cancel_request(&self, remap: &mut CidRemap, cid_u: i32, metrics: &mut Metrics)
        requires
            old(remap).wf(),
        ensures
            final(remap).wf(),
            final(remap)@ == old(remap)@.remove(cid_u),
            gauges_follow(old(remap)@, final(remap)@, *old(metrics), *final(metrics)),
            final(remap).last_cid() == old(remap).last_cid(),
            final(remap).upcoming_conn_id() == old(remap).upcoming_conn_id(),
            final(remap).limit() == old(remap).limit(),
            *final(metrics) == (Metrics {
                cid_map_entries: metrics::lowered(
                    old(metrics).enabled && old(remap)@.contains_key(cid_u),
                    old(metrics).cid_map_entries,
                    1,
                ),
                requests_in_flight: metrics::lowered(
                    old(metrics).enabled && old(remap)@.contains_key(cid_u),
                    old(metrics).requests_in_flight,
                    1,
                ),
                ..*old(metrics)
            }),
    {
        if remap.take(cid_u, metrics).is_some() {
            metrics.dec_requests_in_flight();
        }
    }
}

/// A list that takes each of its ids from another place of a list without duplicates has none.
proof fn lemma_still_distinct(a: Seq<ConnId>, b: Seq<ConnId>, from: spec_fn(int) -> int)
    requires
        a.no_duplicates(),
        forall|i: int|
            0 <= i < b.len() ==> 0 <= #[trigger] from(i) < a.len() && b[i] == a[from(i)],
        forall|i: int, j: int|
            0 <= i < j < b.len() ==> #[trigger] from(i) != #[trigger] from(j),
    ensures
        b.no_duplicates(),
{
    assert forall|i: int, j: int| 0 <= i < b.len() && 0 <= j < b.len() && i != j implies b[i]
        != b[j] by {
        assert(from(i) != from(j));
    }
}

proof fn lemma_new_is_distinct(idle: Seq<ConnId>, lent: Seq<ConnId>, conn_id: ConnId)
    requires
        (idle + lent).no_duplicates(),
        !idle.contains(conn_id),
        !lent.contains(conn_id),
    ensures
        (idle + lent.push(conn_id)).no_duplicates(),
        (idle.push(conn_id) + lent).no_duplicates(),
{
    let all = (idle + lent).push(conn_id);
    assert forall|i: int| 0 <= i < (idle + lent).len() implies (#[trigger] (idle + lent)[i])
        != conn_id by {
        if i < idle.len() {
            assert(idle.contains(idle[i]));
        } else {
            assert(lent.contains(lent[i - idle.len()]));
        }
    }
    assert(all.no_duplicates());
    assert(idle + lent.push(conn_id) =~= all);
    let n = idle.len() as int;
    let last = all.len() - 1;
    lemma_still_distinct(
        all,
        idle.push(conn_id) + lent,
        |i: int| {
            if i < n {
                i
            } else if i == n {
                last
            } else {
                i - 1
            }
        },
    );
}

proof fn lemma_removed_is_gone(ids: Seq<ConnId>, at: int)
    requires
        ids.no_duplicates(),
        0 <= at < ids.len(),
    ensures
        ids.remove(at).no_duplicates(),
        !ids.remove(at).contains(ids[at]),
{
    lemma_still_distinct(
        ids,
        ids.remove(at),
        |i: int| {
            if i < at {
                i
            } else {
                i + 1
            }
        },
    );
}

proof fn lemma_known_is_listed(pool: BrokerPool, conn_id: ConnId)
    ensures
        pool.knows(conn_id) <==> pool.ids().contains(conn_id),
{
    let idle = ids_of(pool.idle_conns());
    let lent = pool.lent_conns();
    if idle.contains(conn_id) {
        let i = choose|i: int| 0 <= i < idle.len() && idle[i] == conn_id;
        assert(pool.ids()[i] == conn_id);
    }
    if lent.contains(conn_id) {
        let i = choose|i: int| 0 <= i < lent.len() && lent[i] == conn_id;
        assert(pool.ids()[idle.len() + i] == conn_id);
    }
    if pool.ids().contains(conn_id) {
        let i = choose|i: int| 0 <= i < pool.ids().len() && pool.ids()[i] == conn_id;
        if i < idle.len() {
            assert(idle[i] == conn_id);
        } else {
            assert(lent[i - idle.len()] == conn_id);
        }
    }
}

/// A connection that is lent out is with one client alone, as long as the pool is as it should be.
pub proof fn lent_connections_have_one_borrower(pool: BrokerPool, conn_id: ConnId)
    requires
        pool.wf(),
        pool.lent_conns().contains(conn_id),
    ensures
        pool.has_one_borrower(conn_id),
{
    let i = choose|i: int|
        0 <= i < pool.lent_conns().len() && pool.lent_conns()[i] == conn_id;
    lemma_one_borrower(pool, i);
}

proof fn lemma_one_borrower(pool: BrokerPool, i: int)
    requires
        pool.ids().no_duplicates(),
        0 <= i < pool.lent_conns().len(),
    ensures
        pool.has_one_borrower(pool.lent_conns()[i]),
        !pool.lent_conns().remove(i).contains(pool.lent_conns()[i]),
{
    let n = pool.idle_conns().len() as int;
    let conn_id = pool.lent_conns()[i];
    assert(pool.ids()[n + i] == conn_id);
    assert forall|k: int| 0 <= k < n implies #[trigger] ids_of(pool.idle_conns())[k] != conn_id by {
        assert(pool.ids()[k] == ids_of(pool.idle_conns())[k]);
    }
    assert forall|j: int| 0 <= j < pool.lent_conns().len() && j != i implies
        #[trigger] pool.lent_conns()[j] != conn_id by {
        assert(pool.ids()[n + j] == pool.lent_conns()[j]);
    }
}

proof fn lemma_lent_is_not_idle(pool: BrokerPool, i: int)
    requires
        pool.ids().no_duplicates(),
        0 <= i < pool.idle_conns().len(),
    ensures
        !pool.lent_conns().contains(pool.idle_conns()[i].conn_id),
{
    let n = pool.idle_conns().len() as int;
    assert(pool.ids()[i] == pool.idle_conns()[i].conn_id);
    assert forall|j: int| 0 <= j < pool.lent_conns().len() implies #[trigger] pool.lent_conns()[j]
        != pool.idle_conns()[i].conn_id by {
        assert(pool.ids()[n + j] == pool.lent_conns()[j]);
    }
}

/// Taking some of the idle connections away leaves each of the others in one place.
proof fn lemma_filter_distinct(
    idle: Seq<PooledConn>,
    lent: Seq<ConnId>,
    keep: spec_fn(PooledConn) -> bool,
)
    requires
        (ids_of(idle) + lent).no_duplicates(),
    ensures
        (ids_of(idle.filter(keep)) + lent).no_duplicates(),
        forall|id: ConnId|
            ids_of(idle.filter(keep)).contains(id) ==> #[trigger] ids_of(idle).contains(id),
    decreases idle.len(),
{
    reveal(Seq::filter);
    if idle.len() > 0 {
        let front = idle.drop_last();
        let last = idle.last();
        let all = ids_of(idle) + lent;
        let k = front.len() as int;
        assert(ids_of(front) + lent =~= all.remove(k));
        lemma_removed_is_gone(all, k);
        assert(all[k] == last.conn_id);
        lemma_filter_distinct(front, lent, keep);
        let kept = ids_of(front.filter(keep));
        assert forall|id: ConnId| ids_of(idle.filter(keep)).contains(id) implies
            #[trigger] ids_of(idle).contains(id) by {
            let ids = ids_of(idle.filter(keep));
            let i = choose|i: int| 0 <= i < ids.len() && ids[i] == id;
            if i < kept.len() {
                assert(kept[i] == id);
                assert(ids_of(front).contains(id));
                let j = choose|j: int| 0 <= j < front.len() && ids_of(front)[j] == id;
                assert(ids_of(idle)[j] == id);
            } else {
                assert(ids_of(idle)[k] == id);
            }
        }
        if keep(last) {
            if kept.contains(last.conn_id) {
                assert(ids_of(front).contains(last.conn_id));
                let j = choose|j: int| 0 <= j < front.len() && ids_of(front)[j] == last.conn_id;
                assert(all.remove(k)[j] == last.conn_id);
            }
            if lent.contains(last.conn_id) {
                let j = choose|j: int| 0 <= j < lent.len() && lent[j] == last.conn_id;
                assert(all.remove(k)[k + j] == last.conn_id);
            }
            lemma_new_is_distinct(kept, lent, last.conn_id);
            assert(ids_of(idle.filter(keep)) =~= kept.push(last.conn_id));
        }
    }
}

proof fn lemma_filter_push<A>(s: Seq<A>, a: A, pred: spec_fn(A) -> bool)
    ensures
        s.push(a).filter(pred) == (if pred(a) {
            s.filter(pred).push(a)
        } else {
            s.filter(pred)
        }),
        s.filter(pred).len() <= s.len(),
{
    reveal(Seq::filter);
    assert(s.push(a).drop_last() =~= s);
    s.lemma_filter_len(pred);
}

/// The frame that is sent to the client for the response `data`: rewritten where it has to be, and
/// under the correlation id that the client chose.
pub open spec fn routed(data: Seq<u8>, entry: RouteEntry, addresses: rewrite::Addresses) -> Seq<
    u8,
> {
    let base = match rewrite::rewritten(entry.api_key, entry.api_version, data, addresses) {
        Some(frame) => frame,
        None => data,
    };
    rewrite::under_cid(base, entry.cid_d)
}

/// Puts another correlation id into a response frame.
fn with_response_cid(frame: &[u8], cid: i32) -> (r: Vec<u8>)
    requires
        frame@.len() >= 4,
    ensures
        r@ == rewrite::under_cid(frame@, cid),
        r@.len() == frame@.len(),
        wire::i32_at(r@, 0) == cid,
        r@.skip(4) == frame@.skip(4),
{
    let mut r: Vec<u8> = Vec::new();
    push_i32(&mut r, cid);
    push_from(&mut r, frame, 4);
    proof {
        let tail = frame@.skip(4);
        assert(r@ =~= Seq::<u8>::empty() + wire::i32_bytes(cid as int) + tail);
        wire::i32_reads_back(Seq::<u8>::empty(), cid, tail);
        assert(r@.skip(4) =~= tail);
    }
    r
}

/// Makes the frame that is sent to the client out of the response of the broker. One that cannot be
/// decoded gets the client's correlation id and is otherwise passed on as it is.
pub fn route_response(data: &[u8], entry: &RouteEntry, rewrite_map: &RewriteMap) -> (r: Vec<u8>)
    requires
        data@.len() >= 4,
    ensures
        r@ == routed(data@, *entry, rewrite_map@),
        !rewrite::decodes(entry.api_key, entry.api_version, data@) ==> r@ == rewrite::under_cid(
            data@,
            entry.cid_d,
        ),
        rewrite::overruns(entry.api_key, entry.api_version, data@) ==> r@ == rewrite::under_cid(
            data@,
            entry.cid_d,
        ),
        r@.len() >= 4,
        wire::i32_at(r@, 0) == entry.cid_d,
        match rewrite::rewritten(entry.api_key, entry.api_version, data@, rewrite_map@) {
            Some(_) => rewrite::points_at_the_proxy(
                entry.api_key,
                entry.api_version,
                data@,
                rewrite_map@,
                r@,
            ),
            None => r@.skip(4) == data@.skip(4),
        },
{
    match rewrite_response(entry.api_key, entry.api_version, data, rewrite_map) {
        Some(frame) => {
            let out = with_response_cid(frame.as_slice(), entry.cid_d);
            proof {
                rewrite::shown_under_any_cid(
                    entry.api_key,
                    entry.api_version,
                    data@,
                    rewrite_map@,
                    frame@,
                    out@,
                );
            }
            out
        },
        None => with_response_cid(data, entry.cid_d),
    }
}

/// What becomes of a response of the broker.
pub enum ResponseStep {
    /// Nothing: it is too short, or no request waits for it.
    Dropped,
    /// The frame goes to this downstream connection.
    Deliver { downstream: u64, frame: Vec<u8> },
}

/// A response of the broker has come: the request that it answers leaves the table, and the
/// response goes to the connection that waits for it.
pub fn on_response(
    data: &[u8],
    remap: &mut CidRemap,
    rewrite_map: &RewriteMap,
    now: u64,
    metrics: &mut Metrics,
) -> (r: ResponseStep)
    requires
        old(remap).wf(),
        old(metrics).wf(),
    ensures
        final(remap).wf(),
        final(metrics).wf(),
        final(remap).last_cid() == old(remap).last_cid(),
        final(remap).upcoming_conn_id() == old(remap).upcoming_conn_id(),
        final(remap).limit() == old(remap).limit(),
        gauges_follow(old(remap)@, final(remap)@, *old(metrics), *final(metrics)),
        ({
            let cid_u = wire::i32_at(data@, 0) as i32;
            let entry = old(remap)@[cid_u];
            if data@.len() < 4 || !old(remap)@.contains_key(cid_u) {
                &&& r is Dropped
                &&& final(remap)@ == old(remap)@
                &&& *final(metrics) == *old(metrics)
            } else {
                &&& final(remap)@ == old(remap)@.remove(cid_u)
                &&& *final(metrics) == (Metrics {
                    cid_map_entries: metrics::lowered(
                        old(metrics).enabled,
                        old(metrics).cid_map_entries,
                        1,
                    ),
                    requests_in_flight: metrics::lowered(
                        old(metrics).enabled,
                        old(metrics).requests_in_flight,
                        1,
                    ),
                    request_hist: final(metrics).request_hist,
                    ..*old(metrics)
                })
                &&& metrics::hist_after(
                    old(metrics).enabled,
                    old(metrics).request_hist,
                    if now > entry.started {
                        (now - entry.started) as u64
                    } else {
                        0
                    },
                    final(metrics).request_hist,
                )
                &&& match r {
                    ResponseStep::Dropped => false,
                    ResponseStep::Deliver { downstream, frame } => {
                        &&& downstream == entry.downstream
                        &&& frame@ == routed(data@, entry, rewrite_map@)
                    },
                }
            }
        }),
{
    let cid_u: i32 = match parse_response_cid(data) {
        Some(cid) => cid,
        None => {
            return ResponseStep::Dropped;
        },
    };
    let entry = match remap.take(cid_u, metrics) {
        Some(entry) => entry,
        None => {
            assert(old(remap)@.remove(cid_u) =~= old(remap)@);
            return ResponseStep::Dropped;
        },
    };
    metrics.dec_requests_in_flight();
    let elapsed: u64 = if now > entry.started {
        now - entry.started
    } else {
        0
    };
    metrics.observe_request(elapsed);
    let frame = route_response(data, &entry, rewrite_map);
    ResponseStep::Deliver { downstream: entry.downstream, frame }
}

/// The request frame with another correlation id.
pub open spec fn request_under_cid(frame: Seq<u8>, cid: i32) -> Seq<u8> {
    frame.take(4) + wire::i32_bytes(cid as int) + frame.skip(8)
}

/// Puts the upstream correlation id into a request frame.
pub fn with_cid(data: &[u8], cid_u: i32) -> (r: Vec<u8>)
    requires
        data@.len() >= 8,
    ensures
        r@ == request_under_cid(data@, cid_u),
        rewrite::request_header(r@) == Some(
            (wire::i16_at(data@, 0), wire::i16_at(data@, 2), cid_u as int),
        ),
{
    let mut out: Vec<u8> = Vec::new();
    push_range(&mut out, data, 0, 4);
    push_i32(&mut out, cid_u);
    push_from(&mut out, data, 8);
    proof {
        assert(out@ =~= request_under_cid(data@, cid_u));
        request_cid_is_replaced(data@, cid_u);
    }
    out
}

/// A request frame under another correlation id keeps its length, its api key, its version and
/// everything behind its correlation id; under its own, it is the same frame.
pub proof fn request_cid_is_replaced(data: Seq<u8>, cid: i32)
    requires
        data.len() >= 8,
    ensures
        request_under_cid(data, cid).len() == data.len(),
        rewrite::request_header(request_under_cid(data, cid)) == Some(
            (wire::i16_at(data, 0), wire::i16_at(data, 2), cid as int),
        ),
        request_under_cid(data, cid).skip(8) == data.skip(8),
        request_under_cid(request_under_cid(data, cid), wire::i32_at(data, 4) as i32) == data,
{
    let r = request_under_cid(data, cid);
    wire::i32_reads_back(data.take(4), cid, data.skip(8));
    assert(r.skip(8) =~= data.skip(8));
    assert(r.take(4) =~= data.take(4));
    wire::i32_writes_back(data, 4);
    assert(request_under_cid(r, wire::i32_at(data, 4) as i32) =~= data);
}

/// From the client's view nothing is remapped: the response to a request that went out under an
/// upstream correlation id comes back under the one that the client chose, to the connection that
/// asked, and is otherwise what the broker sent, rewritten where it carries addresses.
pub proof fn client_gets_its_own_cid(
    routes: Map<i32, RouteEntry>,
    cid_u: i32,
    entry: RouteEntry,
    data: Seq<u8>,
    addresses: rewrite::Addresses,
)
    requires
        data.len() >= 4,
        wire::i32_at(data, 0) == cid_u,
    ensures
        routes.insert(cid_u, entry)[wire::i32_at(data, 0) as i32] == entry,
        rewrite::response_cid(routed(data, entry, addresses)) == Some(entry.cid_d as int),
        rewrite::rewritten(entry.api_key, entry.api_version, data, addresses) is None ==> routed(
            data,
            entry,
            addresses,
        ).skip(4) == data.skip(4),
{
    let out = routed(data, entry, addresses);
    let base = match rewrite::rewritten(entry.api_key, entry.api_version, data, addresses) {
        Some(frame) => frame,
        None => data,
    };
    wire::i32_reads_back(Seq::<u8>::empty(), entry.cid_d, base.skip(4));
    assert(out =~= Seq::<u8>::empty() + wire::i32_bytes(entry.cid_d as int) + base.skip(4));
    assert(out.skip(4) =~= base.skip(4));
}

/// What happens on an upstream connection of the pool.
#[derive(Clone, Copy, Debug, PartialEq, Eq, Structural)]
pub enum LinkEvent {
    /// There is a request to send.
    Request,
    /// There will be no more requests.
    RequestsEnded,
    /// It is time to flush.
    Tick,
    /// The broker sent a frame of this many bytes.
    Frame(usize),
    /// The broker closed the connection, or reading failed.
    ReadEnded,
}

/// What is to be done on an upstream connection of the pool.
#[derive(Clone, Copy, Debug, PartialEq, Eq, Structural)]
pub enum LinkAction {
    /// Nothing.
    Nothing,
    /// Send the request, without flushing.
    Send,
    /// Flush what was sent.
    Flush,
    /// Hand the frame on.
    HandOn,
    /// Flush, close the connection, and stop.
    Close,
    /// Flush and stop.
    Finish,
    /// Stop.
    Stop,
}

/// The state of an upstream connection of the pool: whether something was sent since the last
/// flush. Frames are flushed at intervals and not one by one.
pub struct Link {
    pub needs_flush: bool,
}

impl Link {
    pub fn new() -> (r: Self)
        ensures
            !r.needs_flush,
    {
        Link { needs_flush: false }
    }

    /// What is to be done after `event`.
    pub fn on_event(&self, event: LinkEvent, metrics: &mut Metrics) -> (r: LinkAction)
        ensures
            r == (match event {
                LinkEvent::Request => LinkAction::Send,
                LinkEvent::RequestsEnded => LinkAction::Close,
                LinkEvent::Tick => if self.needs_flush {
                    LinkAction::Flush
                } else {
                    LinkAction::Nothing
                },
                LinkEvent::Frame(_) => LinkAction::HandOn,
                LinkEvent::ReadEnded => LinkAction::Stop,
            }),
            *final(metrics) == (match event {
                LinkEvent::Frame(len) => Metrics {
                    frames_upstream: metrics::counted(
                        old(metrics).enabled,
                        old(metrics).frames_upstream,
                        1,
                    ),
                    bytes_upstream: metrics::counted(
                        old(metrics).enabled,
                        old(metrics).bytes_upstream,
                        len as u64,
                    ),
                    ..*old(metrics)
                },
                _ => *old(metrics),
            }),
    {
        match event {
            LinkEvent::Request => LinkAction::Send,
            LinkEvent::RequestsEnded => LinkAction::Close,
            LinkEvent::Tick => if self.needs_flush {
                LinkAction::Flush
            } else {
                LinkAction::Nothing
            },
            LinkEvent::Frame(len) => {
                metrics.inc_frames_upstream();
                metrics.add_bytes_upstream(len as u64);
                LinkAction::HandOn
            },
            LinkEvent::ReadEnded => LinkAction::Stop,
        }
    }

    /// Whether the connection goes on after `action`, which succeeded or not.
    pub fn after(&mut self, action: LinkAction, success: bool) -> (r: bool)
        ensures
            r == (match action {
                LinkAction::Nothing => true,
                LinkAction::Close | LinkAction::Finish | LinkAction::Stop => false,
                LinkAction::Send | LinkAction::Flush | LinkAction::HandOn => success,
            }),
            final(self).needs_flush == (match action {
                LinkAction::Send if success => true,
                LinkAction::Flush if success => false,
                _ => old(self).needs_flush,
            }),
    {
        match action {
            LinkAction::Nothing => true,
            LinkAction::Close | LinkAction::Finish | LinkAction::Stop => false,
            LinkAction::Send => {
                if success {
                    self.needs_flush = true;
                }
                success
            },
            LinkAction::Flush => {
                if success {
                    self.needs_flush = false;
                }
                success
            },
            LinkAction::HandOn => success,
        }
    }
}

/// Gives up the requests that one upstream connection carries, and tells how many they were.
fn give_up_requests(remap: &mut CidRemap, conn_id: ConnId, metrics: &mut Metrics) -> (r: usize)
    requires
        old(remap).wf(),
    ensures
        final(remap).wf(),
        final(remap)@ == of_others(old(remap)@, conn_id),
        final(remap).last_cid() == old(remap).last_cid(),
        final(remap).upcoming_conn_id() == old(remap).upcoming_conn_id(),
        final(remap).limit() == old(remap).limit(),
        gauges_follow(old(remap)@, final(remap)@, *old(metrics), *final(metrics)),
        r == old(remap)@.dom().filter(|cid: i32| old(remap)@[cid].conn_id == conn_id).len(),
        *final(metrics) == (Metrics {
            cid_map_entries: metrics::lowered(
                old(metrics).enabled,
                old(metrics).cid_map_entries,
                r as i64,
            ),
            requests_in_flight: metrics::lowered_times(
                old(metrics).enabled,
                old(metrics).requests_in_flight,
                r as nat,
            ),
            ..*old(metrics)
        }),
{
    let removed: usize = remap.fail_conn(conn_id, metrics);
    let ghost failed = *metrics;
    let mut i: usize = 0;
    while i < removed
        invariant
            i <= removed,
            *metrics == (Metrics {
                requests_in_flight: metrics::lowered_times(
                    failed.enabled,
                    failed.requests_in_flight,
                    i as nat,
                ),
                ..failed
            }),
        decreases removed - i,
    {
        metrics.dec_requests_in_flight();
        i = i + 1;
    }
    proof {
        if old(metrics).enabled && failed.requests_in_flight - removed >= i64::MIN {
            metrics::lowering_subtracts(failed.requests_in_flight, removed as nat);
        }
    }
    removed
}

/// The sum of the first `n` numbers.
pub open spec fn total_of(numbers: Seq<nat>, n: nat) -> nat
    decreases n,
{
    if n == 0 {
        0
    } else {
        total_of(numbers, (n - 1) as nat) + numbers[n - 1]
    }
}

/// Whatever is done to a pool, from the start on: the gauge of upstream connections shows how many
/// the pool has, and every connection that came to it and is there no more was counted as evicted,
/// once, however it went.
pub proof fn connections_are_counted_once(
    pools: Seq<BrokerPool>,
    figures: Seq<Metrics>,
    opened: Seq<nat>,
)
    requires
        pools.len() == figures.len() == opened.len() + 1,
        pools[0].established() == 0,
        figures[0].enabled,
        figures[0].upstream_connections == 0,
        figures[0].pool_evictions == 0,
        forall|i: int|
            0 <= i < opened.len() ==> #[trigger] figures_follow(
                pools[i],
                pools[i + 1],
                figures[i],
                figures[i + 1],
                opened[i],
            ),
        total_of(opened, opened.len()) <= i64::MAX,
    ensures
        figures.last().upstream_connections == pools.last().established(),
        figures.last().pool_evictions == total_of(opened, opened.len())
            - pools.last().established(),
    decreases opened.len(),
{
    if opened.len() > 0 {
        let k = opened.len() - 1;
        let earlier = opened.drop_last();
        lemma_total_of_prefix(opened, earlier, k as nat);
        assert forall|i: int| 0 <= i < earlier.len() implies #[trigger] figures_follow(
            pools.drop_last()[i],
            pools.drop_last()[i + 1],
            figures.drop_last()[i],
            figures.drop_last()[i + 1],
            earlier[i],
        ) by {
            assert(figures_follow(
                pools[i],
                pools[i + 1],
                figures[i],
                figures[i + 1],
                opened[i],
            ));
        }
        connections_are_counted_once(pools.drop_last(), figures.drop_last(), earlier);
        assert(figures_follow(pools[k], pools[k + 1], figures[k], figures[k + 1], opened[k]));
        lemma_enabled_stays(pools, figures, opened, k as nat);
    }
}

proof fn lemma_total_of_prefix(a: Seq<nat>, b: Seq<nat>, n: nat)
    requires
        n <= a.len(),
        n <= b.len(),
        forall|i: int| 0 <= i < n ==> a[i] == b[i],
    ensures
        total_of(a, n) == total_of(b, n),
    decreases n,
{
    if n > 0 {
        lemma_total_of_prefix(a, b, (n - 1) as nat);
    }
}

proof fn lemma_enabled_stays(
    pools: Seq<BrokerPool>,
    figures: Seq<Metrics>,
    opened: Seq<nat>,
    n: nat,
)
    requires
        n <= opened.len(),
        figures[0].enabled,
        forall|i: int|
            0 <= i < opened.len() ==> #[trigger] figures_follow(
                pools[i],
                pools[i + 1],
                figures[i],
                figures[i + 1],
                opened[i],
            ),
    ensures
        figures[n as int].enabled,
    decreases n,
{
    if n > 0 {
        lemma_enabled_stays(pools, figures, opened, (n - 1) as nat);
        let k = n - 1;
        assert(figures_follow(pools[k], pools[k + 1], figures[k], figures[k + 1], opened[k]));
    }
}

/// An idle connection is stale exactly where it is dead or was last used at least the timeout ago.
pub proof fn stale_connections(conn: PooledConn, now: u64, idle_timeout: Duration)
    ensures
        !conn.alive ==> is_stale(conn, now, idle_timeout),
        conn.alive && now >= conn.last_used ==> (is_stale(conn, now, idle_timeout) <==> now
            - conn.last_used >= idle_timeout.secs * 1_000_000_000 + idle_timeout.nanos),
{
}

/// Taking a connection out of a list without duplicates takes that one and no other, and a list
/// without it stays.
pub proof fn one_connection_leaves(ids: Seq<ConnId>, id: ConnId, other: ConnId)
    requires
        ids.no_duplicates(),
    ensures
        !without(ids, first_of(ids, id, 0)).contains(id),
        other != id ==> (without(ids, first_of(ids, id, 0)).contains(other) <==> ids.contains(
            other,
        )),
        without(ids, first_of(ids, id, 0)).len() == ids.len() - (if ids.contains(id) {
            1int
        } else {
            0
        }),
        !ids.contains(id) ==> without(ids, first_of(ids, id, 0)) == ids,
{
    lemma_first_of(ids, id, 0);
    match first_of(ids, id, 0) {
        None => {},
        Some(i) => {
            lemma_removed_is_gone(ids, i);
            if other != id && ids.contains(other) {
                let k = choose|k: int| 0 <= k < ids.len() && ids[k] == other;
                if k < i {
                    assert(ids.remove(i)[k] == other);
                } else {
                    assert(ids.remove(i)[k - 1] == other);
                }
            }
            if other != id && ids.remove(i).contains(other) {
                let k = choose|k: int| 0 <= k < ids.remove(i).len() && ids.remove(i)[k] == other;
                if k < i {
                    assert(ids[k] == other);
                } else {
                    assert(ids[k + 1] == other);
                }
            }
        },
    }
}

proof fn lemma_first_of(ids: Seq<ConnId>, id: ConnId, from: nat)
    ensures
        match first_of(ids, id, from) {
            Some(i) => from <= i < ids.len() && ids[i] == id,
            None => forall|k: int| from <= k < ids.len() ==> ids[k] != id,
        },
    decreases ids.len() - from,
{
    if from < ids.len() && ids[from as int] != id {
        lemma_first_of(ids, id, from + 1);
    }
}

/// The ids of a list of connections are theirs, in the same order.
pub proof fn ids_stand_for_their_connections(conns: Seq<PooledConn>, i: int)
    requires
        0 <= i < conns.len(),
    ensures
        ids_of(conns).len() == conns.len(),
        ids_of(conns)[i] == conns[i].conn_id,
{
}

/// A request gets the next id that no request has: it is free, and every id that would have come
/// before it is in use.
pub proof fn ids_in_use_are_passed_over(routes: Map<i32, RouteEntry>, cid: i32, steps: nat)
    requires
        cid > 0,
        0 < steps <= i32::MAX,
        forall|k: nat|
            0 < k < steps ==> routes.contains_key(#[trigger] nth_cid_after(cid, k)),
        !routes.contains_key(nth_cid_after(cid, steps)),
    ensures
        next_free(routes, cid) == Some(nth_cid_after(cid, steps)),
{
    lemma_passes_over(routes, cid, 0, steps, i32::MAX as nat);
}

proof fn lemma_passes_over(
    routes: Map<i32, RouteEntry>,
    cid: i32,
    done: nat,
    steps: nat,
    tries: nat,
)
    requires
        done < steps,
        steps - done <= tries,
        forall|k: nat|
            0 < k < steps ==> routes.contains_key(#[trigger] nth_cid_after(cid, k)),
        !routes.contains_key(nth_cid_after(cid, steps)),
    ensures
        free_after(routes, nth_cid_after(cid, done), tries) == Some(nth_cid_after(cid, steps)),
    decreases steps - done,
{
    assert(nth_cid_after(cid, done + 1) == cid_after(nth_cid_after(cid, done)));
    if done + 1 < steps {
        assert(routes.contains_key(nth_cid_after(cid, done + 1)));
        lemma_passes_over(routes, cid, done + 1, steps, (tries - 1) as nat);
    }
}

/// A response reaches the client under the client's correlation id. Behind that it is the rewritten
/// frame where there is one, and otherwise what the broker sent.
pub proof fn client_gets_the_rewritten_frame(
    data: Seq<u8>,
    entry: RouteEntry,
    addresses: rewrite::Addresses,
)
    ensures
        routed(data, entry, addresses).take(4) == wire::i32_bytes(entry.cid_d as int),
        routed(data, entry, addresses).skip(4) == (match rewrite::rewritten(
            entry.api_key,
            entry.api_version,
            data,
            addresses,
        ) {
            Some(frame) => frame.skip(4),
            None => data.skip(4),
        }),
{
    let base = match rewrite::rewritten(entry.api_key, entry.api_version, data, addresses) {
        Some(frame) => frame,
        None => data,
    };
    let out = routed(data, entry, addresses);
    assert(out =~= wire::i32_bytes(entry.cid_d as int) + base.skip(4));
    assert(out.take(4) =~= wire::i32_bytes(entry.cid_d as int));
    assert(out.skip(4) =~= base.skip(4));
}

/// A request that is entered is in the table under its id, which is positive and was free, and the
/// last that was given out. Every other request is as it was, and there is one more in all.
pub proof fn entered_requests_are_in_the_table(
    before: CidRemap,
    after: CidRemap,
    cid_u: i32,
    entry: RouteEntry,
    other: i32,
)
    requires
        entered(before, after, cid_u, entry),
        before.wf(),
    ensures
        cid_u > 0,
        !before@.contains_key(cid_u),
        after@.contains_key(cid_u),
        after@[cid_u] == entry,
        after.last_cid() == cid_u,
        after@.dom().len() == before@.dom().len() + 1,
        other != cid_u ==> after@.contains_key(other) == before@.contains_key(other),
        other != cid_u && before@.contains_key(other) ==> after@[other] == before@[other],
{
}

/// A request is refused only where as many are in flight as may be, or as there are ids.
pub proof fn requests_are_refused_at_the_limit(remap: CidRemap)
    ensures
        !remap.has_room() <==> remap@.dom().len() >= remap.limit() || remap@.dom().len()
            >= 2147483647,
{
}

/// A probe decides on the connection that it was for, and on nothing else of it than whether it is
/// alive.
pub proof fn probe_is_for_one_connection(conn: PooledConn, conn_id: ConnId, alive: bool)
    ensures
        conn.conn_id != conn_id ==> found(conn, conn_id, alive) == conn,
        found(conn, conn_id, alive).conn_id == conn.conn_id,
        found(conn, conn_id, alive).last_used == conn.last_used,
        conn.conn_id == conn_id ==> found(conn, conn_id, alive).alive == alive,
{
}

/// A pool knows the connections that are idle and those that are lent out, and counts each once,
/// and those that are being made.
pub proof fn pool_knows_its_connections(pool: BrokerPool, i: int, j: int)
    ensures
        0 <= i < pool.idle_conns().len() ==> pool.knows(pool.idle_conns()[i].conn_id),
        0 <= j < pool.lent_conns().len() ==> pool.knows(pool.lent_conns()[j]),
        pool.made() == pool.idle_conns().len() + pool.lent_conns().len() + pool.under_way(),
        pool.wf() ==> pool.made() <= pool.limits().max_per_broker,
{
    if 0 <= i < pool.idle_conns().len() {
        assert(ids_of(pool.idle_conns())[i] == pool.idle_conns()[i].conn_id);
    }
}

} // verus!
